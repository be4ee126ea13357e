//! The current time, read through `chrono`.
use vstd::prelude::*;

verus! {

/// Whether `t` is a year as chrono writes it: four or more digits, with a
/// sign in front for years outside 0..=9999.
pub open spec fn year_shaped(t: Seq<char>) -> bool {
    &&& t.len() >= 4
    &&& (is_decimal_digit(t[0]) || t[0] == '+' || t[0] == '-')
    &&& forall|i: int| 1 <= i < t.len() ==> is_decimal_digit(#[trigger] t[i])
}

/// Whether `t` is `YEAR-MM-DDTHH:MM:SS`, the year as in [`year_shaped`]
/// and every other field two decimal digits.
pub open spec fn date_time_shaped(t: Seq<char>) -> bool {
    let n = t.len() as int;
    &&& n >= 19
    &&& year_shaped(t.subrange(0, n - 15))
    &&& t[n - 15] == '-' && t[n - 12] == '-' && t[n - 9] == 'T' && t[n - 6] == ':' && t[n - 3] == ':'
    &&& forall|i: int| n - 15 < i < n && i != n - 12 && i != n - 9 && i != n - 6 && i != n - 3
        ==> is_decimal_digit(#[trigger] t[i])
}

/// Whether `t` is a fraction of a second as chrono writes one: nothing, or
/// `.` and three, six or nine decimal digits.
pub open spec fn fraction_shaped(t: Seq<char>) -> bool {
    t.len() == 0 || ((t.len() == 4 || t.len() == 7 || t.len() == 10) && t[0] == '.'
        && forall|i: int| 1 <= i < t.len() ==> is_decimal_digit(#[trigger] t[i]))
}

/// Whether `t` is an RFC 3339 time in UTC as `to_rfc3339` writes it:
/// `YEAR-MM-DDTHH:MM:SS`, an optional fraction, and `+00:00`.
pub open spec fn rfc3339_utc_shaped(t: Seq<char>) -> bool {
    let n = t.len() as int;
    &&& n >= 25
    &&& t.subrange(n - 6, n) == seq!['+', '0', '0', ':', '0', '0']
    &&& exists|f: int| #![trigger t.subrange(f, n - 6)]
        19 <= f <= n - 6 && date_time_shaped(t.subrange(0, f)) && fraction_shaped(t.subrange(f, n - 6))
}

/// `chrono::Utc::now().to_rfc3339()`: the current UTC time.  chrono writes
/// the date and time fields as in [`rfc3339_utc_shaped`], a fraction of a
/// second only when it is not zero, and the zero offset of UTC as `+00:00`.
/// Which time it is is the clock's reading and is not stated.
#[verifier::external_body]
pub(crate) fn utc_now_rfc3339() -> (r: String)
    ensures
        rfc3339_utc_shaped(r@),
{
    chrono::Utc::now().to_rfc3339()
}

/// Whether `c` is a decimal digit.
pub open spec fn is_decimal_digit(c: char) -> bool {
    '0' <= c && c <= '9'
}

/// Whether `t` has the shape that `%Y%m%d-%H%M%S` gives: a year of at
/// least four characters, then `MMDD-HHMMSS` in decimal digits.
pub open spec fn timestamp_shaped(t: Seq<char>) -> bool {
    &&& t.len() >= 15
    &&& t[t.len() - 7] == '-'
    &&& forall|i: int| t.len() - 11 <= i < t.len() && i != t.len() - 7 ==> is_decimal_digit(#[trigger] t[i])
}

/// `chrono::Utc::now().format(pattern).to_string()` for the one pattern
/// admitted, `%Y%m%d-%H%M%S`.  chrono writes the year with at least four
/// characters (a sign and more digits outside 0..=9999) and month, day,
/// hour, minute and second with two zero-padded digits each.  Which
/// digits come is the clock's reading and is not stated.
#[verifier::external_body]
pub(crate) fn utc_now_formatted(pattern: &str) -> (r: String)
    requires
        pattern@ == "%Y%m%d-%H%M%S"@,
    ensures
        timestamp_shaped(r@),
{
    chrono::Utc::now().format(pattern).to_string()
}

} // verus!
