//! Sync tokens: generation, validation and the digest sent in their place.
use vstd::prelude::*;

use rand::Rng;

use crate::codec::{hex_lower, sha256, compute_sha256};
use crate::error::{err_msg, ErrorKind, OctError};
use crate::text::{chars_of, is_ascii_alnum, push_chars, push_str, string_from_chars};
use vstd::string::StringSliceAdditionalSpecFns;
use vstd::utf8::{decode_utf8, encode_utf8_decode_utf8, is_char_boundary};

verus! {

/// The least number of characters of a token.
pub const MIN_TOKEN_LENGTH: usize = 32;

/// The number of characters of a generated token.
pub const GENERATED_TOKEN_LENGTH: usize = 48;

/// A valid token: at least 32 characters, every one an ASCII letter or digit.
pub open spec fn is_valid_token(t: Seq<char>) -> bool {
    t.len() >= MIN_TOKEN_LENGTH && forall|i: int| 0 <= i < t.len() ==> is_ascii_alnum(#[trigger] t[i])
}

/// `rand::thread_rng().gen_range(0..bound)`: a random index below `bound`.
#[verifier::external_body]
fn random_below(bound: usize) -> (r: usize)
    requires
        bound > 0,
    ensures
        r < bound,
{
    rand::thread_rng().gen_range(0..bound)
}

/// `regex::Regex::new(pattern)` compiled and matched against `text` with
/// `is_match`.  For the one pattern admitted, `^[A-Za-z0-9]{32,}$`, the
/// whole text must be 32 or more ASCII letters and digits.
#[verifier::external_body]
fn regex_is_match(pattern: &str, text: &str) -> (r: bool)
    requires
        pattern@ == "^[A-Za-z0-9]{32,}$"@,
    ensures
        r == is_valid_token(text@),
{
    regex::Regex::new(pattern).unwrap().is_match(text)
}

/// The characters a generated token is drawn from.
pub open spec fn token_alphabet() -> Seq<char> {
    "ABCDEFGHIJKLMNOPQRSTUVWXYZabcdefghijklmnopqrstuvwxyz0123456789"@
}

/// Whether every index of `idx` falls in the alphabet.
pub open spec fn in_alphabet(idx: Seq<usize>) -> bool {
    forall|i: int| 0 <= i < idx.len() ==> #[trigger] idx[i] < 62
}

/// Whether `idx` is a valid list of draws for a generated token: 48
/// indices into the alphabet.
pub open spec fn token_draws(idx: Seq<usize>) -> bool {
    idx.len() == GENERATED_TOKEN_LENGTH && in_alphabet(idx)
}

/// The token spelled by the draws `idx`: character `i` is the alphabet
/// character at index `idx[i]`.
pub open spec fn token_of(idx: Seq<usize>) -> Seq<char> {
    idx.map_values(|k: usize| token_alphabet()[k as int])
}

/// The token whose characters are the alphabet characters at the indices
/// drawn in `idx`.
pub fn token_from_indices(idx: &Vec<usize>) -> (t: String)
    requires
        in_alphabet(idx@),
    ensures
        t@ == token_of(idx@),
{
    let chars: Vec<char> = crate::text::chars_of("ABCDEFGHIJKLMNOPQRSTUVWXYZabcdefghijklmnopqrstuvwxyz0123456789");
    proof {
        reveal_strlit("ABCDEFGHIJKLMNOPQRSTUVWXYZabcdefghijklmnopqrstuvwxyz0123456789");
    }
    assert(chars@ == token_alphabet());
    assert(chars@.len() == 62);
    let mut out: Vec<char> = Vec::new();
    let mut n: usize = 0;
    while n < idx.len()
        invariant
            n <= idx@.len(),
            in_alphabet(idx@),
            chars@ == token_alphabet(),
            chars@.len() == 62,
            out@ == token_of(idx@.subrange(0, n as int)),
        decreases idx.len() - n,
    {
        let k = idx[n];
        assert(k < 62);
        out.push(chars[k]);
        assert(out@ =~= token_of(idx@.subrange(0, n + 1)));
        n = n + 1;
    }
    assert(idx@.subrange(0, idx@.len() as int) =~= idx@);
    string_from_chars(out.as_slice())
}

/// Every alphabet character is an ASCII letter or digit.
proof fn lemma_token_of_alnum(idx: Seq<usize>)
    requires
        token_draws(idx),
    ensures
        token_of(idx).len() == GENERATED_TOKEN_LENGTH,
        forall|i: int| 0 <= i < token_of(idx).len() ==> is_ascii_alnum(#[trigger] token_of(idx)[i]),
{
    reveal_strlit("ABCDEFGHIJKLMNOPQRSTUVWXYZabcdefghijklmnopqrstuvwxyz0123456789");
    assert(token_alphabet().len() == 62);
    assert forall|j: int| 0 <= j < 62 implies is_ascii_alnum(#[trigger] token_alphabet()[j]) by {
        reveal_strlit("ABCDEFGHIJKLMNOPQRSTUVWXYZabcdefghijklmnopqrstuvwxyz0123456789");
    }
    assert forall|i: int| 0 <= i < token_of(idx).len() implies is_ascii_alnum(#[trigger] token_of(idx)[i]) by {
        assert(idx[i] < 62);
        assert(token_of(idx)[i] == token_alphabet()[idx[i] as int]);
    }
}

/// A fresh random token: 48 draws from the alphabet, each character the
/// alphabet character at its draw.
pub fn generate_token() -> (t: String)
    ensures
        exists|idx: Seq<usize>| token_draws(idx) && t@ == token_of(idx),
        t@.len() == GENERATED_TOKEN_LENGTH,
        forall|i: int| 0 <= i < t@.len() ==> is_ascii_alnum(#[trigger] t@[i]),
{
    let mut idx: Vec<usize> = Vec::new();
    let mut n: usize = 0;
    while n < GENERATED_TOKEN_LENGTH
        invariant
            n <= GENERATED_TOKEN_LENGTH,
            idx@.len() == n,
            forall|i: int| 0 <= i < idx@.len() ==> #[trigger] idx@[i] < 62,
        decreases GENERATED_TOKEN_LENGTH - n,
    {
        let k = random_below(62);
        idx.push(k);
        n = n + 1;
    }
    let t = token_from_indices(&idx);
    proof {
        lemma_token_of_alnum(idx@);
    }
    t
}

/// The text of the error for a token that is not valid.
pub open spec fn token_invalid_text() -> Seq<char> {
    "token must contain only letters and digits, and be at least 32 characters long"@
}

/// Accepts a token made of at least 32 ASCII letters and digits, and
/// refuses any other with `TokenInvalid`.
pub fn validate_token(token: &str) -> (r: Result<(), OctError>)
    ensures
        r is Ok <==> is_valid_token(token@),
        r matches Err(e) ==> e@ == err_msg(ErrorKind::TokenInvalid, token_invalid_text()),
{
    if !regex_is_match("^[A-Za-z0-9]{32,}$", token) {
        return Err(OctError::TokenInvalid(String::from_str(
            "token must contain only letters and digits, and be at least 32 characters long",
        )));
    }
    Ok(())
}

/// Every generated token passes validation.
pub proof fn lemma_generated_token_is_valid(t: Seq<char>)
    requires
        t.len() == GENERATED_TOKEN_LENGTH,
        forall|i: int| 0 <= i < t.len() ==> is_ascii_alnum(#[trigger] t[i]),
    ensures
        is_valid_token(t),
{
}

/// The lowercase hexadecimal SHA-256 digest of the token's UTF-8 bytes.
pub fn token_hash(token: &str) -> (r: String)
    ensures
        r@ == hex_lower(sha256(token.spec_bytes())),
        r@.len() == 64,
{
    compute_sha256(token.as_bytes())
}

/// The token `oct init` stores: the one provided, if it is valid, or else a
/// freshly generated one.
pub fn init_token(provided: Option<String>) -> (r: Result<String, OctError>)
    ensures
        provided matches Some(t) ==> (r is Ok <==> is_valid_token(t@)),
        provided matches Some(t) ==> (r matches Ok(u) ==> u@ == t@),
        provided matches Some(t) ==> (r matches Err(e) ==> e@ == err_msg(ErrorKind::TokenInvalid, token_invalid_text())),
        provided is None ==> (r matches Ok(u) && is_valid_token(u@) && u@.len() == GENERATED_TOKEN_LENGTH),
{
    match provided {
        Some(t) => {
            validate_token(t.as_str())?;
            Ok(t)
        },
        None => {
            let t = generate_token();
            proof {
                lemma_generated_token_is_valid(t@);
            }
            validate_token(t.as_str())?;
            Ok(t)
        },
    }
}

/// The token as shown by `oct doctor`: its first four bytes, `****`, and
/// its last four bytes.  Both cuts must fall between characters.
pub fn mask_token(token: &str) -> (r: String)
    requires
        token.spec_bytes().len() >= 4,
        is_char_boundary(token.spec_bytes(), 4),
        is_char_boundary(token.spec_bytes(), token.spec_bytes().len() - 4),
    ensures
        r@ == decode_utf8(token.spec_bytes().subrange(0, 4)) + "****"@ + decode_utf8(
            token.spec_bytes().subrange(token.spec_bytes().len() - 4, token.spec_bytes().len() as int),
        ),
{
    let n = token.as_bytes().len();
    let (head, _) = token.split_at(4);
    let (_, tail) = token.split_at(n - 4);
    proof {
        encode_utf8_decode_utf8(head@);
        encode_utf8_decode_utf8(tail@);
    }
    let mut v = chars_of(head);
    push_str(&mut v, "****");
    let t = chars_of(tail);
    push_chars(&mut v, &t);
    string_from_chars(v.as_slice())
}

} // verus!
