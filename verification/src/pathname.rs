//! A model of file-system paths held as strings.
//!
//! A path is split into components the way the platform's path library
//! does it.  On Windows (main separator `\`) a path may open with a
//! prefix: a drive `X:` (its letter compared without regard to case), a
//! server share `\\server\share`, a device `\\.\name`, or a verbatim
//! prefix `\\?\name`, `\\?\UNC\server\share` or `\\?\X:`.  A separator after
//! the prefix (or at the start) is the root; server and device prefixes
//! carry a root of their own.  Empty pieces and `.` pieces are dropped
//! (except a `.` that opens a relative path, and every `.` of a verbatim
//! path), `..` is the parent marker and everything else is a named
//! component.  The characters `/` and the platform separator `sep` both
//! separate pieces; after a verbatim prefix only `\` does.
use vstd::prelude::*;

use crate::text::{ascii_upper, char_ascii_upper};

verus! {

/// Whether `c` separates path components on a platform whose main separator is `sep`.
pub open spec fn is_sep(c: char, sep: char) -> bool {
    c == '/' || c == sep
}

/// Whether `c` ends a piece: after a verbatim prefix (`v`) only `\` does.
pub open spec fn breaks(c: char, sep: char, v: bool) -> bool {
    if v {
        c == '\\'
    } else {
        is_sep(c, sep)
    }
}

/// Index just past the piece that starts at `i`.
pub open spec fn piece_end(p: Seq<char>, sep: char, i: int, v: bool) -> int
    decreases p.len() - i,
{
    if i < 0 || i >= p.len() || breaks(p[i], sep, v) {
        i
    } else {
        piece_end(p, sep, i + 1, v)
    }
}

pub proof fn lemma_piece_end(p: Seq<char>, sep: char, i: int, v: bool)
    requires
        0 <= i <= p.len(),
    ensures
        i <= piece_end(p, sep, i, v) <= p.len(),
        piece_end(p, sep, i, v) < p.len() ==> breaks(p[piece_end(p, sep, i, v)], sep, v),
        forall|k: int| i <= k < piece_end(p, sep, i, v) ==> !breaks(#[trigger] p[k], sep, v),
    decreases p.len() - i,
{
    if i < p.len() && !breaks(p[i], sep, v) {
        lemma_piece_end(p, sep, i + 1, v);
    }
}

fn breaks_exec(c: char, sep: char, v: bool) -> (r: bool)
    ensures
        r == breaks(c, sep, v),
{
    if v {
        c == '\\'
    } else {
        c == '/' || c == sep
    }
}

/// Index just past the piece that starts at `i`.
pub fn piece_end_exec(p: &Vec<char>, sep: char, i: usize, v: bool) -> (r: usize)
    requires
        i <= p.len(),
    ensures
        r == piece_end(p@, sep, i as int, v),
        i <= r <= p.len(),
{
    let mut e = i;
    while e < p.len() && !breaks_exec(p[e], sep, v)
        invariant
            i <= e <= p.len(),
            piece_end(p@, sep, i as int, v) == piece_end(p@, sep, e as int, v),
        decreases p.len() - e,
    {
        e = e + 1;
    }
    e
}

/// Spans `(start, end)` of the components found from the piece that starts at `i`.
/// `first` tells whether that piece opens a relative path; `v` whether the
/// path is verbatim, where only `\` separates and `.` pieces are kept.
pub open spec fn comps_from(p: Seq<char>, sep: char, i: int, first: bool, v: bool) -> Seq<(int, int)>
    decreases p.len() - i + 1,
{
    if i < 0 || i > p.len() {
        seq![]
    } else {
        let e = piece_end(p, sep, i, v);
        proof {
            lemma_piece_end(p, sep, i, v);
        }
        let t = p.subrange(i, e);
        let rest = if e < p.len() {
            comps_from(p, sep, e + 1, false, v)
        } else {
            seq![]
        };
        if t.len() == 0 || (t == seq!['.'] && !first && !v) {
            rest
        } else {
            seq![(i, e)] + rest
        }
    }
}

/// An ASCII letter.
pub open spec fn is_ascii_letter(c: char) -> bool {
    ('a' <= c && c <= 'z') || ('A' <= c && c <= 'Z')
}

/// Whether `p` opens with a drive `X:`: only on Windows, whose main
/// separator is `\`.
pub open spec fn has_drive(p: Seq<char>, sep: char) -> bool {
    sep == '\\' && p.len() >= 2 && is_ascii_letter(p[0]) && p[1] == ':'
}

/// The kinds of path prefix, in the order the platform sorts them.
#[derive(PartialEq, Eq, Structural, Clone, Copy, Debug)]
pub enum PrefixKind {
    Verbatim,
    VerbatimUnc,
    VerbatimDisk,
    DeviceNs,
    Unc,
    Disk,
    NoPrefix,
}

/// Character `i` of `p` as the prefix parser reads it: among the first
/// eight, `/` reads as `\`.
pub open spec fn prefix_char(p: Seq<char>, i: int) -> char {
    if i < 8 && p[i] == '/' {
        '\\'
    } else {
        p[i]
    }
}

/// Whether `p` opens with two separators (on Windows).
pub open spec fn opens_with_two_seps(p: Seq<char>, sep: char) -> bool {
    sep == '\\' && p.len() >= 2 && prefix_char(p, 0) == '\\' && prefix_char(p, 1) == '\\'
}

/// Whether `p` opens with `\\?\` written with backslashes (on Windows).
pub open spec fn opens_verbatim(p: Seq<char>, sep: char) -> bool {
    sep == '\\' && p.len() >= 4 && p[0] == '\\' && p[1] == '\\' && p[2] == '?' && p[3] == '\\'
}

/// Where the server name of `\\server\share` ends.
pub open spec fn server_end(p: Seq<char>, sep: char) -> int {
    piece_end(p, sep, 2, false)
}

/// The kind of prefix `p` opens with.
pub open spec fn prefix_kind(p: Seq<char>, sep: char) -> PrefixKind {
    if opens_verbatim(p, sep) {
        if p.len() >= 8 && p[4] == 'U' && p[5] == 'N' && p[6] == 'C' && prefix_char(p, 7) == '\\' {
            PrefixKind::VerbatimUnc
        } else if p.len() >= 6 && is_ascii_letter(p[4]) && p[5] == ':' && (p.len() == 6 || p[6] == '\\') {
            PrefixKind::VerbatimDisk
        } else {
            PrefixKind::Verbatim
        }
    } else if opens_with_two_seps(p, sep) {
        if p.len() >= 4 && prefix_char(p, 2) == '.' && prefix_char(p, 3) == '\\' {
            PrefixKind::DeviceNs
        } else if 2 < server_end(p, sep) < p.len() && piece_end(p, sep, server_end(p, sep) + 1, false) > server_end(p, sep) + 1 {
            PrefixKind::Unc
        } else {
            PrefixKind::NoPrefix
        }
    } else if has_drive(p, sep) {
        PrefixKind::Disk
    } else {
        PrefixKind::NoPrefix
    }
}

/// Whether a prefix kind is verbatim.
pub open spec fn is_verbatim_kind(k: PrefixKind) -> bool {
    k == PrefixKind::Verbatim || k == PrefixKind::VerbatimUnc || k == PrefixKind::VerbatimDisk
}

/// The length of the prefix of `p` (0 when it has none).
pub open spec fn prefix_len(p: Seq<char>, sep: char) -> int {
    match prefix_kind(p, sep) {
        PrefixKind::Verbatim => piece_end(p, sep, 4, true),
        PrefixKind::VerbatimUnc => {
            let e = piece_end(p, sep, 8, true);
            if e < p.len() && piece_end(p, sep, e + 1, true) > e + 1 {
                piece_end(p, sep, e + 1, true)
            } else {
                e
            }
        },
        PrefixKind::VerbatimDisk => 6,
        PrefixKind::DeviceNs => piece_end(p, sep, 4, false),
        PrefixKind::Unc => piece_end(p, sep, server_end(p, sep) + 1, false),
        PrefixKind::Disk => 2,
        PrefixKind::NoPrefix => 0,
    }
}

/// Whether a separator follows the prefix of `p`.
pub open spec fn has_physical_root(p: Seq<char>, sep: char) -> bool {
    prefix_len(p, sep) < p.len() && is_sep(p[prefix_len(p, sep)], sep)
}

/// Whether `p` has a root component: a separator after its prefix, or a
/// server or device prefix, which carries a root of its own.
pub open spec fn has_root_component(p: Seq<char>, sep: char) -> bool {
    has_physical_root(p, sep) || prefix_kind(p, sep) == PrefixKind::DeviceNs || prefix_kind(p, sep) == PrefixKind::Unc
}

/// Whether `p` has a root: a root component, or a verbatim prefix.
pub open spec fn has_root(p: Seq<char>, sep: char) -> bool {
    has_root_component(p, sep) || is_verbatim_kind(prefix_kind(p, sep))
}

/// Where the pieces after the prefix and the root begin.
pub open spec fn body_start(p: Seq<char>, sep: char) -> int {
    prefix_len(p, sep) + if has_physical_root(p, sep) {
        1int
    } else {
        0int
    }
}

/// The spans of the prefix and of the root, those that `p` has.  A root
/// that a prefix carries is the empty span after it.
pub open spec fn head_spans(p: Seq<char>, sep: char) -> Seq<(int, int)> {
    (if prefix_kind(p, sep) != PrefixKind::NoPrefix {
        seq![(0int, prefix_len(p, sep))]
    } else {
        seq![]
    }) + (if has_root_component(p, sep) {
        seq![(prefix_len(p, sep), body_start(p, sep))]
    } else {
        seq![]
    })
}

/// Spans of the components of `p`, in order: the prefix, the root and
/// then the pieces.
pub open spec fn components(p: Seq<char>, sep: char) -> Seq<(int, int)> {
    head_spans(p, sep) + comps_from(p, sep, body_start(p, sep), !has_root(p, sep), is_verbatim_kind(prefix_kind(p, sep)))
}

/// The text of a component.
pub open spec fn span_text(p: Seq<char>, c: (int, int)) -> Seq<char> {
    p.subrange(c.0, c.1)
}

/// Whether the component with span `c` is the prefix of `p`.
pub open spec fn is_prefix_span(p: Seq<char>, sep: char, c: (int, int)) -> bool {
    prefix_kind(p, sep) != PrefixKind::NoPrefix && c.0 == 0
}

/// Whether the component with span `c` is the root of `p`.
pub open spec fn is_root_span(p: Seq<char>, sep: char, c: (int, int)) -> bool {
    has_root_component(p, sep) && c.0 == prefix_len(p, sep)
}

/// Whether a component is a name (not the prefix, the root, `.` or `..`).
pub open spec fn is_named(p: Seq<char>, sep: char, c: (int, int)) -> bool {
    let t = span_text(p, c);
    !is_prefix_span(p, sep, c) && !is_root_span(p, sep, c) && t != seq!['.'] && t != seq!['.', '.']
}

/// Code units of text, each one above zero.
pub open spec fn units_above_zero(t: Seq<char>) -> Seq<u32> {
    t.map_values(|ch: char| (ch as u32 + 1) as u32)
}

/// Key of a prefix of the given kind, from its text `t`: the kind, then
/// its parts in order (a drive letter in upper case).
pub open spec fn prefix_key(k: PrefixKind, t: Seq<char>, sep: char) -> Seq<u32> {
    match k {
        PrefixKind::Verbatim => seq![0u32, 0u32] + units_above_zero(t.subrange(4, t.len() as int)),
        PrefixKind::VerbatimUnc => {
            let e = piece_end(t, sep, 8, true);
            seq![0u32, 1u32] + units_above_zero(t.subrange(8, e)) + seq![0u32] + units_above_zero(
                if e < t.len() { t.subrange(e + 1, t.len() as int) } else { seq![] },
            )
        },
        PrefixKind::VerbatimDisk => seq![0u32, 2u32, ascii_upper(t[4]) as u32],
        PrefixKind::DeviceNs => seq![0u32, 3u32] + units_above_zero(t.subrange(4, t.len() as int)),
        PrefixKind::Unc => {
            let e = piece_end(t, sep, 2, false);
            seq![0u32, 4u32] + units_above_zero(t.subrange(2, e)) + seq![0u32] + units_above_zero(
                if e < t.len() { t.subrange(e + 1, t.len() as int) } else { seq![] },
            )
        },
        PrefixKind::Disk => seq![0u32, 5u32, ascii_upper(t[0]) as u32],
        PrefixKind::NoPrefix => seq![0u32, 6u32],
    }
}

/// Key of a component: a prefix sorts first, by its kind and parts, then
/// the root, then `.`, then `..`, then names in the order of their
/// characters.
pub open spec fn comp_key(p: Seq<char>, sep: char, c: (int, int)) -> Seq<u32> {
    let t = span_text(p, c);
    if is_prefix_span(p, sep, c) {
        prefix_key(prefix_kind(p, sep), p.subrange(0, prefix_len(p, sep)), sep)
    } else if is_root_span(p, sep, c) {
        seq![1u32]
    } else if t == seq!['.'] {
        seq![2u32]
    } else if t == seq!['.', '.'] {
        seq![3u32]
    } else {
        seq![4u32] + t.map_values(|ch: char| ch as u32)
    }
}

/// The sequence of component keys of a path: two paths are the same path
/// exactly when their keys are equal.
#[verifier::opaque]
pub open spec fn path_key(p: Seq<char>, sep: char) -> Seq<Seq<u32>> {
    components(p, sep).map_values(|c: (int, int)| comp_key(p, sep, c))
}

/// A component as `Path::join` rebuilds a verbatim path from: its kind
/// (0 prefix, 1 root, 2 `.`, 3 `..`, 4 name) and its text (the root reads
/// as the separator).
pub open spec fn comp_desc(p: Seq<char>, sep: char, c: (int, int)) -> (u8, Seq<char>) {
    let t = span_text(p, c);
    if is_prefix_span(p, sep, c) {
        (0u8, t)
    } else if is_root_span(p, sep, c) {
        (1u8, seq![sep])
    } else if t == seq!['.'] {
        (2u8, t)
    } else if t == seq!['.', '.'] {
        (3u8, t)
    } else {
        (4u8, t)
    }
}

pub open spec fn comp_descs(p: Seq<char>, sep: char) -> Seq<(u8, Seq<char>)> {
    components(p, sep).map_values(|c: (int, int)| comp_desc(p, sep, c))
}

/// One step of joining onto a verbatim path: a root keeps only the prefix,
/// `.` is dropped, `..` drops a name before it, anything else is added.
pub open spec fn verbatim_step(buf: Seq<(u8, Seq<char>)>, c: (u8, Seq<char>)) -> Seq<(u8, Seq<char>)> {
    if c.0 == 1 {
        (if buf.len() >= 1 { buf.subrange(0, 1) } else { buf }).push(c)
    } else if c.0 == 2 {
        buf
    } else if c.0 == 3 {
        if buf.len() > 0 && buf.last().0 == 4 { buf.drop_last() } else { buf }
    } else {
        buf.push(c)
    }
}

pub open spec fn verbatim_fold(buf: Seq<(u8, Seq<char>)>, cs: Seq<(u8, Seq<char>)>) -> Seq<(u8, Seq<char>)>
    decreases cs.len(),
{
    if cs.len() == 0 {
        buf
    } else {
        verbatim_step(verbatim_fold(buf, cs.drop_last()), cs.last())
    }
}

/// The text of rebuilt components: a separator before each one but a root
/// and but the one after a root.
pub open spec fn render(cs: Seq<(u8, Seq<char>)>, sep: char) -> Seq<char>
    decreases cs.len(),
{
    if cs.len() == 0 {
        seq![]
    } else {
        let before = cs.drop_last();
        let gap = before.len() > 0 && before.last().0 != 1 && cs.last().0 != 1;
        render(before, sep) + (if gap { seq![sep] } else { seq![] }) + cs.last().1
    }
}

/// Joins `name` onto `base` as `Path::join` does: a `name` with a prefix
/// replaces `base`; onto a verbatim `base` the components are rebuilt; a
/// `name` with a root keeps only the prefix of `base`; otherwise a
/// separator is put between them unless `base` is empty, already ends
/// with one, or is a bare drive `X:`.
pub open spec fn join(base: Seq<char>, name: Seq<char>, sep: char) -> Seq<char> {
    if prefix_kind(name, sep) != PrefixKind::NoPrefix {
        name
    } else if is_verbatim_kind(prefix_kind(base, sep)) && name.len() > 0 {
        render(verbatim_fold(comp_descs(base, sep), comp_descs(name, sep)), sep)
    } else if name.len() > 0 && is_sep(name[0], sep) {
        base.subrange(0, prefix_len(base, sep)) + name
    } else if base.len() == 0 || is_sep(base.last(), sep) || (prefix_kind(base, sep) == PrefixKind::Disk && base.len() == 2) {
        base + name
    } else {
        base.push(sep) + name
    }
}

/// Whether `p` opens with a drive.
pub fn has_drive_exec(p: &Vec<char>, sep: char) -> (r: bool)
    ensures
        r == has_drive(p@, sep),
{
    sep == '\\' && p.len() >= 2 && (('a' <= p[0] && p[0] <= 'z') || ('A' <= p[0] && p[0] <= 'Z')) && p[1] == ':'
}

fn is_sep_char(c: char) -> (r: bool)
    ensures
        r == (c == '\\' || c == '/'),
{
    c == '\\' || c == '/'
}

/// The kind and length of the prefix of `p`.
pub fn prefix_of(p: &Vec<char>, sep: char) -> (r: (PrefixKind, usize))
    ensures
        r.0 == prefix_kind(p@, sep),
        r.1 == prefix_len(p@, sep),
        r.1 <= p.len(),
{
    let n = p.len();
    if sep == '\\' && n >= 4 && p[0] == '\\' && p[1] == '\\' && p[2] == '?' && p[3] == '\\' {
        if n >= 8 && p[4] == 'U' && p[5] == 'N' && p[6] == 'C' && is_sep_char(p[7]) {
            let e = piece_end_exec(p, sep, 8, true);
            if e < n {
                let e2 = piece_end_exec(p, sep, e + 1, true);
                if e2 > e + 1 {
                    return (PrefixKind::VerbatimUnc, e2);
                }
            }
            (PrefixKind::VerbatimUnc, e)
        } else if n >= 6 && (('a' <= p[4] && p[4] <= 'z') || ('A' <= p[4] && p[4] <= 'Z')) && p[5] == ':' && (n == 6 || p[6] == '\\') {
            (PrefixKind::VerbatimDisk, 6)
        } else {
            (PrefixKind::Verbatim, piece_end_exec(p, sep, 4, true))
        }
    } else if sep == '\\' && n >= 2 && is_sep_char(p[0]) && is_sep_char(p[1]) {
        if n >= 4 && p[2] == '.' && is_sep_char(p[3]) {
            (PrefixKind::DeviceNs, piece_end_exec(p, sep, 4, false))
        } else {
            let e = piece_end_exec(p, sep, 2, false);
            if 2 < e && e < n {
                let e2 = piece_end_exec(p, sep, e + 1, false);
                if e2 > e + 1 {
                    return (PrefixKind::Unc, e2);
                }
            }
            (PrefixKind::NoPrefix, 0)
        }
    } else if has_drive_exec(p, sep) {
        (PrefixKind::Disk, 2)
    } else {
        (PrefixKind::NoPrefix, 0)
    }
}

fn append_chars(r: &mut Vec<char>, name: &Vec<char>)
    ensures
        final(r)@ == old(r)@ + name@,
{
    let mut i: usize = 0;
    let ghost r0 = r@;
    while i < name.len()
        invariant
            i <= name.len(),
            r@ == r0 + name@.subrange(0, i as int),
        decreases name.len() - i,
    {
        r.push(name[i]);
        i = i + 1;
    }
    assert(name@.subrange(0, name.len() as int) == name@);
}

pub fn join_chars(base: &Vec<char>, name: &Vec<char>, sep: char) -> (r: Vec<char>)
    ensures
        r@ == join(base@, name@, sep),
{
    let (nk, _) = prefix_of(name, sep);
    if nk != PrefixKind::NoPrefix {
        return name.clone();
    }
    let (bk, bl) = prefix_of(base, sep);
    if (bk == PrefixKind::Verbatim || bk == PrefixKind::VerbatimUnc || bk == PrefixKind::VerbatimDisk) && name.len() > 0 {
        let bd = component_descs(base, sep);
        let nd = component_descs(name, sep);
        let folded = verbatim_fold_exec(bd, &nd);
        return render_exec(&folded, sep);
    }
    if name.len() > 0 && (name[0] == '/' || name[0] == sep) {
        let mut r = sub_chars(base, 0, bl);
        append_chars(&mut r, name);
        return r;
    }
    let mut r = base.clone();
    if !(base.len() == 0 || base[base.len() - 1] == '/' || base[base.len() - 1] == sep || (bk == PrefixKind::Disk && base.len() == 2)) {
        r.push(sep);
    }
    append_chars(&mut r, name);
    r
}

pub open spec fn descs_view(v: Seq<(u8, Vec<char>)>) -> Seq<(u8, Seq<char>)> {
    v.map_values(|d: (u8, Vec<char>)| (d.0, d.1@))
}

/// The components of `p` as kinds and texts (see [`comp_desc`]).
pub fn component_descs(p: &Vec<char>, sep: char) -> (r: Vec<(u8, Vec<char>)>)
    ensures
        descs_view(r@) == comp_descs(p@, sep),
{
    let spans = component_spans(p, sep);
    let ghost cs = components(p@, sep);
    proof {
        lemma_components_well_formed(p@, sep);
    }
    assert(spans@.len() == cs.len());
    let mut r: Vec<(u8, Vec<char>)> = Vec::new();
    let mut i: usize = 0;
    while i < spans.len()
        invariant
            i <= spans@.len(),
            cs == components(p@, sep),
            spans@.map_values(|c: (usize, usize)| (c.0 as int, c.1 as int)) == cs,
            spans_well_formed(p@, sep, cs, 0),
            r@.len() == i,
            forall|k: int| 0 <= k < i ==> ((#[trigger] r@[k]).0, r@[k].1@) == comp_desc(p@, sep, cs[k]),
        decreases spans.len() - i,
    {
        let (s, e) = spans[i];
        assert(cs[i as int] == (s as int, e as int));
        let d = component_desc(p, sep, s, e);
        r.push(d);
        i = i + 1;
    }
    assert(descs_view(r@) =~= comp_descs(p@, sep));
    r
}

/// The kind and text of the component with span `(s, e)`.
fn component_desc(p: &Vec<char>, sep: char, s: usize, e: usize) -> (r: (u8, Vec<char>))
    requires
        s <= e <= p.len(),
    ensures
        (r.0, r.1@) == comp_desc(p@, sep, (s as int, e as int)),
{
    let (k, pl) = prefix_of(p, sep);
    let t = sub_chars(p, s, e);
    if k != PrefixKind::NoPrefix && s == 0 {
        return (0u8, t);
    }
    let phys = pl < p.len() && (p[pl] == '/' || p[pl] == sep);
    if (phys || k == PrefixKind::DeviceNs || k == PrefixKind::Unc) && s == pl {
        return (1u8, vec![sep]);
    }
    if e - s == 1 && p[s] == '.' {
        assert(t@ =~= seq!['.']);
        return (2u8, t);
    }
    if e - s == 2 && p[s] == '.' && p[s + 1] == '.' {
        assert(t@ =~= seq!['.', '.']);
        return (3u8, t);
    }
    assert(t@ != seq!['.']) by {
        if t@ == seq!['.'] {
            assert(t@.len() == 1 && t@[0] == '.');
        }
    }
    assert(t@ != seq!['.', '.']) by {
        if t@ == seq!['.', '.'] {
            assert(t@.len() == 2 && t@[0] == '.' && t@[1] == '.');
        }
    }
    (4u8, t)
}

fn verbatim_fold_exec(base: Vec<(u8, Vec<char>)>, cs: &Vec<(u8, Vec<char>)>) -> (r: Vec<(u8, Vec<char>)>)
    ensures
        descs_view(r@) == verbatim_fold(descs_view(base@), descs_view(cs@)),
{
    let mut buf = base;
    let ghost b0 = descs_view(buf@);
    let mut i: usize = 0;
    assert(descs_view(cs@).subrange(0, 0) =~= Seq::<(u8, Seq<char>)>::empty());
    while i < cs.len()
        invariant
            i <= cs@.len(),
            descs_view(buf@) == verbatim_fold(b0, descs_view(cs@).subrange(0, i as int)),
        decreases cs.len() - i,
    {
        let ghost before = descs_view(buf@);
        let ghost c = descs_view(cs@)[i as int];
        assert(descs_view(cs@).subrange(0, i + 1).drop_last() =~= descs_view(cs@).subrange(0, i as int));
        assert(descs_view(cs@).subrange(0, i + 1).last() == c);
        let kind = cs[i].0;
        if kind == 1 {
            if buf.len() >= 1 {
                buf.truncate(1);
                assert(descs_view(buf@) =~= before.subrange(0, 1));
            }
            buf.push((1u8, cs[i].1.clone()));
            assert(descs_view(buf@) =~= verbatim_step(before, c));
        } else if kind == 2 {
        } else if kind == 3 {
            if buf.len() > 0 && buf[buf.len() - 1].0 == 4 {
                buf.pop();
                assert(descs_view(buf@) =~= before.drop_last());
            }
        } else {
            buf.push((kind, cs[i].1.clone()));
            assert(descs_view(buf@) =~= before.push(c));
        }
        i = i + 1;
    }
    assert(descs_view(cs@).subrange(0, cs@.len() as int) =~= descs_view(cs@));
    buf
}

fn render_exec(cs: &Vec<(u8, Vec<char>)>, sep: char) -> (r: Vec<char>)
    ensures
        r@ == render(descs_view(cs@), sep),
{
    let mut r: Vec<char> = Vec::new();
    let mut i: usize = 0;
    assert(descs_view(cs@).subrange(0, 0) =~= Seq::<(u8, Seq<char>)>::empty());
    while i < cs.len()
        invariant
            i <= cs@.len(),
            r@ == render(descs_view(cs@).subrange(0, i as int), sep),
        decreases cs.len() - i,
    {
        let ghost sub = descs_view(cs@).subrange(0, i + 1);
        assert(sub.drop_last() =~= descs_view(cs@).subrange(0, i as int));
        if i > 0 && cs[i - 1].0 != 1 && cs[i].0 != 1 {
            r.push(sep);
        }
        append_chars(&mut r, &cs[i].1);
        assert(r@ =~= render(sub, sep));
        i = i + 1;
    }
    assert(descs_view(cs@).subrange(0, cs@.len() as int) =~= descs_view(cs@));
    r
}

pub open spec fn spans_well_formed(p: Seq<char>, sep: char, cs: Seq<(int, int)>, lo: int) -> bool {
    &&& forall|k: int| 0 <= k < cs.len() ==> lo <= (#[trigger] cs[k]).0 <= cs[k].1 <= p.len()
    &&& forall|k: int| 0 <= k < cs.len() - 1 ==> (#[trigger] cs[k]).1 <= cs[k + 1].0
}

pub proof fn lemma_comps_from_well_formed(p: Seq<char>, sep: char, i: int, first: bool, v: bool)
    requires
        0 <= i <= p.len(),
    ensures
        spans_well_formed(p, sep, comps_from(p, sep, i, first, v), i),
    decreases p.len() - i + 1,
{
    lemma_piece_end(p, sep, i, v);
    let e = piece_end(p, sep, i, v);
    if e < p.len() {
        lemma_comps_from_well_formed(p, sep, e + 1, false, v);
    }
}

proof fn lemma_wf_prepend(p: Seq<char>, sep: char, c: (int, int), cs: Seq<(int, int)>, lo: int, mid: int)
    requires
        lo <= c.0 <= c.1 <= mid,
        c.1 <= p.len(),
        spans_well_formed(p, sep, cs, mid),
    ensures
        spans_well_formed(p, sep, seq![c] + cs, lo),
{
    let ds = seq![c] + cs;
    assert forall|k: int| 0 <= k < ds.len() implies lo <= (#[trigger] ds[k]).0 <= ds[k].1 <= p.len() by {
        if k > 0 {
            assert(ds[k] == cs[k - 1]);
        }
    }
    assert forall|k: int| 0 <= k < ds.len() - 1 implies (#[trigger] ds[k]).1 <= ds[k + 1].0 by {
        assert(ds[k + 1] == cs[k]);
        if k > 0 {
            assert(ds[k] == cs[k - 1]);
        }
    }
}

proof fn lemma_prefix_len_bounds(p: Seq<char>, sep: char)
    ensures
        0 <= prefix_len(p, sep) <= p.len(),
        (prefix_kind(p, sep) == PrefixKind::Verbatim || prefix_kind(p, sep) == PrefixKind::DeviceNs) ==> prefix_len(p, sep) >= 4,
        prefix_kind(p, sep) == PrefixKind::VerbatimUnc ==> prefix_len(p, sep) >= 8,
        prefix_kind(p, sep) == PrefixKind::VerbatimDisk ==> prefix_len(p, sep) == 6,
        prefix_kind(p, sep) == PrefixKind::Unc ==> prefix_len(p, sep) >= 2,
        prefix_kind(p, sep) == PrefixKind::Disk ==> prefix_len(p, sep) == 2,
{
    if opens_verbatim(p, sep) {
        lemma_piece_end(p, sep, 4, true);
        if p.len() >= 8 {
            lemma_piece_end(p, sep, 8, true);
            let e = piece_end(p, sep, 8, true);
            if e < p.len() {
                lemma_piece_end(p, sep, e + 1, true);
            }
        }
    } else if opens_with_two_seps(p, sep) {
        lemma_piece_end(p, sep, 2, false);
        if p.len() >= 4 {
            lemma_piece_end(p, sep, 4, false);
        }
        let e = server_end(p, sep);
        if e < p.len() {
            lemma_piece_end(p, sep, e + 1, false);
        }
    }
}

/// Component spans lie inside the path and come in order.
pub proof fn lemma_components_well_formed(p: Seq<char>, sep: char)
    ensures
        spans_well_formed(p, sep, components(p, sep), 0),
{
    lemma_prefix_len_bounds(p, sep);
    let pl = prefix_len(p, sep);
    let bs = body_start(p, sep);
    let v = is_verbatim_kind(prefix_kind(p, sep));
    lemma_comps_from_well_formed(p, sep, bs, !has_root(p, sep), v);
    let cf = comps_from(p, sep, bs, !has_root(p, sep), v);
    let rooted = if has_root_component(p, sep) {
        seq![(pl, bs)] + cf
    } else {
        cf
    };
    if has_root_component(p, sep) {
        lemma_wf_prepend(p, sep, (pl, bs), cf, pl, bs);
    }
    assert(spans_well_formed(p, sep, rooted, pl));
    if prefix_kind(p, sep) != PrefixKind::NoPrefix {
        lemma_wf_prepend(p, sep, (0, pl), rooted, 0, pl);
        assert(components(p, sep) =~= seq![(0int, pl)] + rooted);
    } else {
        assert(components(p, sep) =~= rooted);
    }
}

/// Spans of the components of `p`.
pub fn component_spans(p: &Vec<char>, sep: char) -> (r: Vec<(usize, usize)>)
    ensures
        r@.map_values(|c: (usize, usize)| (c.0 as int, c.1 as int)) == components(p@, sep),
{
    let n = p.len();
    let mut r: Vec<(usize, usize)> = Vec::new();
    let (k, pl) = prefix_of(p, sep);
    if k != PrefixKind::NoPrefix {
        r.push((0, pl));
    }
    let phys = pl < n && (p[pl] == '/' || p[pl] == sep);
    let bs: usize = if phys {
        pl + 1
    } else {
        pl
    };
    if phys || k == PrefixKind::DeviceNs || k == PrefixKind::Unc {
        r.push((pl, bs));
    }
    let v = k == PrefixKind::Verbatim || k == PrefixKind::VerbatimUnc || k == PrefixKind::VerbatimDisk;
    let mut i: usize = bs;
    let mut first: bool = !(phys || k == PrefixKind::DeviceNs || k == PrefixKind::Unc || v);
    assert(r@.map_values(|c: (usize, usize)| (c.0 as int, c.1 as int)) =~= head_spans(p@, sep));
    assert(r@.map_values(|c: (usize, usize)| (c.0 as int, c.1 as int)) + comps_from(p@, sep, i as int, first, v)
        == components(p@, sep));
    loop
        invariant_except_break
            r@.map_values(|c: (usize, usize)| (c.0 as int, c.1 as int)) + comps_from(p@, sep, i as int, first, v)
                == components(p@, sep),
        invariant
            n == p@.len(),
            i <= n,
            forall|k: int| 0 <= k < r@.len() ==> (#[trigger] r@[k]).0 <= r@[k].1 <= n,
        ensures
            r@.map_values(|c: (usize, usize)| (c.0 as int, c.1 as int)) == components(p@, sep),
        decreases n - i,
    {
        let ghost acc = r@.map_values(|c: (usize, usize)| (c.0 as int, c.1 as int));
        proof {
            lemma_piece_end(p@, sep, i as int, v);
        }
        let e = piece_end_exec(p, sep, i, v);
        let ghost t = p@.subrange(i as int, e as int);
        let ghost rest = if e < n { comps_from(p@, sep, e + 1, false, v) } else { Seq::<(int, int)>::empty() };
        assert(comps_from(p@, sep, i as int, first, v) == if t.len() == 0 || (t == seq!['.'] && !first && !v) {
            rest
        } else {
            seq![(i as int, e as int)] + rest
        });
        let skip = e == i || (e == i + 1 && p[i] == '.' && !first && !v);
        assert(skip == (t.len() == 0 || (t == seq!['.'] && !first && !v))) by {
            assert(t.len() == e - i);
            if e == i + 1 && p[i as int] == '.' {
                assert(t =~= seq!['.']);
            }
            if t == seq!['.'] {
                assert(t.len() == 1);
                assert(t[0] == p@[i as int]);
                assert(t[0] == '.');
            }
        }
        if !skip {
            r.push((i, e));
            assert(r@.map_values(|c: (usize, usize)| (c.0 as int, c.1 as int))
                =~= acc + seq![(i as int, e as int)]);
            assert(acc + seq![(i as int, e as int)] + rest =~= acc + (seq![(i as int, e as int)] + rest));
        }
        if e < n {
            i = e + 1;
            first = false;
        } else {
            assert(r@.map_values(|c: (usize, usize)| (c.0 as int, c.1 as int))
                =~= r@.map_values(|c: (usize, usize)| (c.0 as int, c.1 as int)) + rest);
            break;
        }
    }
    r
}

/// Lexicographic order on sequences of code units.
#[verifier::opaque]
pub open spec fn units_lt(a: Seq<u32>, b: Seq<u32>) -> bool
    decreases a.len(),
{
    if a.len() == 0 {
        b.len() > 0
    } else if b.len() == 0 {
        false
    } else if a[0] != b[0] {
        a[0] < b[0]
    } else {
        units_lt(a.drop_first(), b.drop_first())
    }
}

/// Lexicographic order on sequences of component keys: the order of paths.
#[verifier::opaque]
pub open spec fn keys_lt(a: Seq<Seq<u32>>, b: Seq<Seq<u32>>) -> bool
    decreases a.len(),
{
    if a.len() == 0 {
        b.len() > 0
    } else if b.len() == 0 {
        false
    } else if a[0] != b[0] {
        units_lt(a[0], b[0])
    } else {
        keys_lt(a.drop_first(), b.drop_first())
    }
}

pub proof fn lemma_units_lt_total(a: Seq<u32>, b: Seq<u32>)
    ensures
        a == b || units_lt(a, b) || units_lt(b, a),
        !(units_lt(a, b) && units_lt(b, a)),
        !units_lt(a, a),
    decreases a.len(),
{
    reveal(units_lt);
    if a.len() > 0 && b.len() > 0 {
        lemma_units_lt_total(a.drop_first(), b.drop_first());
        if a[0] == b[0] && a.drop_first() == b.drop_first() {
            assert(a =~= seq![a[0]] + a.drop_first());
            assert(b =~= seq![b[0]] + b.drop_first());
        }
    }
    if a.len() > 0 {
        lemma_units_lt_total(a.drop_first(), a.drop_first());
    }
    if a.len() == 0 && b.len() == 0 {
        assert(a =~= b);
    }
}

pub proof fn lemma_units_lt_trans(a: Seq<u32>, b: Seq<u32>, c: Seq<u32>)
    requires
        units_lt(a, b),
        units_lt(b, c),
    ensures
        units_lt(a, c),
    decreases a.len(),
{
    reveal(units_lt);
    if a.len() > 0 && b.len() > 0 && c.len() > 0 && a[0] == b[0] && b[0] == c[0] {
        lemma_units_lt_trans(a.drop_first(), b.drop_first(), c.drop_first());
    }
}

pub proof fn lemma_keys_lt_total(a: Seq<Seq<u32>>, b: Seq<Seq<u32>>)
    ensures
        a == b || keys_lt(a, b) || keys_lt(b, a),
        !(keys_lt(a, b) && keys_lt(b, a)),
        !keys_lt(a, a),
    decreases a.len(),
{
    reveal(units_lt);
    reveal(keys_lt);
    if a.len() > 0 && b.len() > 0 {
        lemma_units_lt_total(a[0], b[0]);
        lemma_keys_lt_total(a.drop_first(), b.drop_first());
        if a[0] == b[0] && a.drop_first() == b.drop_first() {
            assert(a =~= seq![a[0]] + a.drop_first());
            assert(b =~= seq![b[0]] + b.drop_first());
        }
    }
    if a.len() > 0 {
        lemma_keys_lt_total(a.drop_first(), a.drop_first());
    }
    if a.len() == 0 && b.len() == 0 {
        assert(a =~= b);
    }
}

pub proof fn lemma_keys_lt_trans(a: Seq<Seq<u32>>, b: Seq<Seq<u32>>, c: Seq<Seq<u32>>)
    requires
        keys_lt(a, b),
        keys_lt(b, c),
    ensures
        keys_lt(a, c),
    decreases a.len(),
{
    reveal(units_lt);
    reveal(keys_lt);
    if a.len() > 0 && b.len() > 0 && c.len() > 0 {
        if a[0] == b[0] && b[0] == c[0] {
            lemma_keys_lt_trans(a.drop_first(), b.drop_first(), c.drop_first());
        } else if a[0] == b[0] {
        } else if b[0] == c[0] {
        } else {
            lemma_units_lt_trans(a[0], b[0], c[0]);
            lemma_units_lt_total(a[0], c[0]);
        }
    }
}

/// Texts compare as the sequences of their code points do, and different
/// texts have different code points.
pub proof fn lemma_text_order_is_code_point_order(a: Seq<char>, b: Seq<char>)
    ensures
        crate::text::text_lt(a, b) ==> units_lt(a.map_values(|c: char| c as u32), b.map_values(|c: char| c as u32)),
        a != b ==> a.map_values(|c: char| c as u32) != b.map_values(|c: char| c as u32),
    decreases a.len(),
{
    reveal(units_lt);
    let ca = a.map_values(|c: char| c as u32);
    let cb = b.map_values(|c: char| c as u32);
    if a.len() > 0 && b.len() > 0 {
        lemma_text_order_is_code_point_order(a.drop_first(), b.drop_first());
        assert(ca.drop_first() =~= a.drop_first().map_values(|c: char| c as u32));
        assert(cb.drop_first() =~= b.drop_first().map_values(|c: char| c as u32));
        vstd::utf8::char_u32_cast(a[0], a[0] as u32);
        vstd::utf8::char_u32_cast(b[0], b[0] as u32);
        assert(ca[0] == a[0] as u32 && cb[0] == b[0] as u32);
        assert(a[0] != b[0] ==> ca[0] != cb[0]);
        assert(a[0] < b[0] ==> ca[0] < cb[0]);
        if a[0] == b[0] && a.drop_first() == b.drop_first() {
            assert(a =~= seq![a[0]] + a.drop_first());
            assert(b =~= seq![b[0]] + b.drop_first());
        }
        if a != b && ca == cb {
            if a[0] != b[0] {
                assert(ca[0] == cb[0]);
            } else {
                assert(a.drop_first() != b.drop_first()) by {
                    if a.drop_first() == b.drop_first() {
                        assert(a =~= seq![a[0]] + a.drop_first());
                        assert(b =~= seq![b[0]] + b.drop_first());
                    }
                }
            }
        }
    } else if a.len() != b.len() {
        assert(ca.len() != cb.len());
    } else if a.len() == 0 {
        assert(a =~= b);
    }
}

pub fn units_lt_exec(a: &Vec<u32>, b: &Vec<u32>) -> (r: bool)
    ensures
        r == units_lt(a@, b@),
{
    proof {
        reveal(units_lt);
        reveal(keys_lt);
    }
    let mut i: usize = 0;
    assert(a@.skip(0) =~= a@ && b@.skip(0) =~= b@);
    while i < a.len() && i < b.len() && a[i] == b[i]
        invariant
            i <= a.len(),
            i <= b.len(),
            units_lt(a@, b@) == units_lt(a@.skip(i as int), b@.skip(i as int)),
        decreases a.len() - i,
    {
        proof {
            reveal(units_lt);
        }
        assert(a@.skip(i as int).drop_first() =~= a@.skip(i + 1));
        assert(b@.skip(i as int).drop_first() =~= b@.skip(i + 1));
        i = i + 1;
    }
    if i == a.len() {
        i < b.len()
    } else if i == b.len() {
        false
    } else {
        a[i] < b[i]
    }
}

pub fn units_eq_exec(a: &Vec<u32>, b: &Vec<u32>) -> (r: bool)
    ensures
        r == (a@ == b@),
{
    if a.len() != b.len() {
        return false;
    }
    let mut i: usize = 0;
    while i < a.len()
        invariant
            i <= a.len(),
            a.len() == b.len(),
            forall|k: int| 0 <= k < i ==> a@[k] == b@[k],
        decreases a.len() - i,
    {
        if a[i] != b[i] {
            return false;
        }
        i = i + 1;
    }
    assert(a@ =~= b@);
    true
}

pub open spec fn keys_view(k: Seq<Vec<u32>>) -> Seq<Seq<u32>> {
    k.map_values(|v: Vec<u32>| v@)
}

pub fn keys_lt_exec(a: &Vec<Vec<u32>>, b: &Vec<Vec<u32>>) -> (r: bool)
    ensures
        r == keys_lt(keys_view(a@), keys_view(b@)),
{
    proof {
        reveal(units_lt);
        reveal(keys_lt);
    }
    let ghost ka = keys_view(a@);
    let ghost kb = keys_view(b@);
    let mut i: usize = 0;
    assert(ka.skip(0) =~= ka && kb.skip(0) =~= kb);
    while i < a.len() && i < b.len() && units_eq_exec(&a[i], &b[i])
        invariant
            i <= a.len(),
            i <= b.len(),
            ka == keys_view(a@),
            kb == keys_view(b@),
            keys_lt(ka, kb) == keys_lt(ka.skip(i as int), kb.skip(i as int)),
        decreases a.len() - i,
    {
        proof {
            reveal(keys_lt);
        }
        assert(ka.skip(i as int).drop_first() =~= ka.skip(i + 1));
        assert(kb.skip(i as int).drop_first() =~= kb.skip(i + 1));
        i = i + 1;
    }
    if i == a.len() {
        i < b.len()
    } else if i == b.len() {
        false
    } else {
        units_lt_exec(&a[i], &b[i])
    }
}

pub fn keys_eq_exec(a: &Vec<Vec<u32>>, b: &Vec<Vec<u32>>) -> (r: bool)
    ensures
        r == (keys_view(a@) == keys_view(b@)),
{
    if a.len() != b.len() {
        assert(keys_view(a@).len() != keys_view(b@).len());
        return false;
    }
    let mut i: usize = 0;
    while i < a.len()
        invariant
            i <= a.len(),
            a.len() == b.len(),
            forall|k: int| 0 <= k < i ==> a@[k]@ == b@[k]@,
        decreases a.len() - i,
    {
        if !units_eq_exec(&a[i], &b[i]) {
            assert(keys_view(a@)[i as int] != keys_view(b@)[i as int]);
            return false;
        }
        i = i + 1;
    }
    assert(keys_view(a@) =~= keys_view(b@));
    true
}

fn push_units(r: &mut Vec<u32>, t: &Vec<char>, lo: usize, hi: usize)
    requires
        lo <= hi <= t.len(),
    ensures
        final(r)@ == old(r)@ + units_above_zero(t@.subrange(lo as int, hi as int)),
{
    let ghost r0 = r@;
    let mut i: usize = lo;
    while i < hi
        invariant
            lo <= i <= hi <= t.len(),
            r@ == r0 + units_above_zero(t@.subrange(lo as int, i as int)),
        decreases hi - i,
    {
        let c = t[i];
        proof {
            vstd::utf8::char_is_scalar(c);
        }
        r.push((c as u32) + 1);
        assert(t@.subrange(lo as int, i + 1) =~= t@.subrange(lo as int, i as int).push(c));
        assert(r@ =~= r0 + units_above_zero(t@.subrange(lo as int, i + 1)));
        i = i + 1;
    }
}

/// The key of a prefix of kind `k` with text `t`.
fn prefix_key_exec(k: PrefixKind, t: &Vec<char>, sep: char) -> (r: Vec<u32>)
    requires
        (k == PrefixKind::Verbatim || k == PrefixKind::DeviceNs) ==> t.len() >= 4,
        k == PrefixKind::VerbatimUnc ==> t.len() >= 8,
        k == PrefixKind::VerbatimDisk ==> t.len() >= 5,
        k == PrefixKind::Unc ==> t.len() >= 2,
        k == PrefixKind::Disk ==> t.len() >= 1,
    ensures
        r@ == prefix_key(k, t@, sep),
{
    let n = t.len();
    match k {
        PrefixKind::Verbatim => {
            let mut r = vec![0u32, 0u32];
            push_units(&mut r, t, 4, n);
            r
        },
        PrefixKind::VerbatimUnc => {
            let e = piece_end_exec(t, sep, 8, true);
            let mut r = vec![0u32, 1u32];
            push_units(&mut r, t, 8, e);
            r.push(0u32);
            if e < n {
                push_units(&mut r, t, e + 1, n);
            } else {
                assert(t@.subrange(n as int, n as int) =~= Seq::<char>::empty());
                push_units(&mut r, t, n, n);
            }
            assert(r@ =~= prefix_key(k, t@, sep));
            r
        },
        PrefixKind::VerbatimDisk => {
            let u = char_ascii_upper(t[4]);
            vec![0u32, 2u32, u as u32]
        },
        PrefixKind::DeviceNs => {
            let mut r = vec![0u32, 3u32];
            push_units(&mut r, t, 4, n);
            r
        },
        PrefixKind::Unc => {
            let e = piece_end_exec(t, sep, 2, false);
            let mut r = vec![0u32, 4u32];
            push_units(&mut r, t, 2, e);
            r.push(0u32);
            if e < n {
                push_units(&mut r, t, e + 1, n);
            } else {
                assert(t@.subrange(n as int, n as int) =~= Seq::<char>::empty());
                push_units(&mut r, t, n, n);
            }
            assert(r@ =~= prefix_key(k, t@, sep));
            r
        },
        PrefixKind::Disk => {
            let u = char_ascii_upper(t[0]);
            vec![0u32, 5u32, u as u32]
        },
        PrefixKind::NoPrefix => vec![0u32, 6u32],
    }
}

/// Key of the component with span `(s, e)`.
pub fn component_key(p: &Vec<char>, sep: char, s: usize, e: usize) -> (r: Vec<u32>)
    requires
        s <= e <= p.len(),
    ensures
        r@ == comp_key(p@, sep, (s as int, e as int)),
{
    let ghost t = p@.subrange(s as int, e as int);
    let (k, pl) = prefix_of(p, sep);
    if k != PrefixKind::NoPrefix && s == 0 {
        proof {
            lemma_prefix_len_bounds(p@, sep);
        }
        let pt = sub_chars(p, 0, pl);
        return prefix_key_exec(k, &pt, sep);
    }
    let phys = pl < p.len() && (p[pl] == '/' || p[pl] == sep);
    if (phys || k == PrefixKind::DeviceNs || k == PrefixKind::Unc) && s == pl {
        return vec![1u32];
    }
    if e - s == 1 && p[s] == '.' {
        assert(t =~= seq!['.']);
        return vec![2u32];
    }
    if e - s == 2 && p[s] == '.' && p[s + 1] == '.' {
        assert(t =~= seq!['.', '.']);
        return vec![3u32];
    }
    assert(t != seq!['.']) by {
        if t == seq!['.'] {
            assert(t.len() == 1 && t[0] == '.');
        }
    }
    assert(t != seq!['.', '.']) by {
        if t == seq!['.', '.'] {
            assert(t.len() == 2 && t[0] == '.' && t[1] == '.');
        }
    }
    let mut r: Vec<u32> = vec![4u32];
    let mut i: usize = s;
    while i < e
        invariant
            s <= i <= e <= p.len(),
            t == p@.subrange(s as int, e as int),
            r@ == seq![4u32] + t.subrange(0, i - s).map_values(|ch: char| ch as u32),
        decreases e - i,
    {
        r.push(p[i] as u32);
        assert(t.subrange(0, i + 1 - s) =~= t.subrange(0, i - s).push(p@[i as int]));
        assert(r@ =~= seq![4u32] + t.subrange(0, i + 1 - s).map_values(|ch: char| ch as u32));
        i = i + 1;
    }
    assert(t.subrange(0, e - s) =~= t);
    r
}

/// The component keys of a path.
pub fn path_key_exec(p: &Vec<char>, sep: char) -> (r: Vec<Vec<u32>>)
    ensures
        keys_view(r@) == path_key(p@, sep),
{
    let spans = component_spans(p, sep);
    let ghost cs = components(p@, sep);
    proof {
        lemma_components_well_formed(p@, sep);
    }
    assert(spans@.len() == cs.len());
    let mut r: Vec<Vec<u32>> = Vec::new();
    let mut i: usize = 0;
    while i < spans.len()
        invariant
            i <= spans@.len(),
            cs == components(p@, sep),
            spans@.map_values(|c: (usize, usize)| (c.0 as int, c.1 as int)) == cs,
            spans_well_formed(p@, sep, cs, 0),
            r@.len() == i,
            forall|k: int| 0 <= k < i ==> (#[trigger] r@[k])@ == comp_key(p@, sep, cs[k]),
        decreases spans.len() - i,
    {
        let (s, e) = spans[i];
        assert(cs[i as int] == (s as int, e as int));
        let k = component_key(p, sep, s, e);
        r.push(k);
        i = i + 1;
    }
    reveal(path_key);
    assert(keys_view(r@) =~= path_key(p@, sep));
    r
}

/// `Path::strip_prefix`: when the components of `base` open those of `p`,
/// the text of `p` from its first remaining component to the end of its last
/// one (empty when none remains).
pub open spec fn strip_prefix(p: Seq<char>, base: Seq<char>, sep: char) -> Option<Seq<char>> {
    let kp = path_key(p, sep);
    let kb = path_key(base, sep);
    let cs = components(p, sep);
    if kb.len() <= kp.len() && kp.subrange(0, kb.len() as int) == kb {
        Some(
            if kb.len() < cs.len() {
                p.subrange(cs[kb.len() as int].0, cs.last().1)
            } else {
                seq![]
            },
        )
    } else {
        None
    }
}

/// The name of the last component of `p` and that of its parent, when both
/// are names (`Path::file_name` of the path and of its parent).
pub open spec fn last_two_names(p: Seq<char>, sep: char) -> Option<(Seq<char>, Seq<char>)> {
    let cs = components(p, sep);
    let n = cs.len();
    if n >= 2 && is_named(p, sep, cs[n - 2]) && is_named(p, sep, cs[n - 1]) {
        Some((span_text(p, cs[n - 2]), span_text(p, cs[n - 1])))
    } else {
        None
    }
}

/// The name of the last component of `p` (`Path::file_name`).
pub open spec fn file_name(p: Seq<char>, sep: char) -> Option<Seq<char>> {
    let cs = components(p, sep);
    if cs.len() >= 1 && is_named(p, sep, cs.last()) {
        Some(span_text(p, cs.last()))
    } else {
        None
    }
}

/// Characters `lo..hi` of `p`.
pub fn sub_chars(p: &Vec<char>, lo: usize, hi: usize) -> (r: Vec<char>)
    requires
        lo <= hi <= p.len(),
    ensures
        r@ == p@.subrange(lo as int, hi as int),
{
    let mut r: Vec<char> = Vec::new();
    let mut i: usize = lo;
    while i < hi
        invariant
            lo <= i <= hi <= p.len(),
            r@ == p@.subrange(lo as int, i as int),
        decreases hi - i,
    {
        r.push(p[i]);
        i = i + 1;
    }
    r
}

pub fn strip_prefix_exec(p: &Vec<char>, base: &Vec<char>, sep: char) -> (r: Option<Vec<char>>)
    ensures
        r matches Some(v) ==> strip_prefix(p@, base@, sep) == Some(v@),
        r is None ==> strip_prefix(p@, base@, sep) is None,
{
    let kp = path_key_exec(p, sep);
    let kb = path_key_exec(base, sep);
    let ghost vkp = keys_view(kp@);
    let ghost vkb = keys_view(kb@);
    assert(vkp.len() == kp.len() && vkb.len() == kb.len());
    if kb.len() > kp.len() {
        return None;
    }
    let mut i: usize = 0;
    while i < kb.len()
        invariant
            kb.len() <= kp.len(),
            i <= kb.len(),
            vkp == keys_view(kp@),
            vkb == keys_view(kb@),
            vkp.len() == kp.len(),
            vkb.len() == kb.len(),
            vkp == path_key(p@, sep),
            vkb == path_key(base@, sep),
            forall|k: int| 0 <= k < i ==> vkp[k] == vkb[k],
        decreases kb.len() - i,
    {
        if !units_eq_exec(&kp[i], &kb[i]) {
            assert(vkp.len() == kp.len() && vkb.len() == kb.len());
            assert(vkp.subrange(0, vkb.len() as int)[i as int] != vkb[i as int]);
            return None;
        }
        i = i + 1;
    }
    assert(vkp.subrange(0, vkb.len() as int) =~= vkb);
    let spans = component_spans(p, sep);
    let ghost cs = components(p@, sep);
    proof {
        lemma_components_well_formed(p@, sep);
    }
    assert(spans@.len() == cs.len());
    if kb.len() < spans.len() {
        let lo = spans[kb.len()].0;
        let hi = spans[spans.len() - 1].1;
        assert(cs[kb.len() as int].0 == lo);
        assert(cs.last().1 == hi);
        proof {
            lemma_spans_ordered(p@, sep, cs, kb.len() as int, cs.len() - 1);
        }
        Some(sub_chars(p, lo, hi))
    } else {
        Some(Vec::new())
    }
}

proof fn lemma_spans_ordered(p: Seq<char>, sep: char, cs: Seq<(int, int)>, a: int, b: int)
    requires
        spans_well_formed(p, sep, cs, 0),
        0 <= a <= b < cs.len(),
    ensures
        cs[a].0 <= cs[b].1,
        cs[a].0 <= cs[b].0,
    decreases b - a,
{
    if a < b {
        lemma_spans_ordered(p, sep, cs, a + 1, b);
        assert(cs[a].1 <= cs[a + 1].0);
    }
}

pub fn last_two_names_exec(p: &Vec<char>, sep: char) -> (r: Option<(Vec<char>, Vec<char>)>)
    ensures
        r matches Some(v) ==> last_two_names(p@, sep) == Some((v.0@, v.1@)),
        r is None ==> last_two_names(p@, sep) is None,
{
    let spans = component_spans(p, sep);
    let ghost cs = components(p@, sep);
    proof {
        lemma_components_well_formed(p@, sep);
    }
    assert(spans@.len() == cs.len());
    let n = spans.len();
    if n < 2 {
        return None;
    }
    let (s1, e1) = spans[n - 2];
    let (s2, e2) = spans[n - 1];
    assert(cs[n - 2] == (s1 as int, e1 as int));
    assert(cs[n - 1] == (s2 as int, e2 as int));
    if is_named_exec(p, sep, s1, e1) && is_named_exec(p, sep, s2, e2) {
        Some((sub_chars(p, s1, e1), sub_chars(p, s2, e2)))
    } else {
        None
    }
}

pub fn is_named_exec(p: &Vec<char>, sep: char, s: usize, e: usize) -> (r: bool)
    requires
        s <= e <= p.len(),
    ensures
        r == is_named(p@, sep, (s as int, e as int)),
{
    let ghost t = p@.subrange(s as int, e as int);
    let (k, pl) = prefix_of(p, sep);
    if k != PrefixKind::NoPrefix && s == 0 {
        return false;
    }
    let phys = pl < p.len() && (p[pl] == '/' || p[pl] == sep);
    if (phys || k == PrefixKind::DeviceNs || k == PrefixKind::Unc) && s == pl {
        return false;
    }
    if e - s == 1 && p[s] == '.' {
        if p[s] == '.' {
            assert(t =~= seq!['.']);
        }
        return false;
    }
    if e - s == 2 && p[s] == '.' && p[s + 1] == '.' {
        assert(t =~= seq!['.', '.']);
        return false;
    }
    assert(t != seq!['.']) by {
        if t == seq!['.'] {
            assert(t.len() == 1 && t[0] == '.');
        }
    }
    assert(t != seq!['.', '.']) by {
        if t == seq!['.', '.'] {
            assert(t.len() == 2 && t[0] == '.' && t[1] == '.');
        }
    }
    true
}

/// `base` joined with `name` (see [`join`]).
pub fn join_str(base: &str, name: &str, sep: char) -> (r: String)
    ensures
        r@ == join(base@, name@, sep),
{
    let b = crate::text::chars_of(base);
    let n = crate::text::chars_of(name);
    let j = join_chars(&b, &n, sep);
    crate::text::string_from_chars(j.as_slice())
}

/// `std::path::MAIN_SEPARATOR`: the separator of the platform's paths.
#[verifier::external_body]
pub(crate) fn platform_separator() -> (r: char)
    ensures
        r == '/' || r == '\\',
{
    std::path::MAIN_SEPARATOR
}

pub fn file_name_exec(p: &Vec<char>, sep: char) -> (r: Option<Vec<char>>)
    ensures
        r matches Some(v) ==> file_name(p@, sep) == Some(v@),
        r is None ==> file_name(p@, sep) is None,
{
    let spans = component_spans(p, sep);
    let ghost cs = components(p@, sep);
    proof {
        lemma_components_well_formed(p@, sep);
    }
    assert(spans@.len() == cs.len());
    let n = spans.len();
    if n < 1 {
        return None;
    }
    let (s, e) = spans[n - 1];
    assert(cs.last() == (s as int, e as int));
    if is_named_exec(p, sep, s, e) {
        Some(sub_chars(p, s, e))
    } else {
        None
    }
}

/// The extension of a file name (`Path::extension`): what follows its last
/// dot, unless it has no dot or its only dot opens it.
pub open spec fn extension_of(name: Seq<char>) -> Option<Seq<char>> {
    let k = crate::text::after_last_char(name, '.');
    if k <= 1 {
        None
    } else {
        Some(name.subrange(k, name.len() as int))
    }
}

pub fn extension_exec(name: &Vec<char>) -> (r: Option<Vec<char>>)
    ensures
        r matches Some(v) ==> extension_of(name@) == Some(v@),
        r is None ==> extension_of(name@) is None,
{
    proof {
        crate::text::lemma_after_last_char(name@, '.');
    }
    let k = crate::text::after_last_char_exec(name, '.');
    if k <= 1 {
        None
    } else {
        Some(sub_chars(name, k, name.len()))
    }
}

/// A name fit to be a path component: not empty, without separators, and
/// neither `.` nor `..`.
pub open spec fn is_name(n: Seq<char>, sep: char) -> bool {
    &&& n.len() > 0
    &&& forall|i: int| 0 <= i < n.len() ==> !is_sep(#[trigger] n[i], sep)
    &&& n != seq!['.']
    &&& n != seq!['.', '.']
}

/// Names joined by the separator `sep`.
pub open spec fn joined(names: Seq<Seq<char>>, sep: char) -> Seq<char>
    decreases names.len(),
{
    if names.len() == 0 {
        seq![]
    } else if names.len() == 1 {
        names[0]
    } else {
        names[0].push(sep) + joined(names.drop_first(), sep)
    }
}

/// Spans of names laid out from `off`, one separator between two.
pub open spec fn name_spans(names: Seq<Seq<char>>, off: int) -> Seq<(int, int)>
    decreases names.len(),
{
    if names.len() == 0 {
        seq![]
    } else {
        seq![(off, off + names[0].len())] + name_spans(names.drop_first(), off + names[0].len() + 1)
    }
}

proof fn lemma_piece_end_at(p: Seq<char>, sep: char, i: int, e: int)
    requires
        0 <= i <= e <= p.len(),
        forall|k: int| i <= k < e ==> !is_sep(#[trigger] p[k], sep),
        e == p.len() || is_sep(p[e], sep),
    ensures
        piece_end(p, sep, i, false) == e,
    decreases e - i,
{
    if i < e {
        lemma_piece_end_at(p, sep, i + 1, e);
    }
}

proof fn lemma_joined_len(names: Seq<Seq<char>>, sep: char)
    ensures
        names.len() >= 1 ==> joined(names, sep).len() >= names[0].len(),
        names.len() >= 1 ==> joined(names, sep).subrange(0, names[0].len() as int) == names[0],
        names.len() >= 2 ==> joined(names, sep)[names[0].len() as int] == sep,
        names.len() >= 2 ==> joined(names, sep).subrange(names[0].len() + 1int, joined(names, sep).len() as int)
            == joined(names.drop_first(), sep),
        names.len() == 1 ==> joined(names, sep) == names[0],
{
    if names.len() >= 2 {
        let j = joined(names, sep);
        let n0 = names[0];
        assert(j == n0.push(sep) + joined(names.drop_first(), sep));
        assert(j.subrange(0, n0.len() as int) =~= n0);
        assert(j.subrange(n0.len() + 1int, j.len() as int) =~= joined(names.drop_first(), sep));
    }
    if names.len() == 1 {
        assert(joined(names, sep).subrange(0, names[0].len() as int) =~= names[0]);
    }
}

/// The components of names laid out from `off` to the end of `p` are those
/// names, whatever piece came before.
proof fn lemma_name_spans_len(names: Seq<Seq<char>>, off: int)
    ensures
        name_spans(names, off).len() == names.len(),
        names.len() > 0 ==> name_spans(names, off)[0] == (off, off + names[0].len()),
        forall|k: int| 1 <= k < names.len() ==> #[trigger] name_spans(names, off)[k] == name_spans(names.drop_first(), off + names[0].len() + 1)[k - 1],
    decreases names.len(),
{
    if names.len() > 0 {
        lemma_name_spans_len(names.drop_first(), off + names[0].len() + 1);
    }
}

proof fn lemma_name_spans_from(names: Seq<Seq<char>>, off: int)
    ensures
        forall|k: int| 0 <= k < name_spans(names, off).len() ==> (#[trigger] name_spans(names, off)[k]).0 >= off,
    decreases names.len(),
{
    if names.len() > 0 {
        let rest = name_spans(names.drop_first(), off + names[0].len() + 1);
        lemma_name_spans_from(names.drop_first(), off + names[0].len() + 1);
        assert forall|k: int| 0 <= k < name_spans(names, off).len() implies (#[trigger] name_spans(names, off)[k]).0 >= off by {
            if k > 0 {
                assert(name_spans(names, off)[k] == rest[k - 1]);
            }
        }
    }
}

proof fn lemma_comps_of_names(p: Seq<char>, sep: char, off: int, names: Seq<Seq<char>>, first: bool)
    requires
        names.len() >= 1,
        forall|k: int| 0 <= k < names.len() ==> is_name(#[trigger] names[k], sep),
        0 <= off <= p.len(),
        p.subrange(off, p.len() as int) == joined(names, sep),
    ensures
        comps_from(p, sep, off, first, false) == name_spans(names, off),
        name_spans(names, off).last().1 == p.len(),
        forall|k: int| 0 <= k < names.len() ==> span_text(p, #[trigger] name_spans(names, off)[k]) == names[k],
    decreases names.len(),
{
    let n0 = names[0];
    let j = joined(names, sep);
    lemma_joined_len(names, sep);
    let e = off + n0.len();
    assert(is_name(n0, sep));
    assert forall|k: int| off <= k < e implies !is_sep(#[trigger] p[k], sep) by {
        assert(p[k] == p.subrange(off, p.len() as int)[k - off]);
        assert(j.subrange(0, n0.len() as int)[k - off] == n0[k - off]);
    }
    if names.len() >= 2 {
        assert(p[e] == p.subrange(off, p.len() as int)[n0.len() as int]);
    }
    lemma_piece_end_at(p, sep, off, e);
    let t = p.subrange(off, e);
    assert(t =~= n0) by {
        assert forall|k: int| 0 <= k < n0.len() implies t[k] == n0[k] by {
            assert(t[k] == p.subrange(off, p.len() as int)[k]);
            assert(j.subrange(0, n0.len() as int)[k] == j[k]);
        }
    }
    if names.len() == 1 {
        assert(e == p.len());
        assert(name_spans(names.drop_first(), e + 1) =~= Seq::<(int, int)>::empty());
        assert(comps_from(p, sep, off, first, false) =~= name_spans(names, off));
    } else {
        let tail = names.drop_first();
        assert(p.subrange(e + 1, p.len() as int) =~= joined(tail, sep)) by {
            assert(p.subrange(e + 1, p.len() as int) =~= p.subrange(off, p.len() as int).subrange(n0.len() + 1int, j.len() as int));
        }
        assert forall|k: int| 0 <= k < tail.len() implies is_name(#[trigger] tail[k], sep) by {
            assert(tail[k] == names[k + 1]);
        }
        lemma_comps_of_names(p, sep, e + 1, tail, false);
        assert(comps_from(p, sep, off, first, false) =~= name_spans(names, off));
        lemma_name_spans_len(names, off);
        assert forall|k: int| 0 <= k < names.len() implies span_text(p, #[trigger] name_spans(names, off)[k]) == names[k] by {
            if k > 0 {
                assert(name_spans(names, off)[k] == name_spans(tail, e + 1)[k - 1]);
                assert(tail[k - 1] == names[k]);
            }
        }
    }
}

/// Pieces of `q` that ends with a separator are the same whatever follows it.
proof fn lemma_comps_prefix(q: Seq<char>, j: Seq<char>, sep: char, i: int, f: bool)
    requires
        q.len() >= 1,
        is_sep(q.last(), sep),
        0 <= i < q.len(),
    ensures
        comps_from(q + j, sep, i, f, false) == comps_from(q, sep, i, f, false) + comps_from(q + j, sep, q.len() as int, false, false),
    decreases q.len() - i,
{
    let p = q + j;
    lemma_piece_end(q, sep, i, false);
    let e = piece_end(q, sep, i, false);
    assert(e < q.len()) by {
        if e == q.len() {
            assert(!is_sep(q[q.len() - 1], sep));
        }
    }
    assert forall|k: int| i <= k < e implies !is_sep(#[trigger] p[k], sep) by {
        assert(p[k] == q[k]);
    }
    assert(p[e] == q[e]);
    lemma_piece_end_at(p, sep, i, e);
    assert(p.subrange(i, e) =~= q.subrange(i, e));
    if e + 1 < q.len() {
        lemma_comps_prefix(q, j, sep, e + 1, false);
    } else {
        assert(piece_end(q, sep, q.len() as int, false) == q.len());
        assert(comps_from(q, sep, e + 1, false, false) =~= Seq::<(int, int)>::empty());
    }
    let a = comps_from(q, sep, e + 1, false, false);
    let b = comps_from(p, sep, q.len() as int, false, false);
    assert(seq![(i, e)] + a + b =~= seq![(i, e)] + (a + b));
}

/// A separator put after a path that does not end with one changes none of
/// its components.
proof fn lemma_comps_push_sep(b: Seq<char>, sep: char, i: int, f: bool)
    requires
        b.len() >= 1,
        !is_sep(b.last(), sep),
        0 <= i <= b.len(),
    ensures
        comps_from(b.push(sep), sep, i, f, false) == comps_from(b, sep, i, f, false),
    decreases b.len() - i,
{
    let p = b.push(sep);
    if i == b.len() {
        assert(piece_end(b, sep, i, false) == i);
        assert(piece_end(p, sep, i, false) == i);
        assert(piece_end(p, sep, i + 1, false) == i + 1);
        assert(comps_from(p, sep, i + 1, false, false) =~= Seq::<(int, int)>::empty());
    } else {
        lemma_piece_end(b, sep, i, false);
        let e = piece_end(b, sep, i, false);
        assert forall|k: int| i <= k < e implies !is_sep(#[trigger] p[k], sep) by {
            assert(p[k] == b[k]);
        }
        if e < b.len() {
            assert(p[e] == b[e]);
        }
        lemma_piece_end_at(p, sep, i, e);
        assert(p.subrange(i, e) =~= b.subrange(i, e));
        if e < b.len() {
            lemma_comps_push_sep(b, sep, e + 1, false);
        } else {
            assert(piece_end(p, sep, e + 1, false) == e + 1);
            assert(comps_from(p, sep, e + 1, false, false) =~= Seq::<(int, int)>::empty());
        }
    }
}

/// Joined names never open with a drive prefix when the first name does not.
proof fn lemma_joined_no_drive(names: Seq<Seq<char>>, sep: char)
    requires
        names.len() >= 1,
        is_name(names[0], sep),
        !has_drive(names[0], sep),
    ensures
        !has_drive(joined(names, sep), sep),
        !is_sep(joined(names, sep)[0], sep),
{
    lemma_joined_len(names, sep);
    let j = joined(names, sep);
    let n0 = names[0];
    assert(j[0] == n0[0]) by {
        assert(j.subrange(0, n0.len() as int)[0] == j[0]);
    }
    if n0.len() >= 2 {
        assert(j[1] == n0[1]) by {
            assert(j.subrange(0, n0.len() as int)[1] == j[1]);
        }
    } else if names.len() >= 2 {
        assert(j[1] == sep);
    }
}

/// Whether `p` and `q` open alike: the same kind and length of prefix and
/// the same root.
pub open spec fn same_head(p: Seq<char>, q: Seq<char>, sep: char) -> bool {
    &&& prefix_kind(p, sep) == prefix_kind(q, sep)
    &&& prefix_len(p, sep) == prefix_len(q, sep)
    &&& has_physical_root(p, sep) == has_physical_root(q, sep)
}

/// Whether `p` has a server or device prefix followed by a separator.
pub open spec fn settled_prefix(p: Seq<char>, sep: char) -> bool {
    (prefix_kind(p, sep) == PrefixKind::Unc || prefix_kind(p, sep) == PrefixKind::DeviceNs) && has_physical_root(p, sep)
}

/// A piece that ends inside `q` ends at the same place whatever follows `q`.
proof fn lemma_piece_end_extend(q: Seq<char>, j: Seq<char>, sep: char, i: int, v: bool)
    requires
        0 <= i <= q.len(),
        piece_end(q, sep, i, v) < q.len(),
    ensures
        piece_end(q + j, sep, i, v) == piece_end(q, sep, i, v),
    decreases q.len() - i,
{
    let p = q + j;
    assert(p[i] == q[i]);
    if !breaks(q[i], sep, v) {
        lemma_piece_end_extend(q, j, sep, i + 1, v);
    }
}

/// A path that does not open with two separators has at most a drive
/// prefix, and which it has depends on its first two characters.
proof fn lemma_plain_head(p: Seq<char>, q: Seq<char>, sep: char)
    requires
        !opens_with_two_seps(q, sep),
        p.len() >= 2 && q.len() >= 2 ==> p[0] == q[0] && p[1] == q[1],
        p.len() < 2 || q.len() < 2 ==> !opens_with_two_seps(p, sep) && !has_drive(p, sep) && !has_drive(q, sep),
    ensures
        !opens_with_two_seps(p, sep),
        prefix_kind(p, sep) == prefix_kind(q, sep),
        prefix_len(p, sep) == prefix_len(q, sep),
        prefix_kind(q, sep) == PrefixKind::Disk || prefix_kind(q, sep) == PrefixKind::NoPrefix,
{
}

/// A server or device prefix followed by a separator stays as it is
/// whatever follows.
proof fn lemma_settled_head(q: Seq<char>, j: Seq<char>, sep: char)
    requires
        settled_prefix(q, sep),
    ensures
        same_head(q + j, q, sep),
        settled_prefix(q + j, sep),
        body_start(q + j, sep) == body_start(q, sep),
{
    let p = q + j;
    lemma_prefix_len_bounds(q, sep);
    let pl = prefix_len(q, sep);
    if prefix_kind(q, sep) == PrefixKind::DeviceNs {
        lemma_piece_end(q, sep, 4, false);
        lemma_piece_end_extend(q, j, sep, 4, false);
    } else {
        lemma_piece_end(q, sep, 2, false);
        let e = server_end(q, sep);
        lemma_piece_end_extend(q, j, sep, 2, false);
        lemma_piece_end(q, sep, e + 1, false);
        lemma_piece_end_extend(q, j, sep, e + 1, false);
    }
    assert(q.len() >= 5);
    assert(p[0] == q[0] && p[1] == q[1] && p[2] == q[2] && p[3] == q[3]);
    assert(p[pl] == q[pl]);
    assert(prefix_kind(p, sep) == prefix_kind(q, sep));
}

/// The components of `q` followed by names, where `q` is empty, ends with
/// a separator or is a bare drive: those of `q`, then the names.
proof fn lemma_components_then_names(q: Seq<char>, names: Seq<Seq<char>>, sep: char)
    requires
        q.len() == 0 || is_sep(q.last(), sep) || (has_drive(q, sep) && q.len() == 2),
        !opens_with_two_seps(q, sep) || settled_prefix(q, sep),
        names.len() >= 1,
        forall|k: int| 0 <= k < names.len() ==> is_name(#[trigger] names[k], sep),
        q.len() == 0 ==> !has_drive(names[0], sep),
    ensures
        components(q + joined(names, sep), sep) == components(q, sep) + name_spans(names, q.len() as int),
        name_spans(names, q.len() as int).last().1 == (q + joined(names, sep)).len(),
        same_head(q + joined(names, sep), q, sep),
{
    let j = joined(names, sep);
    let p = q + j;
    lemma_joined_len(names, sep);
    assert(is_name(names[0], sep));
    if q.len() == 0 {
        lemma_joined_no_drive(names, sep);
    }
    assert(j[0] == names[0][0]) by {
        assert(j.subrange(0, names[0].len() as int)[0] == j[0]);
    }
    assert(p.subrange(q.len() as int, p.len() as int) =~= j);
    lemma_comps_of_names(p, sep, q.len() as int, names, false);
    lemma_comps_of_names(p, sep, q.len() as int, names, true);
    if settled_prefix(q, sep) {
        lemma_settled_head(q, j, sep);
    } else {
        if q.len() >= 2 {
            assert(p[0] == q[0] && p[1] == q[1]);
        } else if q.len() == 1 {
            assert(p[0] == q[0]);
            assert(p[1] == j[0]);
        } else {
            assert(p =~= j);
            assert(p[0] == j[0]);
        }
        lemma_plain_head(p, q, sep);
    }
    lemma_prefix_len_bounds(q, sep);
    let pl = prefix_len(q, sep);
    if pl < q.len() {
        assert(p[pl] == q[pl]);
    } else {
        assert(p[pl] == j[0]);
    }
    assert(has_physical_root(p, sep) == has_physical_root(q, sep));
    let bs = body_start(q, sep);
    let f = !has_root(q, sep);
    assert(head_spans(p, sep) == head_spans(q, sep));
    assert(is_verbatim_kind(prefix_kind(q, sep)) == false);
    if bs == q.len() {
        assert(piece_end(q, sep, bs, false) == bs);
        assert(comps_from(q, sep, bs, f, false) =~= Seq::<(int, int)>::empty());
        assert(components(p, sep) =~= components(q, sep) + name_spans(names, q.len() as int));
    } else {
        assert(is_sep(q.last(), sep));
        lemma_comps_prefix(q, j, sep, bs, f);
        assert(components(p, sep) =~= components(q, sep) + name_spans(names, q.len() as int));
    }
}

proof fn lemma_components_push_sep(b: Seq<char>, sep: char)
    requires
        b.len() >= 1,
        !is_sep(b.last(), sep),
        !(has_drive(b, sep) && b.len() == 2),
        !opens_with_two_seps(b, sep) || settled_prefix(b, sep),
    ensures
        components(b.push(sep), sep) == components(b, sep),
        same_head(b.push(sep), b, sep),
{
    let p = b.push(sep);
    if settled_prefix(b, sep) {
        assert(p == b + seq![sep]);
        lemma_settled_head(b, seq![sep], sep);
    } else {
        if b.len() >= 2 {
            assert(p[0] == b[0] && p[1] == b[1]);
        } else {
            assert(p[0] == b[0]);
            assert(p[1] == sep);
        }
        lemma_plain_head(p, b, sep);
    }
    lemma_prefix_len_bounds(b, sep);
    let pl = prefix_len(b, sep);
    assert(pl < b.len());
    assert(p[pl] == b[pl]);
    assert(has_physical_root(p, sep) == has_physical_root(b, sep));
    assert(head_spans(p, sep) == head_spans(b, sep));
    lemma_comps_push_sep(b, sep, body_start(b, sep), !has_root(b, sep));
}

/// A server or device prefix alone has the keys it has with a separator
/// after it.
proof fn lemma_bare_prefix_keys(b: Seq<char>, sep: char)
    requires
        prefix_kind(b, sep) == PrefixKind::Unc || prefix_kind(b, sep) == PrefixKind::DeviceNs,
        prefix_len(b, sep) == b.len(),
    ensures
        settled_prefix(b.push(sep), sep),
        path_key(b.push(sep), sep) == path_key(b, sep),
        components(b.push(sep), sep) == seq![(0int, b.len() as int), (b.len() as int, b.len() + 1int)],
{
    reveal(path_key);
    let p = b.push(sep);
    let n = b.len() as int;
    lemma_prefix_len_bounds(b, sep);
    if prefix_kind(b, sep) == PrefixKind::DeviceNs {
        lemma_piece_end(b, sep, 4, false);
        assert(piece_end(b, sep, 4, false) == n);
        lemma_piece_end(p, sep, 4, false);
        assert forall|k: int| 4 <= k < n implies !breaks(#[trigger] p[k], sep, false) by {
            assert(p[k] == b[k]);
        }
        lemma_piece_end_at(p, sep, 4, n);
    } else {
        lemma_piece_end(b, sep, 2, false);
        let e = server_end(b, sep);
        lemma_piece_end_extend(b, seq![sep], sep, 2, false);
        assert(p == b + seq![sep]);
        lemma_piece_end(b, sep, e + 1, false);
        assert(piece_end(b, sep, e + 1, false) == n);
        assert forall|k: int| e + 1 <= k < n implies !is_sep(#[trigger] p[k], sep) by {
            assert(p[k] == b[k]);
        }
        lemma_piece_end_at(p, sep, e + 1, n);
    }
    assert(p[0] == b[0] && p[1] == b[1] && p[2] == b[2] && p[3] == b[3]);
    assert(prefix_kind(p, sep) == prefix_kind(b, sep));
    assert(prefix_len(p, sep) == n);
    assert(has_physical_root(p, sep));
    assert(piece_end(p, sep, n + 1, false) == n + 1);
    assert(comps_from(p, sep, n + 1, false, false) =~= Seq::<(int, int)>::empty());
    assert(components(p, sep) =~= seq![(0int, n), (n, n + 1)]);
    assert(comps_from(b, sep, n, false, false) =~= Seq::<(int, int)>::empty());
    assert(components(b, sep) =~= seq![(0int, n), (n, n)]);
    assert(p.subrange(0, n) =~= b);
    assert(b.subrange(0, n) =~= b);
    assert(path_key(p, sep) =~= path_key(b, sep));
}

/// Keys of spans that lie inside a prefix `q` of `p` are the same in both,
/// when both open alike.
proof fn lemma_keys_in_prefix(q: Seq<char>, p: Seq<char>, sep: char, cs: Seq<(int, int)>)
    requires
        q.len() <= p.len(),
        p.subrange(0, q.len() as int) == q,
        same_head(p, q, sep),
        prefix_len(q, sep) <= q.len(),
        forall|k: int| 0 <= k < cs.len() ==> 0 <= (#[trigger] cs[k]).0 <= cs[k].1 <= q.len(),
    ensures
        cs.map_values(|c: (int, int)| comp_key(p, sep, c)) == cs.map_values(|c: (int, int)| comp_key(q, sep, c)),
{
    let pl = prefix_len(q, sep);
    lemma_prefix_len_bounds(q, sep);
    assert(p.subrange(0, pl) =~= q.subrange(0, pl)) by {
        assert forall|m: int| 0 <= m < pl implies p.subrange(0, pl)[m] == q.subrange(0, pl)[m] by {
            assert(p[m] == p.subrange(0, q.len() as int)[m]);
        }
    }
    assert forall|k: int| 0 <= k < cs.len() implies comp_key(p, sep, #[trigger] cs[k]) == comp_key(q, sep, cs[k]) by {
        let c = cs[k];
        assert(p.subrange(c.0, c.1) =~= q.subrange(c.0, c.1)) by {
            assert forall|m: int| 0 <= m < c.1 - c.0 implies p.subrange(c.0, c.1)[m] == q.subrange(c.0, c.1)[m] by {
                assert(p[c.0 + m] == p.subrange(0, q.len() as int)[c.0 + m]);
            }
        }
    }
    assert(cs.map_values(|c: (int, int)| comp_key(p, sep, c)) =~= cs.map_values(|c: (int, int)| comp_key(q, sep, c)));
}

/// A piece of a verbatim path: not empty and without `\`.
pub open spec fn is_vpiece(t: Seq<char>) -> bool {
    t.len() > 0 && forall|i: int| 0 <= i < t.len() ==> t[i] != '\\'
}

/// The kind and text a piece has among rebuilt components.
pub open spec fn text_desc(t: Seq<char>) -> (u8, Seq<char>) {
    (if t == seq!['.'] {
        2u8
    } else if t == seq!['.', '.'] {
        3u8
    } else {
        4u8
    }, t)
}

proof fn lemma_piece_end_at_v(p: Seq<char>, sep: char, i: int, e: int, v: bool)
    requires
        0 <= i <= e <= p.len(),
        forall|k: int| i <= k < e ==> !breaks(#[trigger] p[k], sep, v),
        e == p.len() || breaks(p[e], sep, v),
    ensures
        piece_end(p, sep, i, v) == e,
    decreases e - i,
{
    if i < e {
        lemma_piece_end_at_v(p, sep, i + 1, e, v);
    }
}

/// The verbatim components from `off` of pieces joined by `\`.
proof fn lemma_vcomps_of_pieces(p: Seq<char>, sep: char, off: int, ts: Seq<Seq<char>>, first: bool)
    requires
        sep == '\\',
        ts.len() >= 1,
        forall|k: int| 0 <= k < ts.len() ==> is_vpiece(#[trigger] ts[k]),
        0 <= off <= p.len(),
        p.subrange(off, p.len() as int) == joined(ts, sep),
    ensures
        comps_from(p, sep, off, first, true) == name_spans(ts, off),
        name_spans(ts, off).last().1 == p.len(),
        forall|k: int| 0 <= k < ts.len() ==> span_text(p, #[trigger] name_spans(ts, off)[k]) == ts[k],
    decreases ts.len(),
{
    let n0 = ts[0];
    let j = joined(ts, sep);
    lemma_joined_len(ts, sep);
    let e = off + n0.len();
    assert(is_vpiece(n0));
    assert forall|k: int| off <= k < e implies !breaks(#[trigger] p[k], sep, true) by {
        assert(p[k] == p.subrange(off, p.len() as int)[k - off]);
        assert(j.subrange(0, n0.len() as int)[k - off] == n0[k - off]);
    }
    if ts.len() >= 2 {
        assert(p[e] == p.subrange(off, p.len() as int)[n0.len() as int]);
    }
    lemma_piece_end_at_v(p, sep, off, e, true);
    let t = p.subrange(off, e);
    assert(t =~= n0) by {
        assert forall|k: int| 0 <= k < n0.len() implies t[k] == n0[k] by {
            assert(t[k] == p.subrange(off, p.len() as int)[k]);
            assert(j.subrange(0, n0.len() as int)[k] == j[k]);
        }
    }
    lemma_name_spans_len(ts, off);
    if ts.len() == 1 {
        assert(e == p.len());
        assert(name_spans(ts.drop_first(), e + 1) =~= Seq::<(int, int)>::empty());
        assert(comps_from(p, sep, off, first, true) =~= name_spans(ts, off));
    } else {
        let tail = ts.drop_first();
        assert(p.subrange(e + 1, p.len() as int) =~= joined(tail, sep)) by {
            assert(p.subrange(e + 1, p.len() as int) =~= p.subrange(off, p.len() as int).subrange(n0.len() + 1int, j.len() as int));
        }
        assert forall|k: int| 0 <= k < tail.len() implies is_vpiece(#[trigger] tail[k]) by {
            assert(tail[k] == ts[k + 1]);
        }
        lemma_vcomps_of_pieces(p, sep, e + 1, tail, false);
        assert(comps_from(p, sep, off, first, true) =~= name_spans(ts, off));
        assert forall|k: int| 0 <= k < ts.len() implies span_text(p, #[trigger] name_spans(ts, off)[k]) == ts[k] by {
            if k > 0 {
                assert(name_spans(ts, off)[k] == name_spans(tail, e + 1)[k - 1]);
                assert(tail[k - 1] == ts[k]);
            }
        }
    }
}

/// The verbatim pieces found from `i` are pieces of a verbatim path.
proof fn lemma_vcomps_pieces(p: Seq<char>, sep: char, i: int, f: bool)
    requires
        0 <= i <= p.len(),
    ensures
        forall|k: int| 0 <= k < comps_from(p, sep, i, f, true).len() ==> is_vpiece(
            span_text(p, #[trigger] comps_from(p, sep, i, f, true)[k]),
        ) && comps_from(p, sep, i, f, true)[k].0 >= i,
    decreases p.len() - i + 1,
{
    lemma_piece_end(p, sep, i, true);
    let e = piece_end(p, sep, i, true);
    let cf = comps_from(p, sep, i, f, true);
    let rest = if e < p.len() { comps_from(p, sep, e + 1, false, true) } else { Seq::<(int, int)>::empty() };
    if e < p.len() {
        lemma_vcomps_pieces(p, sep, e + 1, false);
    }
    let t = p.subrange(i, e);
    if t.len() > 0 {
        assert(cf == seq![(i, e)] + rest);
        assert forall|k: int| 0 <= k < cf.len() implies is_vpiece(span_text(p, #[trigger] cf[k])) && cf[k].0 >= i by {
            if k == 0 {
                assert forall|m: int| 0 <= m < t.len() implies t[m] != '\\' by {
                    assert(t[m] == p[i + m]);
                    assert(!breaks(p[i + m], sep, true));
                }
            } else {
                assert(cf[k] == rest[k - 1]);
            }
        }
    } else {
        assert(cf == rest);
    }
}

proof fn lemma_joined_push(ts: Seq<Seq<char>>, t: Seq<char>, sep: char)
    requires
        ts.len() >= 1,
    ensures
        joined(ts.push(t), sep) == joined(ts, sep) + seq![sep] + t,
    decreases ts.len(),
{
    if ts.len() == 1 {
        assert(ts.push(t).drop_first() =~= seq![t]);
        assert(ts.push(t)[0] == ts[0]);
        assert(joined(seq![t], sep) == t);
        assert(joined(ts.push(t), sep) =~= joined(ts, sep) + seq![sep] + t);
    } else {
        lemma_joined_push(ts.drop_first(), t, sep);
        assert(ts.push(t).drop_first() =~= ts.drop_first().push(t));
        assert(joined(ts.push(t), sep) =~= joined(ts, sep) + seq![sep] + t);
    }
}

proof fn lemma_joined_append(ts: Seq<Seq<char>>, ns: Seq<Seq<char>>, sep: char)
    requires
        ts.len() >= 1,
        ns.len() >= 1,
    ensures
        joined(ts + ns, sep) == joined(ts, sep) + seq![sep] + joined(ns, sep),
    decreases ts.len(),
{
    if ts.len() == 1 {
        assert((ts + ns).drop_first() =~= ns);
        assert((ts + ns)[0] == ts[0]);
        assert(joined(ts + ns, sep) =~= joined(ts, sep) + seq![sep] + joined(ns, sep));
    } else {
        lemma_joined_append(ts.drop_first(), ns, sep);
        assert((ts + ns).drop_first() =~= ts.drop_first() + ns);
        assert((ts + ns)[0] == ts[0]);
        assert(joined(ts + ns, sep) =~= joined(ts, sep) + seq![sep] + joined(ns, sep));
    }
}

proof fn lemma_name_spans_at(ts: Seq<Seq<char>>, ns: Seq<Seq<char>>, off: int, sep: char)
    requires
        ts.len() >= 1,
        ns.len() >= 1,
    ensures
        name_spans(ts + ns, off)[ts.len() as int].0 == off + joined(ts, sep).len() + 1,
    decreases ts.len(),
{
    lemma_name_spans_len(ts + ns, off);
    lemma_joined_len(ts, sep);
    assert((ts + ns)[0] == ts[0]);
    if ts.len() == 1 {
        assert((ts + ns).drop_first() =~= ns);
        lemma_name_spans_len(ns, off + ts[0].len() + 1);
    } else {
        lemma_name_spans_at(ts.drop_first(), ns, off + ts[0].len() + 1, sep);
        assert((ts + ns).drop_first() =~= ts.drop_first() + ns);
        assert(joined(ts, sep) == ts[0].push(sep) + joined(ts.drop_first(), sep));
    }
}

proof fn lemma_render_pieces(hd: (u8, Seq<char>), xs: Seq<Seq<char>>, sep: char)
    requires
        hd.0 == 0,
    ensures
        render(seq![hd, (1u8, seq![sep])] + xs.map_values(|t: Seq<char>| text_desc(t)), sep) == hd.1 + seq![sep] + joined(xs, sep),
    decreases xs.len(),
{
    let ds = seq![hd, (1u8, seq![sep])] + xs.map_values(|t: Seq<char>| text_desc(t));
    if xs.len() == 0 {
        assert(ds =~= seq![hd, (1u8, seq![sep])]);
        assert(ds.drop_last() =~= seq![hd]);
        assert(seq![hd].drop_last() =~= Seq::<(u8, Seq<char>)>::empty());
        assert(seq![hd].last() == hd);
        assert(render(Seq::<(u8, Seq<char>)>::empty(), sep) =~= Seq::<char>::empty());
        assert(render(seq![hd], sep) =~= hd.1);
        assert(render(ds, sep) =~= hd.1 + seq![sep] + joined(xs, sep));
    } else {
        let before = xs.drop_last();
        lemma_render_pieces(hd, before, sep);
        assert(ds.drop_last() =~= seq![hd, (1u8, seq![sep])] + before.map_values(|t: Seq<char>| text_desc(t)));
        assert(ds.last() == text_desc(xs.last()));
        if xs.len() == 1 {
            assert(ds.drop_last().last().0 == 1);
            assert(xs =~= seq![xs.last()]);
            assert(render(ds, sep) =~= hd.1 + seq![sep] + joined(xs, sep));
        } else {
            assert(ds.drop_last().last() == text_desc(before.last()));
            lemma_joined_push(before, xs.last(), sep);
            assert(before.push(xs.last()) =~= xs);
            assert(render(ds, sep) =~= hd.1 + seq![sep] + joined(xs, sep));
        }
    }
}

proof fn lemma_fold_names(buf: Seq<(u8, Seq<char>)>, ns: Seq<Seq<char>>)
    requires
        forall|k: int| 0 <= k < ns.len() ==> #[trigger] ns[k] != seq!['.'] && ns[k] != seq!['.', '.'],
    ensures
        verbatim_fold(buf, ns.map_values(|t: Seq<char>| text_desc(t))) == buf + ns.map_values(|t: Seq<char>| text_desc(t)),
    decreases ns.len(),
{
    let ds = ns.map_values(|t: Seq<char>| text_desc(t));
    if ns.len() == 0 {
        assert(buf + ds =~= buf);
    } else {
        let before = ns.drop_last();
        assert forall|k: int| 0 <= k < before.len() implies #[trigger] before[k] != seq!['.'] && before[k] != seq!['.', '.'] by {
            assert(before[k] == ns[k]);
        }
        lemma_fold_names(buf, before);
        assert(ds.drop_last() =~= before.map_values(|t: Seq<char>| text_desc(t)));
        assert(ns[ns.len() - 1] != seq!['.'] && ns[ns.len() - 1] != seq!['.', '.']);
        assert(ds.last() == text_desc(ns.last()));
        assert(ds.last().0 == 4);
        assert(verbatim_fold(buf, ds) =~= buf + ds);
    }
}

/// Two paths that agree up to and including the root of a verbatim path
/// `b` open as it does.
proof fn lemma_verbatim_head(a: Seq<char>, b: Seq<char>, sep: char)
    requires
        is_verbatim_kind(prefix_kind(b, sep)),
        has_physical_root(b, sep),
        prefix_kind(b, sep) == PrefixKind::VerbatimUnc ==> piece_end(b, sep, 8, true) < prefix_len(b, sep),
        a.len() > prefix_len(b, sep),
        forall|k: int| 0 <= k <= prefix_len(b, sep) ==> a[k] == b[k],
    ensures
        same_head(a, b, sep),
        b[prefix_len(b, sep)] == '\\',
        sep == '\\',
{
    lemma_prefix_len_bounds(b, sep);
    let pl = prefix_len(b, sep);
    assert(a[0] == b[0] && a[1] == b[1] && a[2] == b[2] && a[3] == b[3]);
    assert(pl >= 4);
    if prefix_kind(b, sep) == PrefixKind::VerbatimUnc {
        assert(a[4] == b[4] && a[5] == b[5] && a[6] == b[6] && a[7] == b[7]);
        lemma_piece_end(b, sep, 8, true);
        let e = piece_end(b, sep, 8, true);
        assert forall|k: int| 8 <= k < e implies !breaks(#[trigger] a[k], sep, true) by {
            assert(a[k] == b[k]);
        }
        assert(a[e] == b[e]);
        lemma_piece_end_at_v(a, sep, 8, e, true);
        if e < b.len() {
            lemma_piece_end(b, sep, e + 1, true);
            let e2 = piece_end(b, sep, e + 1, true);
            if e2 > e + 1 {
                assert forall|k: int| e + 1 <= k < e2 implies !breaks(#[trigger] a[k], sep, true) by {
                    assert(a[k] == b[k]);
                }
                assert(a[e2] == b[e2]);
                lemma_piece_end_at_v(a, sep, e + 1, e2, true);
            }
        }
    } else if prefix_kind(b, sep) == PrefixKind::VerbatimDisk {
        assert(a[4] == b[4] && a[5] == b[5] && a[6] == b[6]);
    } else {
        lemma_piece_end(b, sep, 4, true);
        assert forall|k: int| 4 <= k < pl implies !breaks(#[trigger] a[k], sep, true) by {
            assert(a[k] == b[k]);
        }
        assert(a[pl] == b[pl]);
        lemma_piece_end_at_v(a, sep, 4, pl, true);
        if pl >= 5 {
            assert(a[4] == b[4]);
        }
        if pl >= 6 {
            assert(a[5] == b[5]);
        }
        if pl >= 7 {
            assert(a[6] == b[6]);
        }
        if pl >= 8 {
            assert(a[7] == b[7]);
        }
    }
    assert(prefix_kind(a, sep) == prefix_kind(b, sep));
    assert(a[pl] == b[pl]);
}

/// The key a component other than a prefix or a root has from its text.
pub open spec fn text_key(t: Seq<char>) -> Seq<u32> {
    if t == seq!['.'] {
        seq![2u32]
    } else if t == seq!['.', '.'] {
        seq![3u32]
    } else {
        seq![4u32] + t.map_values(|ch: char| ch as u32)
    }
}

/// The keys of a verbatim path with a root, from the texts of its pieces.
proof fn lemma_keys_of_verbatim(p: Seq<char>, sep: char, body: Seq<(int, int)>, ts: Seq<Seq<char>>)
    requires
        is_verbatim_kind(prefix_kind(p, sep)),
        has_physical_root(p, sep),
        components(p, sep) == seq![(0int, prefix_len(p, sep)), (prefix_len(p, sep), prefix_len(p, sep) + 1)] + body,
        body.len() == ts.len(),
        forall|k: int| 0 <= k < body.len() ==> (#[trigger] body[k]).0 >= prefix_len(p, sep) + 1 && span_text(p, body[k]) == ts[k],
    ensures
        path_key(p, sep) == seq![prefix_key(prefix_kind(p, sep), p.subrange(0, prefix_len(p, sep)), sep), seq![1u32]]
            + ts.map_values(|t: Seq<char>| text_key(t)),
{
    reveal(path_key);
    lemma_prefix_len_bounds(p, sep);
    let cs = components(p, sep);
    let want = seq![prefix_key(prefix_kind(p, sep), p.subrange(0, prefix_len(p, sep)), sep), seq![1u32]]
        + ts.map_values(|t: Seq<char>| text_key(t));
    assert forall|k: int| 0 <= k < cs.len() implies path_key(p, sep)[k] == want[k] by {
        if k >= 2 {
            assert(cs[k] == body[k - 2]);
        }
    }
    assert(path_key(p, sep) =~= want);
}

/// A verbatim path with a root: its pieces, their kinds and its keys.
proof fn lemma_verbatim_base_parts(base: Seq<char>, sep: char) -> (ts: Seq<Seq<char>>)
    requires
        is_verbatim_kind(prefix_kind(base, sep)),
        has_physical_root(base, sep),
        prefix_kind(base, sep) == PrefixKind::VerbatimUnc ==> piece_end(base, sep, 8, true) < prefix_len(base, sep),
    ensures
        comp_descs(base, sep) == seq![(0u8, base.subrange(0, prefix_len(base, sep))), (1u8, seq![sep])]
            + ts.map_values(|t: Seq<char>| text_desc(t)),
        path_key(base, sep) == seq![prefix_key(prefix_kind(base, sep), base.subrange(0, prefix_len(base, sep)), sep), seq![1u32]]
            + ts.map_values(|t: Seq<char>| text_key(t)),
        forall|k: int| 0 <= k < ts.len() ==> is_vpiece(#[trigger] ts[k]),
        sep == '\\',
        base[prefix_len(base, sep)] == '\\',
{
    lemma_prefix_len_bounds(base, sep);
    let pl = prefix_len(base, sep);
    lemma_verbatim_head(base, base, sep);
    let bs = pl + 1;
    let cf = comps_from(base, sep, bs, false, true);
    assert(body_start(base, sep) == bs);
    assert(components(base, sep) =~= seq![(0int, pl), (pl, pl + 1)] + cf);
    lemma_vcomps_pieces(base, sep, bs, false);
    let ts = cf.map_values(|c: (int, int)| span_text(base, c));
    let bd = seq![(0u8, base.subrange(0, pl)), (1u8, seq![sep])] + ts.map_values(|t: Seq<char>| text_desc(t));
    let cs = components(base, sep);
    assert forall|k: int| 0 <= k < cs.len() implies comp_descs(base, sep)[k] == bd[k] by {
        if k >= 2 {
            assert(cs[k] == cf[k - 2]);
            assert(cf[k - 2].0 >= bs);
        }
    }
    assert(comp_descs(base, sep) =~= bd);
    assert forall|k: int| 0 <= k < cf.len() implies (#[trigger] cf[k]).0 >= pl + 1 && span_text(base, cf[k]) == ts[k] by {}
    lemma_keys_of_verbatim(base, sep, cf, ts);
    assert forall|k: int| 0 <= k < ts.len() implies is_vpiece(#[trigger] ts[k]) by {
        assert(ts[k] == span_text(base, cf[k]));
    }
    ts
}

/// Names as rebuilt components.
proof fn lemma_names_descs(names: Seq<Seq<char>>, sep: char)
    requires
        names.len() >= 1,
        forall|k: int| 0 <= k < names.len() ==> is_name(#[trigger] names[k], sep),
        !has_drive(names[0], sep),
    ensures
        comp_descs(joined(names, sep), sep) == names.map_values(|t: Seq<char>| text_desc(t)),
        prefix_kind(joined(names, sep), sep) == PrefixKind::NoPrefix,
        forall|k: int| 0 <= k < names.len() ==> #[trigger] names[k] != seq!['.'] && names[k] != seq!['.', '.'],
{
    let j = joined(names, sep);
    lemma_joined_len(names, sep);
    assert(is_name(names[0], sep));
    lemma_joined_no_drive(names, sep);
    assert(!opens_with_two_seps(j, sep));
    assert(j.subrange(0, j.len() as int) =~= j);
    lemma_comps_of_names(j, sep, 0, names, true);
    lemma_name_spans_len(names, 0);
    assert(!has_physical_root(j, sep));
    assert(components(j, sep) =~= name_spans(names, 0));
    let nd = names.map_values(|t: Seq<char>| text_desc(t));
    assert forall|k: int| 0 <= k < names.len() implies comp_descs(j, sep)[k] == nd[k] by {
        let c = name_spans(names, 0)[k];
        assert(components(j, sep)[k] == c);
        assert(span_text(j, c) == names[k]);
        assert(is_name(names[k], sep));
    }
    assert(comp_descs(j, sep) =~= nd);
    assert forall|k: int| 0 <= k < names.len() implies #[trigger] names[k] != seq!['.'] && names[k] != seq!['.', '.'] by {
        assert(is_name(names[k], sep));
    }
}

/// The components of the path rebuilt from a verbatim base with a root and
/// pieces after it.
proof fn lemma_verbatim_result_comps(base: Seq<char>, sep: char, all: Seq<Seq<char>>, p: Seq<char>)
    requires
        is_verbatim_kind(prefix_kind(base, sep)),
        has_physical_root(base, sep),
        prefix_kind(base, sep) == PrefixKind::VerbatimUnc ==> piece_end(base, sep, 8, true) < prefix_len(base, sep),
        base[prefix_len(base, sep)] == '\\',
        sep == '\\',
        all.len() >= 1,
        forall|k: int| 0 <= k < all.len() ==> is_vpiece(#[trigger] all[k]),
        p == base.subrange(0, prefix_len(base, sep)) + seq![sep] + joined(all, sep),
    ensures
        same_head(p, base, sep),
        components(p, sep) == seq![(0int, prefix_len(base, sep)), (prefix_len(base, sep), prefix_len(base, sep) + 1)]
            + name_spans(all, prefix_len(base, sep) + 1),
        name_spans(all, prefix_len(base, sep) + 1).last().1 == p.len(),
        forall|k: int| 0 <= k < all.len() ==> span_text(p, #[trigger] name_spans(all, prefix_len(base, sep) + 1)[k]) == all[k],
        p.subrange(0, prefix_len(base, sep)) == base.subrange(0, prefix_len(base, sep)),
{
    lemma_prefix_len_bounds(base, sep);
    let pl = prefix_len(base, sep);
    assert forall|k: int| 0 <= k <= pl implies p[k] == base[k] by {
        if k < pl {
            assert(p[k] == base.subrange(0, pl)[k]);
        }
    }
    lemma_verbatim_head(p, base, sep);
    assert(p.subrange(pl + 1, p.len() as int) =~= joined(all, sep));
    lemma_vcomps_of_pieces(p, sep, pl + 1, all, false);
    assert(body_start(p, sep) == pl + 1);
    assert(components(p, sep) =~= seq![(0int, pl), (pl, pl + 1)] + name_spans(all, pl + 1));
    assert(p.subrange(0, pl) =~= base.subrange(0, pl));
}

/// The keys of the path rebuilt from a verbatim base with a root and
/// pieces after it.
proof fn lemma_verbatim_result_keys(base: Seq<char>, sep: char, all: Seq<Seq<char>>, p: Seq<char>)
    requires
        same_head(p, base, sep),
        is_verbatim_kind(prefix_kind(base, sep)),
        has_physical_root(base, sep),
        components(p, sep) == seq![(0int, prefix_len(base, sep)), (prefix_len(base, sep), prefix_len(base, sep) + 1)]
            + name_spans(all, prefix_len(base, sep) + 1),
        forall|k: int| 0 <= k < all.len() ==> span_text(p, #[trigger] name_spans(all, prefix_len(base, sep) + 1)[k]) == all[k],
        p.subrange(0, prefix_len(base, sep)) == base.subrange(0, prefix_len(base, sep)),
    ensures
        path_key(p, sep) == seq![prefix_key(prefix_kind(base, sep), base.subrange(0, prefix_len(base, sep)), sep), seq![1u32]]
            + all.map_values(|t: Seq<char>| text_key(t)),
{
    let pl = prefix_len(base, sep);
    let ns = name_spans(all, pl + 1);
    lemma_name_spans_len(all, pl + 1);
    lemma_name_spans_from(all, pl + 1);
    lemma_keys_of_verbatim(p, sep, ns, all);
}

/// Names joined onto a verbatim path with a root come back when the path is
/// stripped from the result.
proof fn lemma_strip_joined_verbatim(base: Seq<char>, names: Seq<Seq<char>>, sep: char)
    requires
        names.len() >= 1,
        forall|k: int| 0 <= k < names.len() ==> is_name(#[trigger] names[k], sep),
        !has_drive(names[0], sep),
        is_verbatim_kind(prefix_kind(base, sep)),
        has_physical_root(base, sep),
        prefix_kind(base, sep) == PrefixKind::VerbatimUnc ==> piece_end(base, sep, 8, true) < prefix_len(base, sep),
    ensures
        strip_prefix(join(base, joined(names, sep), sep), base, sep) == Some(joined(names, sep)),
{
    let j = joined(names, sep);
    lemma_prefix_len_bounds(base, sep);
    let pl = prefix_len(base, sep);
    let ts = lemma_verbatim_base_parts(base, sep);
    lemma_names_descs(names, sep);
    let hd = (0u8, base.subrange(0, pl));
    let bd = seq![hd, (1u8, seq![sep])] + ts.map_values(|t: Seq<char>| text_desc(t));
    let nd = names.map_values(|t: Seq<char>| text_desc(t));
    lemma_fold_names(bd, names);
    let all = ts + names;
    assert(bd + nd =~= seq![hd, (1u8, seq![sep])] + all.map_values(|t: Seq<char>| text_desc(t)));
    lemma_render_pieces(hd, all, sep);
    let p = join(base, j, sep);
    assert(p == base.subrange(0, pl) + seq![sep] + joined(all, sep));
    assert forall|k: int| 0 <= k < all.len() implies is_vpiece(#[trigger] all[k]) by {
        if k < ts.len() {
            assert(all[k] == ts[k]);
        } else {
            assert(all[k] == names[k - ts.len()]);
            assert(is_name(names[k - ts.len()], sep));
        }
    }
    lemma_verbatim_result_comps(base, sep, all, p);
    lemma_verbatim_result_keys(base, sep, all, p);
    let ns = name_spans(all, pl + 1);
    let cp = components(p, sep);
    let kp = path_key(p, sep);
    let kb = path_key(base, sep);
    let m = ts.len() as int;
    lemma_name_spans_len(all, pl + 1);
    assert(kp.subrange(0, kb.len() as int) =~= kb) by {
        assert forall|k: int| 0 <= k < kb.len() implies kp[k] == kb[k] by {
            if k >= 2 {
                assert(all[k - 2] == ts[k - 2]);
            }
        }
    }
    lemma_joined_len(names, sep);
    if m == 0 {
        assert(all =~= names);
        assert(ns[0].0 == pl + 1);
    } else {
        lemma_name_spans_at(ts, names, pl + 1, sep);
        lemma_joined_append(ts, names, sep);
        lemma_joined_len(ts, sep);
    }
    assert(cp[kb.len() as int] == ns[m]);
    assert(cp.last() == ns.last());
    assert(p.subrange(cp[kb.len() as int].0, cp.last().1) =~= j);
}

proof fn lemma_keys_lt_last(ks: Seq<Seq<u32>>, x: Seq<u32>, y: Seq<u32>)
    ensures
        keys_lt(ks.push(x), ks.push(y)) == units_lt(x, y),
    decreases ks.len(),
{
    reveal(keys_lt);
    lemma_units_lt_total(x, y);
    if ks.len() == 0 {
        assert(seq![x].drop_first() =~= Seq::<Seq<u32>>::empty());
        assert(ks.push(x) =~= seq![x]);
        assert(ks.push(y) =~= seq![y]);
        assert(seq![y].drop_first() =~= Seq::<Seq<u32>>::empty());
        lemma_units_lt_total(x, x);
        assert(!keys_lt(Seq::<Seq<u32>>::empty(), Seq::<Seq<u32>>::empty()));
    } else {
        lemma_keys_lt_last(ks.drop_first(), x, y);
        assert(ks.push(x).drop_first() =~= ks.drop_first().push(x));
        assert(ks.push(y).drop_first() =~= ks.drop_first().push(y));
        assert(ks.push(x)[0] == ks[0] && ks.push(y)[0] == ks[0]);
    }
}

proof fn lemma_units_lt_tagged(t: u32, a: Seq<u32>, b: Seq<u32>)
    ensures
        units_lt(seq![t] + a, seq![t] + b) == units_lt(a, b),
{
    reveal(units_lt);
    assert((seq![t] + a).drop_first() =~= a);
    assert((seq![t] + b).drop_first() =~= b);
}

/// The keys of a path made of a directory `q` (ending with a separator)
/// and one name: those of `q`, then the name's.
proof fn lemma_key_of_name_in_dir(q: Seq<char>, a: Seq<char>, sep: char)
    requires
        q.len() > 0,
        is_sep(q.last(), sep),
        !opens_with_two_seps(q, sep) || settled_prefix(q, sep),
        is_name(a, sep),
    ensures
        path_key(q + a, sep) == path_key(q, sep).push(seq![4u32] + a.map_values(|ch: char| ch as u32)),
{
    reveal(path_key);
    let names = seq![a];
    assert(joined(names, sep) == a);
    assert forall|k: int| 0 <= k < names.len() implies is_name(#[trigger] names[k], sep) by {}
    lemma_components_then_names(q, names, sep);
    let p = q + a;
    let cq = components(q, sep);
    lemma_components_well_formed(q, sep);
    lemma_prefix_len_bounds(q, sep);
    assert(p.subrange(0, q.len() as int) =~= q);
    lemma_keys_in_prefix(q, p, sep, cq);
    let c = (q.len() as int, (q.len() + a.len()) as int);
    lemma_name_spans_len(names, q.len() as int);
    assert(name_spans(names, q.len() as int) =~= seq![c]);
    assert(components(p, sep) =~= cq.push(c));
    let pl = prefix_len(q, sep);
    if !settled_prefix(q, sep) {
        if q.len() >= 2 {
            lemma_plain_head(q, q, sep);
        }
        if has_drive(q, sep) {
            assert(!is_sep(q[1], sep));
        }
    }
    assert(pl < q.len());
    assert(span_text(p, c) =~= a);
    assert(comp_key(p, sep, c) == seq![4u32] + a.map_values(|ch: char| ch as u32));
    assert(path_key(p, sep) =~= path_key(q, sep).push(seq![4u32] + a.map_values(|ch: char| ch as u32)));
}

/// Two names in one directory are the same path only when they are the same
/// text, letter case included, and their paths are ordered as the names'
/// characters are.
pub proof fn lemma_names_in_a_directory(q: Seq<char>, a: Seq<char>, b: Seq<char>, sep: char)
    requires
        q.len() > 0,
        is_sep(q.last(), sep),
        !opens_with_two_seps(q, sep) || settled_prefix(q, sep),
        is_name(a, sep),
        is_name(b, sep),
    ensures
        path_key(q + a, sep) == path_key(q + b, sep) <==> a == b,
        crate::text::text_lt(a, b) ==> keys_lt(path_key(q + a, sep), path_key(q + b, sep)),
{
    lemma_key_of_name_in_dir(q, a, sep);
    lemma_key_of_name_in_dir(q, b, sep);
    let ca = a.map_values(|ch: char| ch as u32);
    let cb = b.map_values(|ch: char| ch as u32);
    lemma_text_order_is_code_point_order(a, b);
    lemma_keys_lt_last(path_key(q, sep), seq![4u32] + ca, seq![4u32] + cb);
    lemma_units_lt_tagged(4u32, ca, cb);
    if path_key(q + a, sep) == path_key(q + b, sep) {
        assert(path_key(q + a, sep).last() == path_key(q + b, sep).last());
        assert((seq![4u32] + ca).drop_first() =~= ca);
        assert((seq![4u32] + cb).drop_first() =~= cb);
    }
}

/// Whether names joined onto `base` stay below it.  They do unless, on
/// Windows, `base` opens with two separators and has no prefix (the names
/// would make `\\server` a server share), has an empty device name
/// `\\.\`, or has a verbatim prefix with no root after it or a verbatim
/// server with no share (the rebuilt path reads the names into the prefix
/// or puts a root before them).
pub open spec fn keeps_names_below(base: Seq<char>, sep: char) -> bool {
    ||| !opens_with_two_seps(base, sep)
    ||| (prefix_kind(base, sep) == PrefixKind::Unc || prefix_kind(base, sep) == PrefixKind::DeviceNs)
        && !(prefix_len(base, sep) == base.len() && is_sep(base.last(), sep))
    ||| is_verbatim_kind(prefix_kind(base, sep)) && has_physical_root(base, sep)
        && (prefix_kind(base, sep) == PrefixKind::VerbatimUnc ==> piece_end(base, sep, 8, true) < prefix_len(base, sep))
}

/// A path made by joining names onto `base` comes back as those names,
/// joined by the separator, when `base` is stripped from it.  Left out are
/// a first name shaped like a drive (`X:...` on Windows), which would
/// replace `base`, and the bases that [`keeps_names_below`] leaves out.
pub proof fn lemma_strip_joined(base: Seq<char>, names: Seq<Seq<char>>, sep: char)
    requires
        names.len() >= 1,
        forall|k: int| 0 <= k < names.len() ==> is_name(#[trigger] names[k], sep),
        !has_drive(names[0], sep),
        keeps_names_below(base, sep),
    ensures
        strip_prefix(join(base, joined(names, sep), sep), base, sep) == Some(joined(names, sep)),
{
    if is_verbatim_kind(prefix_kind(base, sep)) {
        assert(opens_verbatim(base, sep));
        lemma_strip_joined_verbatim(base, names, sep);
    } else {
        lemma_strip_joined_plain(base, names, sep);
    }
}

/// [`lemma_strip_joined`] for a base without a verbatim prefix.
proof fn lemma_strip_joined_plain(base: Seq<char>, names: Seq<Seq<char>>, sep: char)
    requires
        names.len() >= 1,
        forall|k: int| 0 <= k < names.len() ==> is_name(#[trigger] names[k], sep),
        !has_drive(names[0], sep),
        keeps_names_below(base, sep),
        !is_verbatim_kind(prefix_kind(base, sep)),
    ensures
        strip_prefix(join(base, joined(names, sep), sep), base, sep) == Some(joined(names, sep)),
{
    reveal(path_key);
    let j = joined(names, sep);
    lemma_joined_len(names, sep);
    assert(is_name(names[0], sep));
    lemma_joined_no_drive(names, sep);
    assert(!opens_with_two_seps(j, sep));
    assert(prefix_kind(j, sep) == PrefixKind::NoPrefix);
    lemma_prefix_len_bounds(base, sep);
    let two = opens_with_two_seps(base, sep);
    if !two {
        if base.len() >= 2 {
            lemma_plain_head(base, base, sep);
        } else {
            assert(!has_drive(base, sep));
        }
        assert((prefix_kind(base, sep) == PrefixKind::Disk) == has_drive(base, sep));
    }
    assert(!is_verbatim_kind(prefix_kind(base, sep)));
    let q = if base.len() == 0 || is_sep(base.last(), sep) || (has_drive(base, sep) && base.len() == 2) {
        base
    } else {
        base.push(sep)
    };
    let p = join(base, j, sep);
    assert(p == q + j);
    let pl = prefix_len(base, sep);
    if two {
        if prefix_kind(base, sep) == PrefixKind::DeviceNs {
            lemma_piece_end(base, sep, 4, false);
        } else {
            lemma_piece_end(base, sep, server_end(base, sep) + 1, false);
        }
        assert(pl < base.len() ==> has_physical_root(base, sep));
    }
    if q != base {
        if two && pl == base.len() {
            lemma_bare_prefix_keys(base, sep);
        } else {
            lemma_components_push_sep(base, sep);
            if base.len() == 1 {
                assert(q[1] == sep);
                assert(!is_sep(q[0], sep));
            } else {
                assert(q[0] == base[0] && q[1] == base[1]);
            }
            if two {
                assert(q == base + seq![sep]);
                lemma_settled_head(base, seq![sep], sep);
            } else {
                assert(!opens_with_two_seps(q, sep));
            }
            assert(has_drive(q, sep) == has_drive(base, sep));
            lemma_components_well_formed(base, sep);
            assert(q.subrange(0, base.len() as int) =~= base);
            lemma_keys_in_prefix(base, q, sep, components(base, sep));
            assert(path_key(q, sep) =~= path_key(base, sep));
        }
    } else if two {
        assert(settled_prefix(q, sep));
    }
    assert(path_key(q, sep) == path_key(base, sep));
    lemma_components_then_names(q, names, sep);
    let cq = components(q, sep);
    let cp = components(p, sep);
    lemma_components_well_formed(q, sep);
    lemma_prefix_len_bounds(q, sep);
    assert(p.subrange(0, q.len() as int) =~= q);
    lemma_keys_in_prefix(q, p, sep, cq);
    let kp = path_key(p, sep);
    let kb = path_key(base, sep);
    assert(kb.len() == cq.len());
    assert(cp == cq + name_spans(names, q.len() as int));
    assert(kp.subrange(0, kb.len() as int) =~= kb) by {
        assert forall|k: int| 0 <= k < kb.len() implies kp[k] == kb[k] by {
            assert(cp[k] == cq[k]);
            assert(kp[k] == comp_key(p, sep, cq[k]));
            assert(kb[k] == comp_key(q, sep, cq[k]));
            assert(cq.map_values(|c: (int, int)| comp_key(p, sep, c))[k] == comp_key(p, sep, cq[k]));
            assert(cq.map_values(|c: (int, int)| comp_key(q, sep, c))[k] == comp_key(q, sep, cq[k]));
        }
    }
    assert(name_spans(names, q.len() as int)[0] == (q.len() as int, (q.len() + names[0].len()) as int));
    assert(cp[kb.len() as int] == name_spans(names, q.len() as int)[0]);
    assert(cp.last() == name_spans(names, q.len() as int).last());
    assert(p.subrange(q.len() as int, p.len() as int) =~= j);
}

} // verus!
