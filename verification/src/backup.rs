//! Backups of configuration files taken before they are overwritten.
use vstd::prelude::*;

use crate::clock::{rfc3339_utc_shaped, timestamp_shaped, utc_now_formatted, utc_now_rfc3339};
use crate::codec::{compute_sha256, hex_lower, sha256};
use crate::error::{err_msg, string_result_view, ErrorKind, ErrorView, OctError};
use crate::pathname::{lemma_text_order_is_code_point_order, file_name, file_name_exec, join, join_str, keys_lt, lemma_units_lt_total, lemma_units_lt_trans, strip_prefix, strip_prefix_exec, units_lt, units_lt_exec};
use crate::text::{text_lt, chars_of, concat2, concat3, push_chars, replace_char, replace_char_exec, string_from_chars};

verus! {

/// One backed-up file: where it was, where its copy lies under the backup's
/// `files` directory, and the hexadecimal SHA-256 digest of its content.
#[derive(Debug)]
pub struct BackupFileEntry {
    pub original_path: String,
    pub relative_path: String,
    pub sha256: String,
}

/// A backup: its id, when it was made, what made it, and its files.
#[derive(Debug)]
pub struct BackupManifest {
    pub id: String,
    pub created_at: String,
    pub trigger: String,
    pub files: Vec<BackupFileEntry>,
}

/// Whether `c` is a lowercase hexadecimal digit.
pub open spec fn is_lower_hex(c: char) -> bool {
    ('0' <= c && c <= '9') || ('a' <= c && c <= 'f')
}

/// `uuid::Uuid::new_v4().to_string()`: a random UUID in its hyphenated
/// lowercase form, 36 characters with `-` at 8, 13, 18 and 23 and lowercase
/// hexadecimal digits elsewhere.
#[verifier::external_body]
fn new_uuid_v4() -> (r: String)
    ensures
        r@.len() == 36,
        forall|i: int| 0 <= i < 36 ==> if i == 8 || i == 13 || i == 18 || i == 23 {
            #[trigger] r@[i] == '-'
        } else {
            is_lower_hex(r@[i])
        },
{
    uuid::Uuid::new_v4().to_string()
}

/// The id of a backup made at `timestamp`: the timestamp, `-`, and the
/// first eight characters of `uuid`.
pub fn backup_id(timestamp: &str, uuid: &str) -> (r: String)
    requires
        uuid@.len() >= 8,
    ensures
        r@ == timestamp@ + seq!['-'] + uuid@.subrange(0, 8),
{
    let u = chars_of(uuid);
    let mut v = chars_of(timestamp);
    v.push('-');
    let mut i: usize = 0;
    let ghost v0 = v@;
    while i < 8
        invariant
            i <= 8,
            u@ == uuid@,
            u@.len() >= 8,
            v@ == v0 + u@.subrange(0, i as int),
        decreases 8 - i,
    {
        v.push(u[i]);
        i = i + 1;
    }
    string_from_chars(v.as_slice())
}

/// A fresh backup id: the current time as `%Y%m%d-%H%M%S`, `-`, and eight
/// lowercase hexadecimal digits drawn at random.
pub fn new_backup_id() -> (r: String)
    ensures
        r@.len() >= 24,
        timestamp_shaped(r@.subrange(0, r@.len() - 9)),
        r@[r@.len() - 9] == '-',
        forall|i: int| r@.len() - 8 <= i < r@.len() ==> is_lower_hex(#[trigger] r@[i]),
{
    let ts = utc_now_formatted("%Y%m%d-%H%M%S");
    let u = new_uuid_v4();
    let r = backup_id(ts.as_str(), u.as_str());
    assert(r@.subrange(0, r@.len() - 9) =~= ts@);
    assert forall|i: int| r@.len() - 8 <= i < r@.len() implies is_lower_hex(#[trigger] r@[i]) by {
        let k = i - (r@.len() - 8);
        assert(r@[i] == u@[k]);
        assert(0 <= k < 8);
    }
    r
}

/// Where the copy of `source`, taken from under `base_dir`, lies in a
/// backup: its path after `base_dir`, or else its own name, or else
/// nothing, with backslashes turned into slashes.
pub open spec fn backup_relative_path(source: Seq<char>, base_dir: Seq<char>, sep: char) -> Seq<char> {
    let rel = match strip_prefix(source, base_dir, sep) {
        Some(rest) => rest,
        None => match file_name(source, sep) {
            Some(n) => n,
            None => seq![],
        },
    };
    replace_char(rel, '\\', '/')
}

/// The manifest entry of `source`, taken from under `base_dir`, whose
/// content is `content`.
pub fn backup_file_entry(source: &str, base_dir: &str, content: &[u8], sep: char) -> (r: BackupFileEntry)
    ensures
        r.original_path@ == source@,
        r.relative_path@ == backup_relative_path(source@, base_dir@, sep),
        r.sha256@ == hex_lower(sha256(content@)),
{
    let src = chars_of(source);
    let base = chars_of(base_dir);
    let rel = match strip_prefix_exec(&src, &base, sep) {
        Some(rest) => rest,
        None => match file_name_exec(&src, sep) {
            Some(n) => n,
            None => Vec::new(),
        },
    };
    let rel = replace_char_exec(&rel, '\\', '/');
    BackupFileEntry {
        original_path: String::from_str(source),
        relative_path: string_from_chars(rel.as_slice()),
        sha256: compute_sha256(content),
    }
}

/// Where a backed-up file is put back: at its original path when that path
/// or its parent directory exists (`original_usable`), or else under the
/// `opencode` directory of the user's configuration directory.
pub fn restore_target(
    original_path: &str,
    relative_path: &str,
    original_usable: bool,
    config_dir: Option<&str>,
    sep: char,
) -> (r: Result<String, OctError>)
    ensures
        original_usable ==> string_result_view(r) == Ok::<Seq<char>, ErrorView>(original_path@),
        !original_usable && config_dir is Some ==> string_result_view(r) == Ok::<Seq<char>, ErrorView>(
            join(join(config_dir->Some_0@, "opencode"@, sep), relative_path@, sep),
        ),
        !original_usable && config_dir is None ==> string_result_view(r) == Err::<Seq<char>, ErrorView>(
            err_msg(ErrorKind::Backup, "cannot determine restore path for "@ + relative_path@),
        ),
{
    if original_usable {
        return Ok(String::from_str(original_path));
    }
    match config_dir {
        Some(c) => {
            let dir = join_str(c, "opencode", sep);
            Ok(join_str(dir.as_str(), relative_path, sep))
        },
        None => Err(OctError::Backup(concat2("cannot determine restore path for ", relative_path))),
    }
}

impl BackupManifest {
    /// The manifest of a backup with this id, made now by `trigger`, of
    /// these files.
    pub fn new(id: String, trigger: &str, files: Vec<BackupFileEntry>) -> (m: BackupManifest)
        ensures
            m.id == id,
            m.trigger@ == trigger@,
            m.files == files,
            rfc3339_utc_shaped(m.created_at@),
    {
        BackupManifest { id, created_at: utc_now_rfc3339(), trigger: String::from_str(trigger), files }
    }
}

/// The error for a backup that is not there.
pub fn missing_backup(backup_id: &str) -> (e: OctError)
    ensures
        e@ == err_msg(ErrorKind::Backup, "backup "@ + backup_id@ + " not found"@),
{
    OctError::Backup(concat3("backup ", backup_id, " not found"))
}

/// The code points of a text: texts are ordered as their code points are
/// (which is also the order of their UTF-8 bytes).
pub open spec fn code_points(s: Seq<char>) -> Seq<u32> {
    s.map_values(|c: char| c as u32)
}

pub open spec fn created_key(m: BackupManifest) -> Seq<u32> {
    code_points(m.created_at@)
}

/// `r` is `v` ordered newest first by `created_at`, backups made at the same
/// time keeping their order in `v`; `perm[k]` is where `r[k]` stood in `v`.
pub open spec fn stable_newest_first(v: Seq<BackupManifest>, r: Seq<BackupManifest>, perm: Seq<int>) -> bool {
    &&& perm.len() == v.len()
    &&& r.len() == v.len()
    &&& forall|k: int| 0 <= k < r.len() ==> 0 <= #[trigger] perm[k] < v.len() && r[k] == v[perm[k]]
    &&& forall|k: int, l: int| 0 <= k < l < r.len() ==> #[trigger] perm[k] != #[trigger] perm[l]
    &&& forall|k: int, l: int| 0 <= k < l < r.len() ==> !units_lt(created_key(#[trigger] r[k]), created_key(#[trigger] r[l]))
    &&& forall|k: int, l: int| 0 <= k < l < r.len() && created_key(#[trigger] r[k]) == created_key(#[trigger] r[l]) ==> perm[k] < perm[l]
}

/// Backups come newest first by the whole of their creation time: a
/// backup is never listed before one whose `created_at` text comes after
/// its own, and backups with the same `created_at` keep their order.
pub proof fn lemma_newest_first_by_whole_time(v: Seq<BackupManifest>, r: Seq<BackupManifest>, perm: Seq<int>)
    requires
        stable_newest_first(v, r, perm),
    ensures
        forall|k: int, l: int| 0 <= k < l < r.len() ==> !text_lt(#[trigger] r[k].created_at@, #[trigger] r[l].created_at@),
        forall|k: int, l: int| 0 <= k < l < r.len() && #[trigger] r[k].created_at@ == #[trigger] r[l].created_at@ ==> perm[k] < perm[l],
{
    assert forall|k: int, l: int| 0 <= k < l < r.len() implies !text_lt(#[trigger] r[k].created_at@, #[trigger] r[l].created_at@) by {
        lemma_text_order_is_code_point_order(r[k].created_at@, r[l].created_at@);
        assert(created_key(r[k]) == r[k].created_at@.map_values(|c: char| c as u32));
        assert(created_key(r[l]) == r[l].created_at@.map_values(|c: char| c as u32));
        assert(!units_lt(created_key(r[k]), created_key(r[l])));
    }
    assert forall|k: int, l: int| 0 <= k < l < r.len() && #[trigger] r[k].created_at@ == #[trigger] r[l].created_at@ implies perm[k] < perm[l] by {
        assert(created_key(r[k]) == created_key(r[l]));
    }
}

/// The code points of a string.
pub fn code_points_exec(s: &str) -> (r: Vec<u32>)
    ensures
        r@ == code_points(s@),
{
    let c = chars_of(s);
    let mut r: Vec<u32> = Vec::new();
    let mut i: usize = 0;
    while i < c.len()
        invariant
            i <= c@.len(),
            c@ == s@,
            r@ == code_points(c@.subrange(0, i as int)),
        decreases c.len() - i,
    {
        r.push(c[i] as u32);
        assert(code_points(c@.subrange(0, i + 1)) =~= code_points(c@.subrange(0, i as int)).push(c@[i as int] as u32));
        i = i + 1;
    }
    assert(c@.subrange(0, c@.len() as int) =~= c@);
    r
}

#[verifier::opaque]
pub open spec fn sort_inv(v: Seq<BackupManifest>, out: Seq<BackupManifest>, perm: Seq<int>, i: int) -> bool {
    &&& 0 <= i <= v.len()
    &&& stable_newest_first(v.subrange(0, i), out, perm)
}

proof fn lemma_sort_insert(v: Seq<BackupManifest>, out: Seq<BackupManifest>, perm: Seq<int>, i: int, p: int)
    requires
        sort_inv(v, out, perm, i),
        i < v.len(),
        0 <= p <= out.len(),
        forall|q: int| 0 <= q < p ==> !units_lt(#[trigger] created_key(out[q]), created_key(v[i])),
        p < out.len() ==> units_lt(created_key(out[p]), created_key(v[i])),
    ensures
        sort_inv(v, out.insert(p, v[i]), perm.insert(p, i), i + 1),
{
    reveal(sort_inv);
    let x = v[i];
    let kx = created_key(x);
    let out2 = out.insert(p, x);
    let perm2 = perm.insert(p, i);
    let v1 = v.subrange(0, i);
    let v2 = v.subrange(0, i + 1);
    assert forall|q: int| p <= q < out.len() implies units_lt(#[trigger] created_key(out[q]), kx) by {
        if q > p {
            assert(!units_lt(created_key(out[p]), created_key(out[q])));
            lemma_units_lt_total(created_key(out[p]), created_key(out[q]));
            if created_key(out[q]) != created_key(out[p]) {
                lemma_units_lt_trans(created_key(out[q]), created_key(out[p]), kx);
            }
        }
    }
    assert forall|k: int| 0 <= k < out2.len() implies 0 <= #[trigger] perm2[k] < v2.len() && out2[k] == v2[perm2[k]] by {
        if k < p {
            assert(out2[k] == out[k] && perm2[k] == perm[k]);
            assert(v2[perm[k]] == v1[perm[k]]);
        } else if k > p {
            assert(out2[k] == out[k - 1] && perm2[k] == perm[k - 1]);
            assert(v2[perm[k - 1]] == v1[perm[k - 1]]);
        }
    }
    assert forall|k: int, l: int| 0 <= k < l < out2.len() implies #[trigger] perm2[k] != #[trigger] perm2[l] by {
        if k != p && l != p {
            let k0 = if k < p { k } else { k - 1 };
            let l0 = if l < p { l } else { l - 1 };
            assert(perm2[k] == perm[k0] && perm2[l] == perm[l0]);
        } else if k == p {
            assert(perm2[l] == perm[l - 1]);
        } else {
            assert(perm2[k] == perm[k]);
        }
    }
    assert forall|k: int, l: int| 0 <= k < l < out2.len() implies !units_lt(created_key(#[trigger] out2[k]), created_key(#[trigger] out2[l])) by {
        if k != p && l != p {
            let k0 = if k < p { k } else { k - 1 };
            let l0 = if l < p { l } else { l - 1 };
            assert(out2[k] == out[k0] && out2[l] == out[l0]);
        } else if k == p {
            assert(out2[l] == out[l - 1]);
            lemma_units_lt_total(created_key(out[l - 1]), kx);
        } else {
            assert(out2[k] == out[k]);
        }
    }
    assert forall|k: int, l: int| 0 <= k < l < out2.len() && created_key(#[trigger] out2[k]) == created_key(#[trigger] out2[l]) implies perm2[k] < perm2[l] by {
        if k != p && l != p {
            let k0 = if k < p { k } else { k - 1 };
            let l0 = if l < p { l } else { l - 1 };
            assert(out2[k] == out[k0] && out2[l] == out[l0]);
            assert(perm2[k] == perm[k0] && perm2[l] == perm[l0]);
        } else if k == p {
            assert(out2[l] == out[l - 1]);
            lemma_units_lt_total(kx, kx);
        } else {
            assert(out2[k] == out[k]);
            assert(perm2[k] == perm[k]);
        }
    }
}

/// The backups ordered newest first by creation time; backups made at the
/// same time keep their order.
pub fn sort_newest_first(backups: Vec<BackupManifest>) -> (r: Vec<BackupManifest>)
    ensures
        exists|perm: Seq<int>| stable_newest_first(backups@, r@, perm),
        forall|k: int, l: int| 0 <= k < l < r@.len() ==> !text_lt(#[trigger] r@[k].created_at@, #[trigger] r@[l].created_at@),
{
    let ghost v = backups@;
    let n = backups.len();
    let mut rest = backups;
    let mut out: Vec<BackupManifest> = Vec::new();
    let mut keys: Vec<Vec<u32>> = Vec::new();
    let ghost mut perm: Seq<int> = seq![];
    let mut i: usize = 0;
    assert(sort_inv(v, out@, perm, 0)) by {
        reveal(sort_inv);
    }
    while i < n
        invariant
            i <= n,
            n == v.len(),
            rest@ == v.skip(i as int),
            out@.len() == keys@.len(),
            forall|q: int| 0 <= q < keys@.len() ==> (#[trigger] keys@[q])@ == created_key(out@[q]),
            sort_inv(v, out@, perm, i as int),
        decreases n - i,
    {
        let x = rest.remove(0);
        assert(x == v[i as int]);
        let kx = code_points_exec(x.created_at.as_str());
        let mut p: usize = 0;
        while p < keys.len() && !units_lt_exec(&keys[p], &kx)
            invariant
                p <= keys@.len(),
                out@.len() == keys@.len(),
                kx@ == created_key(x),
                forall|q: int| 0 <= q < keys@.len() ==> (#[trigger] keys@[q])@ == created_key(out@[q]),
                forall|q: int| 0 <= q < p ==> !units_lt(#[trigger] created_key(out@[q]), created_key(x)),
            decreases keys.len() - p,
        {
            p = p + 1;
        }
        proof {
            lemma_sort_insert(v, out@, perm, i as int, p as int);
        }
        let ghost old_keys = keys@;
        let ghost old_out = out@;
        out.insert(p, x);
        keys.insert(p, kx);
        proof {
            perm = perm.insert(p as int, i as int);
            assert(rest@ =~= v.skip(i + 1));
            assert forall|q: int| 0 <= q < keys@.len() implies (#[trigger] keys@[q])@ == created_key(out@[q]) by {
                if q < p {
                    assert(keys@[q] == old_keys[q] && out@[q] == old_out[q]);
                } else if q > p {
                    assert(keys@[q] == old_keys[q - 1] && out@[q] == old_out[q - 1]);
                }
            }
        }
        i = i + 1;
    }
    proof {
        reveal(sort_inv);
        assert(v.subrange(0, n as int) =~= v);
        lemma_newest_first_by_whole_time(v, out@, perm);
    }
    out
}

} // verus!
