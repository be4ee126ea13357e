//! Configuration bundles: the files of a configuration, encoded for transfer,
//! with their digests.
use vstd::prelude::*;

use crate::clock::{rfc3339_utc_shaped, utc_now_rfc3339};
use crate::codec::{base64_decode, base64_encode, base64_encoding, compute_sha256, decode_error_text, hex_lower, sha256};
use crate::error::{err_msg, bytes_result_view, string_result_view, ErrorKind, ErrorView, OctError};
use crate::pathname::{has_drive, is_name, keeps_names_below, join, join_str, joined, last_two_names, last_two_names_exec, lemma_strip_joined, strip_prefix, strip_prefix_exec};
use crate::paths::{scan_roots_of, PathDiscovery};
use crate::text::{decimal, decimal_exec, has_prefix, push_chars, push_str, replace_char, replace_char_exec, str_eq, string_from_chars};
use vstd::string::StringSliceAdditionalSpecFns;
use vstd::utf8::encode_utf8;
use crate::text::{
    after_last_char, after_last_char_exec, chars_ascii_upper, chars_eq, chars_of, concat2, find_char,
    find_char_exec, has_char, has_char_exec, lemma_after_last_char, lemma_find_char, seq_ascii_upper, concat3,
};

verus! {

/// The largest size of one file in a bundle, in bytes.
pub const MAX_FILE_SIZE: usize = 1048576;

/// The largest total size of the files of a bundle, in bytes.
pub const MAX_BUNDLE_SIZE: usize = 10485760;

/// One file of a bundle: its path relative to the configuration directory,
/// its content in base64, the hexadecimal SHA-256 digest of its content and
/// its size in bytes.
#[derive(Debug)]
pub struct FileEntry {
    pub path: String,
    pub content_base64: String,
    pub sha256: String,
    pub size: usize,
}

/// A file entry as plain values.
pub type EntryView = (Seq<char>, Seq<char>, Seq<char>, usize);

impl View for FileEntry {
    type V = EntryView;

    open spec fn view(&self) -> EntryView {
        (self.path@, self.content_base64@, self.sha256@, self.size)
    }
}

/// A configuration bundle.
#[derive(Debug)]
pub struct ConfigBundle {
    pub schema_version: u32,
    pub created_at: String,
    pub platform: String,
    pub files: Vec<FileEntry>,
    pub total_bytes: usize,
    pub bundle_hash: String,
}

/// What the remote store keeps of a bundle.
#[derive(Debug)]
pub struct MetaInfo {
    pub schema_version: u32,
    pub updated_at: String,
    pub file_count: usize,
    pub total_bytes: usize,
    pub bundle_hash: String,
    pub platform: String,
}

pub open spec fn entries_view(v: Seq<FileEntry>) -> Seq<EntryView> {
    v.map_values(|e: FileEntry| e@)
}

/// The bytes that are hashed into a bundle's digest: for each file in
/// order, the UTF-8 bytes of its path and then those of its digest.
pub open spec fn hash_input(files: Seq<EntryView>) -> Seq<u8>
    decreases files.len(),
{
    if files.len() == 0 {
        seq![]
    } else {
        hash_input(files.drop_last()) + encode_utf8(files.last().0) + encode_utf8(files.last().2)
    }
}

/// The digest input of two runs of files is the input of the first run
/// followed by that of the second.
pub proof fn lemma_hash_input_append(fs: Seq<EntryView>, gs: Seq<EntryView>)
    ensures
        hash_input(fs + gs) == hash_input(fs) + hash_input(gs),
    decreases gs.len(),
{
    if gs.len() == 0 {
        assert(fs + gs =~= fs);
        assert(hash_input(fs) + hash_input(gs) =~= hash_input(fs));
    } else {
        lemma_hash_input_append(fs, gs.drop_last());
        assert((fs + gs).drop_last() =~= fs + gs.drop_last());
        assert((fs + gs).last() == gs.last());
        assert(hash_input(fs + gs) =~= hash_input(fs) + hash_input(gs));
    }
}

/// Every file, whatever its size, adds its path and then its digest, as
/// UTF-8 bytes, to the digest input: the input of files is the input of
/// each file in turn.
pub proof fn lemma_hash_input_covers_every_file(fs: Seq<EntryView>, e: EntryView)
    ensures
        hash_input(seq![e]) == encode_utf8(e.0) + encode_utf8(e.2),
        hash_input(fs.push(e)) == hash_input(fs) + encode_utf8(e.0) + encode_utf8(e.2),
        hash_input(seq![e] + fs) == encode_utf8(e.0) + encode_utf8(e.2) + hash_input(fs),
{
    assert(seq![e].drop_last() =~= Seq::<EntryView>::empty());
    assert(seq![e].last() == e);
    assert(hash_input(Seq::<EntryView>::empty()) =~= Seq::<u8>::empty());
    assert(hash_input(seq![e]) =~= encode_utf8(e.0) + encode_utf8(e.2));
    lemma_hash_input_append(fs, seq![e]);
    assert(fs + seq![e] =~= fs.push(e));
    lemma_hash_input_append(seq![e], fs);
}

/// The digest of a bundle with these files.
pub open spec fn bundle_digest(files: Seq<EntryView>) -> Seq<char> {
    hex_lower(sha256(hash_input(files)))
}

/// Strips the first directory of `bases` that opens `abs`, with backslashes
/// turned into slashes.
pub open spec fn relative_from(abs: Seq<char>, bases: Seq<Seq<char>>, sep: char) -> Option<Seq<char>>
    decreases bases.len(),
{
    if bases.len() == 0 {
        None
    } else {
        match strip_prefix(abs, bases[0], sep) {
            Some(rest) => Some(replace_char(rest, '\\', '/')),
            None => relative_from(abs, bases.drop_first(), sep),
        }
    }
}

/// The path of a configuration file relative to the active directories: the
/// rest of it after the first active directory that opens it, or else its
/// parent's name and its own name joined by `/`.
pub open spec fn relative_path_result(abs: Seq<char>, bases: Seq<Seq<char>>, sep: char) -> Result<Seq<char>, ErrorView> {
    match relative_from(abs, bases, sep) {
        Some(rel) => Ok(rel),
        None => match last_two_names(abs, sep) {
            Some((parent, name)) => Ok(parent.push('/') + name),
            None => Err(err_msg(ErrorKind::PathSecurity, "cannot make relative path for "@ + abs)),
        },
    }
}

/// Whether `s` holds two dots in a row.
pub open spec fn has_dot_dot(s: Seq<char>) -> bool {
    exists|i: int| 0 <= i && i + 1 < s.len() && s[i] == '.' && #[trigger] s[i + 1] == '.'
}

/// The part of the last `/`-separated segment of `p` before its first dot.
pub open spec fn path_stem(p: Seq<char>) -> Seq<char> {
    let seg = p.subrange(after_last_char(p, '/'), p.len() as int);
    seg.subrange(0, find_char(seg, '.'))
}

/// Device names that Windows reserves.
pub open spec fn is_reserved_name(u: Seq<char>) -> bool {
    u == "NUL"@ || u == "CON"@ || u == "PRN"@ || u == "AUX"@ || u == "COM1"@ || u == "LPT1"@
}

/// Why a relative bundle path is refused, as the opening of the error text,
/// or `None` when it is accepted.  The stem is compared with its ASCII
/// letters uppercased: no other character uppercases to a text made only
/// of the letters and digits of the reserved names, so this agrees with a
/// full Unicode uppercasing.  A path that holds `:` is longer than one byte
/// exactly when it is longer than one character.
pub open spec fn path_violation(p: Seq<char>) -> Option<Seq<char>> {
    if (p.len() > 0 && p[0] == '/') || has_dot_dot(p) {
        Some("path contains traversal: "@)
    } else if has_char(p, ':') && p.len() > 1 {
        Some("path contains drive letter: "@)
    } else if has_char(p, '\\') {
        Some("path contains backslash: "@)
    } else if is_reserved_name(seq_ascii_upper(path_stem(p))) {
        Some("path contains reserved name: "@)
    } else {
        None
    }
}

fn has_dot_dot_exec(s: &Vec<char>) -> (r: bool)
    ensures
        r == has_dot_dot(s@),
{
    let mut i: usize = 0;
    while i < s.len() && i + 1 < s.len()
        invariant
            i <= s.len(),
            forall|k: int| 0 <= k < i && k + 1 < s.len() ==> !(s@[k] == '.' && #[trigger] s@[k + 1] == '.'),
        decreases s.len() - i,
    {
        if s[i] == '.' && s[i + 1] == '.' {
            return true;
        }
        i = i + 1;
    }
    assert forall|k: int| 0 <= k && k + 1 < s.len() && s@[k] == '.' implies #[trigger] s@[k + 1] != '.' by {
        assert(k < i);
    }
    false
}

fn is_reserved_exec(u: &Vec<char>) -> (r: bool)
    ensures
        r == is_reserved_name(u@),
{
    chars_eq(u, &chars_of("NUL")) || chars_eq(u, &chars_of("CON")) || chars_eq(u, &chars_of("PRN"))
        || chars_eq(u, &chars_of("AUX")) || chars_eq(u, &chars_of("COM1")) || chars_eq(
        u,
        &chars_of("LPT1"),
    )
}

fn path_stem_exec(p: &Vec<char>) -> (r: Vec<char>)
    ensures
        r@ == path_stem(p@),
{
    proof {
        lemma_after_last_char(p@, '/');
    }
    let a = after_last_char_exec(p, '/');
    let seg = crate::pathname::sub_chars(p, a, p.len());
    proof {
        lemma_find_char(seg@, '.');
    }
    let f = find_char_exec(&seg, '.');
    crate::pathname::sub_chars(&seg, 0, f)
}

/// Accepts a relative path that is safe to write under a target directory:
/// no leading `/`, no `..`, no drive letter, no backslash and no reserved
/// device name; refuses any other with `PathSecurity`.
pub fn validate_path(path: &str) -> (r: Result<(), OctError>)
    ensures
        r is Ok <==> path_violation(path@) is None,
        r matches Err(e) ==> e@ == err_msg(ErrorKind::PathSecurity, path_violation(path@)->Some_0 + path@),
{
    let p = chars_of(path);
    let prefix: &str;
    if (p.len() > 0 && p[0] == '/') || has_dot_dot_exec(&p) {
        prefix = "path contains traversal: ";
    } else if has_char_exec(&p, ':') && p.len() > 1 {
        prefix = "path contains drive letter: ";
    } else if has_char_exec(&p, '\\') {
        prefix = "path contains backslash: ";
    } else {
        let stem = path_stem_exec(&p);
        let upper = chars_ascii_upper(&stem);
        if is_reserved_exec(&upper) {
            prefix = "path contains reserved name: ";
        } else {
            return Ok(());
        }
    }
    let m = concat2(prefix, path);
    Err(OctError::PathSecurity(m))
}

/// A configuration file to bundle, as plain values: its path and what
/// reading it gave.
pub type FileInput = (Seq<char>, Result<Seq<u8>, ErrorView>);

pub open spec fn file_inputs_view(v: Seq<(String, Result<Vec<u8>, OctError>)>) -> Seq<FileInput> {
    v.map_values(|f: (String, Result<Vec<u8>, OctError>)| (f.0@, bytes_result_view(f.1)))
}

/// The entry of a file with this path and content: refused when the file is
/// too large, when no relative path can be made for it, or when the
/// relative path is not safe.
pub open spec fn entry_for(path: Seq<char>, content: Seq<u8>, bases: Seq<Seq<char>>, sep: char) -> Result<EntryView, ErrorView> {
    if content.len() > MAX_FILE_SIZE {
        Err(err_msg(ErrorKind::Bundle, "file "@ + path + " exceeds max size (1048576 bytes)"@))
    } else {
        match relative_path_result(path, bases, sep) {
            Err(e) => Err(e),
            Ok(rel) => match path_violation(rel) {
                Some(m) => Err(err_msg(ErrorKind::PathSecurity, m + rel)),
                None => Ok((rel, base64_encoding(content), hex_lower(sha256(content)), content.len() as usize)),
            },
        }
    }
}

/// The entries of the files, in order, or the first failure met.
pub open spec fn entries_for(files: Seq<FileInput>, bases: Seq<Seq<char>>, sep: char) -> Result<Seq<EntryView>, ErrorView>
    decreases files.len(),
{
    if files.len() == 0 {
        Ok(seq![])
    } else {
        match files[0].1 {
            Err(e) => Err(e),
            Ok(content) => match entry_for(files[0].0, content, bases, sep) {
                Err(e) => Err(e),
                Ok(entry) => match entries_for(files.drop_first(), bases, sep) {
                    Ok(rest) => Ok(seq![entry] + rest),
                    Err(e) => Err(e),
                },
            },
        }
    }
}

/// The sum of the sizes of the entries.
pub open spec fn sizes_total(es: Seq<EntryView>) -> nat
    decreases es.len(),
{
    if es.len() == 0 {
        0
    } else {
        sizes_total(es.drop_last()) + (es.last().3 as nat)
    }
}

/// A bundle as plain values: schema version, creation time, platform,
/// entries, total size and digest.
pub type BundleView = (u32, Seq<char>, Seq<char>, Seq<EntryView>, usize, Seq<char>);

impl View for ConfigBundle {
    type V = BundleView;

    open spec fn view(&self) -> BundleView {
        (
            self.schema_version,
            self.created_at@,
            self.platform@,
            entries_view(self.files@),
            self.total_bytes,
            self.bundle_hash@,
        )
    }
}

/// The bundle made of these files, or the first failure met: schema 1, the
/// given creation time and platform, the entries of the files, their total
/// size, and the digest of the entries.  A total above 10 MiB is refused.
pub open spec fn assembled(
    files: Seq<FileInput>,
    bases: Seq<Seq<char>>,
    sep: char,
    created_at: Seq<char>,
    platform: Seq<char>,
) -> Result<BundleView, ErrorView> {
    if files.len() == 0 {
        Err((ErrorKind::NoConfigFound, seq![], seq![]))
    } else {
    match entries_for(files, bases, sep) {
        Err(e) => Err(e),
        Ok(es) => if sizes_total(es) > MAX_BUNDLE_SIZE {
            Err(err_msg(
                ErrorKind::Bundle,
                "total bundle size "@ + decimal(if sizes_total(es) > usize::MAX { usize::MAX as nat } else { sizes_total(es) }) + " bytes exceeds limit 10485760 bytes"@,
            ))
        } else {
            Ok((1u32, created_at, platform, es, sizes_total(es) as usize, bundle_digest(es)))
        },
    }
    }
}

/// The path of `absolute` relative to the active directories of `discovery`.
pub fn make_relative_path(absolute: &str, discovery: &PathDiscovery, sep: char) -> (r: Result<String, OctError>)
    ensures
        string_result_view(r) == relative_path_result(absolute@, scan_roots_of(*discovery), sep),
{
    let roots = discovery.scan_roots();
    let ghost bases = scan_roots_of(*discovery);
    let abs = chars_of(absolute);
    let mut i: usize = 0;
    assert(bases.skip(0) =~= bases);
    assert forall|k: int| 0 <= k < roots@.len() implies #[trigger] roots@[k]@ == bases[k] by {
        assert(roots@.map_values(|s: String| s@)[k] == roots@[k]@);
    }
    while i < roots.len()
        invariant
            i <= roots@.len(),
            bases == scan_roots_of(*discovery),
            bases.len() == roots@.len(),
            forall|k: int| 0 <= k < roots@.len() ==> #[trigger] roots@[k]@ == bases[k],
            abs@ == absolute@,
            relative_from(absolute@, bases, sep) == relative_from(absolute@, bases.skip(i as int), sep),
        decreases roots.len() - i,
    {
        let base = chars_of(roots[i].as_str());
        assert(base@ == bases[i as int]);
        assert(bases.skip(i as int).len() > 0);
        assert(bases.skip(i as int)[0] == bases[i as int]);
        match strip_prefix_exec(&abs, &base, sep) {
            Some(rest) => {
                let rel = replace_char_exec(&rest, '\\', '/');
                return Ok(string_from_chars(rel.as_slice()));
            },
            None => {},
        }
        assert(bases.skip(i as int).drop_first() =~= bases.skip(i + 1));
        i = i + 1;
    }
    match last_two_names_exec(&abs, sep) {
        Some((parent, name)) => {
            let mut v = parent;
            v.push('/');
            push_chars(&mut v, &name);
            Ok(string_from_chars(v.as_slice()))
        },
        None => Err(OctError::PathSecurity(concat2("cannot make relative path for ", absolute))),
    }
}

impl ConfigBundle {
    /// The digest of the bundle: the hexadecimal SHA-256 of the paths and
    /// digests of its files.
    pub fn compute_hash(&self) -> (r: String)
        ensures
            r@ == bundle_digest(entries_view(self.files@)),
            r@.len() == 64,
    {
        let mut buf: Vec<u8> = Vec::new();
        let mut i: usize = 0;
        let ghost fs = entries_view(self.files@);
        while i < self.files.len()
            invariant
                i <= self.files@.len(),
                fs == entries_view(self.files@),
                buf@ == hash_input(fs.subrange(0, i as int)),
            decreases self.files.len() - i,
        {
            let f = &self.files[i];
            buf.extend_from_slice(f.path.as_str().as_bytes());
            buf.extend_from_slice(f.sha256.as_str().as_bytes());
            assert(fs.subrange(0, i + 1).drop_last() =~= fs.subrange(0, i as int));
            assert(fs.subrange(0, i + 1).last() == f@);
            i = i + 1;
        }
        assert(fs.subrange(0, fs.len() as int) =~= fs);
        let d = compute_sha256(buf.as_slice());
        d
    }

    /// What the remote store keeps of this bundle.
    pub fn to_meta(&self) -> (m: MetaInfo)
        ensures
            m.schema_version == self.schema_version,
            m.updated_at@ == self.created_at@,
            m.file_count == self.files@.len(),
            m.total_bytes == self.total_bytes,
            m.bundle_hash@ == self.bundle_hash@,
            m.platform@ == self.platform@,
    {
        MetaInfo {
            schema_version: self.schema_version,
            updated_at: self.created_at.clone(),
            file_count: self.files.len(),
            total_bytes: self.total_bytes,
            bundle_hash: self.bundle_hash.clone(),
            platform: self.platform.clone(),
        }
    }
}

pub open spec fn entry_result_view(r: Result<FileEntry, OctError>) -> Result<EntryView, ErrorView> {
    match r {
        Ok(e) => Ok(e@),
        Err(e) => Err(e@),
    }
}

pub open spec fn bundle_result_view(r: Result<ConfigBundle, OctError>) -> Result<BundleView, ErrorView> {
    match r {
        Ok(b) => Ok(b@),
        Err(e) => Err(e@),
    }
}

/// The entry of the file at `path` with this content.
fn make_entry(path: &str, content: &[u8], discovery: &PathDiscovery, sep: char) -> (r: Result<FileEntry, OctError>)
    ensures
        entry_result_view(r) == entry_for(path@, content@, scan_roots_of(*discovery), sep),
        r matches Ok(e) ==> e.sha256@.len() == 64,
{
    if content.len() > MAX_FILE_SIZE {
        return Err(OctError::Bundle(concat3("file ", path, " exceeds max size (1048576 bytes)")));
    }
    let rel = make_relative_path(path, discovery, sep)?;
    validate_path(rel.as_str())?;
    let sha = compute_sha256(content);
    let b64 = base64_encode(content);
    Ok(FileEntry { path: rel, content_base64: b64, sha256: sha, size: content.len() })
}

pub open spec fn prepend_ok(a: Seq<EntryView>, r: Result<Seq<EntryView>, ErrorView>) -> Result<Seq<EntryView>, ErrorView> {
    match r {
        Ok(b) => Ok(a + b),
        Err(e) => Err(e),
    }
}

impl ConfigBundle {
    /// The bundle of the configuration files listed by `discovery`, given
    /// in `files` with what reading each gave, made at `created_at` on
    /// `platform`.
    pub fn assemble(
        discovery: &PathDiscovery,
        files: &Vec<(String, Result<Vec<u8>, OctError>)>,
        created_at: String,
        platform: String,
        sep: char,
    ) -> (r: Result<ConfigBundle, OctError>)
        ensures
            bundle_result_view(r) == assembled(file_inputs_view(files@), scan_roots_of(*discovery), sep, created_at@, platform@),
            r matches Ok(b) ==> forall|k: int| 0 <= k < b.files@.len() ==> (#[trigger] b.files@[k]).sha256@.len() == 64,
            r matches Ok(b) ==> b.bundle_hash@.len() == 64,
    {
        if files.len() == 0 {
            return Err(OctError::NoConfigFound);
        }
        let ghost fv = file_inputs_view(files@);
        let ghost bases = scan_roots_of(*discovery);
        let mut entries: Vec<FileEntry> = Vec::new();
        let mut total: usize = 0;
        let mut i: usize = 0;
        assert(fv.skip(0) =~= fv);
        assert(entries_view(entries@) =~= Seq::<EntryView>::empty());
        while i < files.len()
            invariant
                i <= files@.len(),
                fv == file_inputs_view(files@),
                bases == scan_roots_of(*discovery),
                entries_for(fv, bases, sep) == prepend_ok(entries_view(entries@), entries_for(fv.skip(i as int), bases, sep)),
                total as nat == if sizes_total(entries_view(entries@)) > usize::MAX { usize::MAX as nat } else { sizes_total(entries_view(entries@)) },
                forall|k: int| 0 <= k < entries@.len() ==> (#[trigger] entries@[k]).sha256@.len() == 64,
            decreases files.len() - i,
        {
            let ghost rest = fv.skip(i as int);
            assert(rest[0] == fv[i as int]);
            assert(rest.drop_first() =~= fv.skip(i + 1));
            let (path, read) = &files[i];
            match read {
                Err(e) => {
                    return Err(e.copy());
                },
                Ok(content) => {
                    let entry = match make_entry(path.as_str(), content.as_slice(), discovery, sep) {
                        Ok(en) => en,
                        Err(e) => {
                            return Err(e);
                        },
                    };
                    let ghost before = entries_view(entries@);
                    total = total.saturating_add(entry.size);
                    entries.push(entry);
                    assert(entries_view(entries@) =~= before.push(entry@));
                    assert(entries_view(entries@).drop_last() =~= before);
                    assert(before + (seq![entry@] + entries_for(fv.skip(i + 1), bases, sep)->Ok_0) =~= entries_view(entries@) + entries_for(fv.skip(i + 1), bases, sep)->Ok_0);
                },
            }
            i = i + 1;
        }
        assert(fv.skip(files@.len() as int) =~= Seq::<FileInput>::empty());
        assert(entries_view(entries@) + Seq::<EntryView>::empty() =~= entries_view(entries@));
        if total > MAX_BUNDLE_SIZE {
            let mut msg = chars_of("total bundle size ");
            let digits = decimal_exec(total as u64);
            push_chars(&mut msg, &digits);
            push_str(&mut msg, " bytes exceeds limit 10485760 bytes");
            return Err(OctError::Bundle(string_from_chars(msg.as_slice())));
        }
        let mut bundle = ConfigBundle {
            schema_version: 1,
            created_at,
            platform,
            files: entries,
            total_bytes: total,
            bundle_hash: String::new(),
        };
        bundle.bundle_hash = bundle.compute_hash();
        Ok(bundle)
    }

    /// The bundle of the configuration files listed by `discovery`, stamped
    /// with the current time.
    pub fn from_discovery(
        discovery: &PathDiscovery,
        files: &Vec<(String, Result<Vec<u8>, OctError>)>,
        platform: String,
        sep: char,
    ) -> (r: Result<ConfigBundle, OctError>)
        ensures
            exists|t: Seq<char>| rfc3339_utc_shaped(t)
                && bundle_result_view(r) == assembled(file_inputs_view(files@), scan_roots_of(*discovery), sep, t, platform@),
            r matches Ok(b) ==> rfc3339_utc_shaped(b.created_at@),
            r matches Ok(b) ==> forall|k: int| 0 <= k < b.files@.len() ==> (#[trigger] b.files@[k]).sha256@.len() == 64,
            r matches Ok(b) ==> b.bundle_hash@.len() == 64,
    {
        let created_at = utc_now_rfc3339();
        let ghost t = created_at@;
        let r = Self::assemble(discovery, files, created_at, platform, sep);
        assert(rfc3339_utc_shaped(t) && bundle_result_view(r) == assembled(file_inputs_view(files@), scan_roots_of(*discovery), sep, t, platform@));
        r
    }
}

/// Where an entry of a bundle is written under `target_dir`: its path joined
/// onto the directory, once the path is known to be safe.
pub fn entry_target(entry: &FileEntry, target_dir: &str, sep: char) -> (r: Result<String, OctError>)
    ensures
        match path_violation(entry.path@) {
            Some(m) => string_result_view(r) == Err::<Seq<char>, ErrorView>(err_msg(ErrorKind::PathSecurity, m + entry.path@)),
            None => string_result_view(r) == Ok::<Seq<char>, ErrorView>(join(target_dir@, entry.path@, sep)),
        },
{
    validate_path(entry.path.as_str())?;
    Ok(join_str(target_dir, entry.path.as_str(), sep))
}

/// Whether `b64` is the base64 encoding of some bytes whose digest is `sha`.
pub open spec fn encodes_with_digest(b64: Seq<char>, sha: Seq<char>, d: Seq<u8>) -> bool {
    base64_encoding(d) == b64 && hex_lower(sha256(d)) == sha
}

/// The content of an entry, decoded from base64 and checked against its
/// digest.
pub fn entry_content(entry: &FileEntry) -> (r: Result<Vec<u8>, OctError>)
    ensures
        r is Ok <==> exists|d: Seq<u8>| encodes_with_digest(entry.content_base64@, entry.sha256@, d),
        r matches Ok(c) ==> encodes_with_digest(entry.content_base64@, entry.sha256@, c@),
        forall|d: Seq<u8>| #[trigger] encodes_with_digest(entry.content_base64@, entry.sha256@, d)
            ==> bytes_result_view(r) == Ok::<Seq<u8>, ErrorView>(d),
        r matches Err(e) ==> e@.0 == ErrorKind::Bundle,
        r matches Err(e) ==> (exists|d: Seq<u8>| base64_encoding(d) == entry.content_base64@) ==> e@
            == err_msg(ErrorKind::Bundle, "sha256 mismatch for file "@ + entry.path@),
        r matches Err(e) ==> !(exists|d: Seq<u8>| base64_encoding(d) == entry.content_base64@) ==> has_prefix(
            e@.1,
            "base64 decode failed: "@,
        ),
{
    let content = match base64_decode(entry.content_base64.as_str()) {
        Ok(c) => c,
        Err(e) => {
            let m = concat2("base64 decode failed: ", decode_error_text(&e).as_str());
            proof {
                assert(m@.subrange(0, "base64 decode failed: "@.len() as int) =~= "base64 decode failed: "@);
            }
            return Err(OctError::Bundle(m));
        },
    };
    let actual = compute_sha256(content.as_slice());
    if !str_eq(actual.as_str(), entry.sha256.as_str()) {
        return Err(OctError::Bundle(concat2("sha256 mismatch for file ", entry.path.as_str())));
    }
    assert(encodes_with_digest(entry.content_base64@, entry.sha256@, content@));
    Ok(content)
}

/// A file put into a bundle comes back whole: the entry made of it decodes
/// to exactly its content, and that content matches the entry's digest.
pub proof fn lemma_bundled_file_restores(path: Seq<char>, content: Seq<u8>, bases: Seq<Seq<char>>, sep: char)
    requires
        entry_for(path, content, bases, sep) is Ok,
    ensures
        encodes_with_digest(
            entry_for(path, content, bases, sep)->Ok_0.1,
            entry_for(path, content, bases, sep)->Ok_0.2,
            content,
        ),
        path_violation(entry_for(path, content, bases, sep)->Ok_0.0) is None,
{
}

/// For each file of a bundle in order, and for each target directory in
/// order, where the file would be written and the directory.
pub open spec fn target_pairs(paths: Seq<Seq<char>>, targets: Seq<Seq<char>>, sep: char) -> Seq<(Seq<char>, Seq<char>)>
    decreases paths.len(),
{
    if paths.len() == 0 {
        seq![]
    } else {
        target_pairs(paths.drop_last(), targets, sep) + targets.map_values(|t: Seq<char>| (join(t, paths.last(), sep), t))
    }
}

pub open spec fn entry_paths(files: Seq<FileEntry>) -> Seq<Seq<char>> {
    files.map_values(|e: FileEntry| e.path@)
}

pub open spec fn pairs_view(v: Seq<(String, String)>) -> Seq<(Seq<char>, Seq<char>)> {
    v.map_values(|p: (String, String)| (p.0@, p.1@))
}

/// The files a pull may overwrite, before checking which exist: for each
/// file of the bundle and each target directory, the file's place there and
/// the directory.
pub fn backup_candidates(bundle: &ConfigBundle, targets: &Vec<String>, sep: char) -> (r: Vec<(String, String)>)
    ensures
        pairs_view(r@) == target_pairs(entry_paths(bundle.files@), targets@.map_values(|t: String| t@), sep),
{
    let ghost ts = targets@.map_values(|t: String| t@);
    let ghost ps = entry_paths(bundle.files@);
    let mut r: Vec<(String, String)> = Vec::new();
    let mut i: usize = 0;
    while i < bundle.files.len()
        invariant
            i <= bundle.files@.len(),
            ts == targets@.map_values(|t: String| t@),
            ps == entry_paths(bundle.files@),
            pairs_view(r@) == target_pairs(ps.subrange(0, i as int), ts, sep),
        decreases bundle.files.len() - i,
    {
        let ghost before = pairs_view(r@);
        let mut k: usize = 0;
        while k < targets.len()
            invariant
                i < bundle.files@.len(),
                k <= targets@.len(),
                ts == targets@.map_values(|t: String| t@),
                ps == entry_paths(bundle.files@),
                pairs_view(r@) == before + ts.subrange(0, k as int).map_values(|t: Seq<char>| (join(t, ps[i as int], sep), t)),
            decreases targets.len() - k,
        {
            let full = join_str(targets[k].as_str(), bundle.files[i].path.as_str(), sep);
            let ghost prev = pairs_view(r@);
            assert(ts[k as int] == targets@[k as int]@);
            assert(ps[i as int] == bundle.files@[i as int].path@);
            r.push((full, targets[k].clone()));
            assert(pairs_view(r@) =~= prev.push((join(ts[k as int], ps[i as int], sep), ts[k as int])));
            assert(ts.subrange(0, k + 1).map_values(|t: Seq<char>| (join(t, ps[i as int], sep), t)) =~= ts.subrange(0, k as int).map_values(|t: Seq<char>| (join(t, ps[i as int], sep), t)).push((join(ts[k as int], ps[i as int], sep), ts[k as int])));
            assert(pairs_view(r@) =~= before + ts.subrange(0, k + 1).map_values(|t: Seq<char>| (join(t, ps[i as int], sep), t)));
            k = k + 1;
        }
        assert(ts.subrange(0, ts.len() as int) =~= ts);
        assert(ps.subrange(0, i + 1).drop_last() =~= ps.subrange(0, i as int));
        assert(ps.subrange(0, i + 1).last() == ps[i as int]);
        i = i + 1;
    }
    assert(ps.subrange(0, ps.len() as int) =~= ps);
    r
}

/// Every file of a bundle is safe to write and within the size limit, and
/// the bundle as a whole is within its limit, its total is the sum of its
/// files' sizes and its digest is the one `compute_hash` gives.
pub proof fn lemma_assembled_bundle_is_sound(
    files: Seq<FileInput>,
    bases: Seq<Seq<char>>,
    sep: char,
    created_at: Seq<char>,
    platform: Seq<char>,
)
    requires
        assembled(files, bases, sep, created_at, platform) is Ok,
    ensures
        ({
            let b = assembled(files, bases, sep, created_at, platform)->Ok_0;
            &&& forall|i: int| 0 <= i < b.3.len() ==> path_violation((#[trigger] b.3[i]).0) is None
            &&& forall|i: int| 0 <= i < b.3.len() ==> (#[trigger] b.3[i]).3 <= MAX_FILE_SIZE
            &&& b.4 as nat == sizes_total(b.3)
            &&& b.4 <= MAX_BUNDLE_SIZE
            &&& b.5 == bundle_digest(b.3)
            &&& b.3.len() == files.len()
        }),
{
    lemma_entries_are_sound(files, bases, sep);
}

proof fn lemma_entries_are_sound(files: Seq<FileInput>, bases: Seq<Seq<char>>, sep: char)
    requires
        entries_for(files, bases, sep) is Ok,
    ensures
        ({
            let es = entries_for(files, bases, sep)->Ok_0;
            &&& es.len() == files.len()
            &&& forall|i: int| 0 <= i < es.len() ==> path_violation((#[trigger] es[i]).0) is None
            &&& forall|i: int| 0 <= i < es.len() ==> (#[trigger] es[i]).3 <= MAX_FILE_SIZE
        }),
    decreases files.len(),
{
    if files.len() > 0 {
        lemma_entries_are_sound(files.drop_first(), bases, sep);
        let es = entries_for(files, bases, sep)->Ok_0;
        let rest = entries_for(files.drop_first(), bases, sep)->Ok_0;
        assert forall|i: int| 0 <= i < es.len() implies path_violation((#[trigger] es[i]).0) is None && es[i].3 <= MAX_FILE_SIZE by {
            if i > 0 {
                assert(es[i] == rest[i - 1]);
            }
        }
    }
}

/// A file found under the first active directory, at names `n1/.../nk`
/// below it, is bundled under `n1/.../nk` (with slashes between the names,
/// and backslashes within names turned into slashes).  On Windows a first
/// name shaped like a drive (`X:...`) is left out, since joining it would
/// replace the directory, and so are the directories after which the names
/// would become part of a prefix (see `keeps_names_below`).
pub proof fn lemma_relative_path_under_first_root(
    base: Seq<char>,
    names: Seq<Seq<char>>,
    others: Seq<Seq<char>>,
    sep: char,
)
    requires
        names.len() >= 1,
        forall|k: int| 0 <= k < names.len() ==> is_name(#[trigger] names[k], sep),
        !has_drive(names[0], sep),
        keeps_names_below(base, sep),
    ensures
        relative_path_result(join(base, joined(names, sep), sep), seq![base] + others, sep) == Ok::<Seq<char>, ErrorView>(
            replace_char(joined(names, sep), '\\', '/'),
        ),
{
    lemma_strip_joined(base, names, sep);
    assert((seq![base] + others)[0] == base);
}

} // verus!
