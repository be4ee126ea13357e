//! Discovery of the opencode configuration directories and of the
//! configuration files they hold.
use vstd::prelude::*;

use crate::error::OctError;
use crate::pathname::{lemma_keys_lt_total, lemma_keys_lt_trans, keys_lt, keys_lt_exec, keys_eq_exec, keys_view, path_key, path_key_exec, extension_exec, extension_of, file_name, file_name_exec, join, join_str};
use crate::text::{chars_ascii_lower, chars_eq, chars_of, has_prefix, has_prefix_exec, seq_ascii_lower, str_eq};

verus! {

/// Where a candidate directory comes from.
#[derive(Debug, Clone, Copy, PartialEq, Eq, Structural)]
pub enum PathKind {
    UserConfig,
    UserData,
    LegacyHome,
    ManagedConfig,
    EnvOverride,
}

/// A candidate directory, with whether it exists.
#[derive(Debug)]
pub struct DiscoveredPath {
    pub label: String,
    pub path: String,
    pub exists: bool,
    pub kind: PathKind,
}

/// The candidate directories, in order of precedence, and the directories
/// chosen to hold the configuration and the data.
#[derive(Debug)]
pub struct PathDiscovery {
    pub paths: Vec<DiscoveredPath>,
    pub active_config: Option<String>,
    pub active_data: Option<String>,
}

/// What discovery reads from the environment: the `OPENCODE_CONFIG_DIR`
/// and `OPENCODE_DATA_DIR` variables, the user's configuration, data and
/// home directories, and the system-wide managed configuration directory.
#[derive(Debug)]
pub struct DiscoveryEnv {
    pub opencode_config_dir: Option<String>,
    pub opencode_data_dir: Option<String>,
    pub config_dir: Option<String>,
    pub data_dir: Option<String>,
    pub home_dir: Option<String>,
    pub managed_config_dir: Option<String>,
}

/// A candidate directory as plain values: label, path and kind.
pub type Candidate = (Seq<char>, Seq<char>, PathKind);

pub open spec fn candidate_view(d: DiscoveredPath) -> Candidate {
    (d.label@, d.path@, d.kind)
}

pub open spec fn opt_candidate(o: Option<String>, label: Seq<char>, name: Option<Seq<char>>, kind: PathKind, sep: char) -> Seq<Candidate> {
    match o {
        Some(d) => seq![(label, match name { Some(n) => join(d@, n, sep), None => d@ }, kind)],
        None => seq![],
    }
}

/// The candidate directories for an environment, in order of precedence:
/// the two environment overrides, the XDG configuration and data
/// directories, the two legacy directories under the home directory, and
/// the managed configuration directory.
pub open spec fn candidates_for(env: DiscoveryEnv, sep: char) -> Seq<Candidate> {
    opt_candidate(env.opencode_config_dir, "OPENCODE_CONFIG_DIR"@, None, PathKind::EnvOverride, sep)
        + opt_candidate(env.opencode_data_dir, "OPENCODE_DATA_DIR"@, None, PathKind::EnvOverride, sep)
        + opt_candidate(env.config_dir, "XDG config (~/.config/opencode)"@, Some("opencode"@), PathKind::UserConfig, sep)
        + opt_candidate(env.data_dir, "XDG data (~/.local/share/opencode)"@, Some("opencode"@), PathKind::UserData, sep)
        + opt_candidate(env.home_dir, "Legacy ~/.opencode"@, Some(".opencode"@), PathKind::LegacyHome, sep)
        + opt_candidate(env.home_dir, "Legacy ~/opencode"@, Some("opencode"@), PathKind::LegacyHome, sep)
        + opt_candidate(env.managed_config_dir, "Managed config"@, None, PathKind::ManagedConfig, sep)
}

fn push_candidate(
    out: &mut Vec<DiscoveredPath>,
    o: &Option<String>,
    label: &str,
    name: Option<&str>,
    kind: PathKind,
    sep: char,
)
    requires
        forall|i: int| 0 <= i < old(out)@.len() ==> !(#[trigger] old(out)@[i]).exists,
    ensures
        final(out)@.map_values(|d: DiscoveredPath| candidate_view(d)) == old(out)@.map_values(
            |d: DiscoveredPath| candidate_view(d),
        ) + opt_candidate(*o, label@, match name { Some(n) => Some(n@), None => None }, kind, sep),
        forall|i: int| 0 <= i < final(out)@.len() ==> !(#[trigger] final(out)@[i]).exists,
{
    let ghost before = out@.map_values(|d: DiscoveredPath| candidate_view(d));
    match o {
        Some(d) => {
            let path = match name {
                Some(n) => join_str(d.as_str(), n, sep),
                None => d.clone(),
            };
            out.push(DiscoveredPath { label: String::from_str(label), path, exists: false, kind });
            assert(out@.map_values(|d: DiscoveredPath| candidate_view(d)) =~= before + opt_candidate(
                *o,
                label@,
                match name { Some(n) => Some(n@), None => None },
                kind,
                sep,
            ));
        },
        None => {
            assert(out@.map_values(|d: DiscoveredPath| candidate_view(d)) =~= before + opt_candidate(
                *o,
                label@,
                match name { Some(n) => Some(n@), None => None },
                kind,
                sep,
            ));
        },
    }
}

impl PathDiscovery {
    /// The candidate directories for `env`, none yet known to exist.
    pub fn candidates(env: &DiscoveryEnv, sep: char) -> (r: Vec<DiscoveredPath>)
        ensures
            r@.map_values(|d: DiscoveredPath| candidate_view(d)) == candidates_for(*env, sep),
            forall|i: int| 0 <= i < r@.len() ==> !(#[trigger] r@[i]).exists,
    {
        let mut out: Vec<DiscoveredPath> = Vec::new();
        assert(out@.map_values(|d: DiscoveredPath| candidate_view(d)) =~= Seq::<Candidate>::empty());
        push_candidate(&mut out, &env.opencode_config_dir, "OPENCODE_CONFIG_DIR", None, PathKind::EnvOverride, sep);
        push_candidate(&mut out, &env.opencode_data_dir, "OPENCODE_DATA_DIR", None, PathKind::EnvOverride, sep);
        push_candidate(&mut out, &env.config_dir, "XDG config (~/.config/opencode)", Some("opencode"), PathKind::UserConfig, sep);
        push_candidate(&mut out, &env.data_dir, "XDG data (~/.local/share/opencode)", Some("opencode"), PathKind::UserData, sep);
        push_candidate(&mut out, &env.home_dir, "Legacy ~/.opencode", Some(".opencode"), PathKind::LegacyHome, sep);
        push_candidate(&mut out, &env.home_dir, "Legacy ~/opencode", Some("opencode"), PathKind::LegacyHome, sep);
        push_candidate(&mut out, &env.managed_config_dir, "Managed config", None, PathKind::ManagedConfig, sep);
        assert(out@.map_values(|d: DiscoveredPath| candidate_view(d)) =~= candidates_for(*env, sep));
        out
    }
}

/// The view of an optional string.
pub open spec fn opt_view(o: Option<String>) -> Option<Seq<char>> {
    match o {
        Some(s) => Some(s@),
        None => None,
    }
}

/// Whether a candidate may hold the configuration: an override other than
/// `OPENCODE_DATA_DIR`, the XDG configuration directory, or a legacy one.
pub open spec fn serves_config(d: DiscoveredPath) -> bool {
    match d.kind {
        PathKind::EnvOverride => d.label@ != "OPENCODE_DATA_DIR"@,
        PathKind::UserConfig => true,
        PathKind::LegacyHome => true,
        _ => false,
    }
}

/// Whether a candidate may hold the data: the `OPENCODE_DATA_DIR` override
/// or the XDG data directory.
pub open spec fn serves_data(d: DiscoveredPath) -> bool {
    match d.kind {
        PathKind::EnvOverride => d.label@ == "OPENCODE_DATA_DIR"@,
        PathKind::UserData => true,
        _ => false,
    }
}

pub open spec fn serves(d: DiscoveredPath, data: bool) -> bool {
    if data {
        serves_data(d)
    } else {
        serves_config(d)
    }
}

/// The path of the first existing candidate that serves the role.
pub open spec fn first_existing(ps: Seq<DiscoveredPath>, data: bool) -> Option<Seq<char>>
    decreases ps.len(),
{
    if ps.len() == 0 {
        None
    } else if ps[0].exists && serves(ps[0], data) {
        Some(ps[0].path@)
    } else {
        first_existing(ps.drop_first(), data)
    }
}

fn serves_exec(d: &DiscoveredPath, data: bool) -> (r: bool)
    ensures
        r == serves(*d, data),
{
    match d.kind {
        PathKind::EnvOverride => {
            let is_data = str_eq(d.label.as_str(), "OPENCODE_DATA_DIR");
            if data {
                is_data
            } else {
                !is_data
            }
        },
        PathKind::UserConfig => !data,
        PathKind::LegacyHome => !data,
        PathKind::UserData => data,
        PathKind::ManagedConfig => false,
    }
}

fn first_existing_exec(ps: &Vec<DiscoveredPath>, data: bool) -> (r: Option<String>)
    ensures
        opt_view(r) == first_existing(ps@, data),
{
    let mut i: usize = 0;
    assert(ps@.skip(0) =~= ps@);
    while i < ps.len()
        invariant
            i <= ps@.len(),
            first_existing(ps@, data) == first_existing(ps@.skip(i as int), data),
        decreases ps.len() - i,
    {
        if ps[i].exists && serves_exec(&ps[i], data) {
            return Some(ps[i].path.clone());
        }
        assert(ps@.skip(i as int).drop_first() =~= ps@.skip(i + 1));
        i = i + 1;
    }
    None
}

impl PathDiscovery {
    /// Chooses, among candidates whose existence has been checked, the
    /// first existing one that may hold the configuration and the first
    /// existing one that may hold the data.
    pub fn run(paths: Vec<DiscoveredPath>) -> (r: Result<PathDiscovery, OctError>)
        ensures
            r matches Ok(d) && d.paths@ == paths@ && opt_view(d.active_config) == first_existing(paths@, false)
                && opt_view(d.active_data) == first_existing(paths@, true),
    {
        let active_config = first_existing_exec(&paths, false);
        let active_data = first_existing_exec(&paths, true);
        Ok(PathDiscovery { paths, active_config, active_data })
    }

    /// The directories a pull writes to: the active configuration
    /// directory, then the active data directory; with neither there is
    /// no configuration to pull into (`NoConfigFound`).
    pub fn pull_targets(&self) -> (r: Result<Vec<String>, OctError>)
        ensures
            scan_roots_of(*self).len() == 0 <==> r is Err,
            r matches Err(e) ==> e is NoConfigFound,
            r matches Ok(v) ==> v@.map_values(|s: String| s@) == scan_roots_of(*self),
    {
        let r = self.scan_roots();
        if r.len() == 0 {
            return Err(OctError::NoConfigFound);
        }
        Ok(r)
    }

    /// The directories to scan, in order: the active configuration
    /// directory, then the active data directory.
    pub fn scan_roots(&self) -> (r: Vec<String>)
        ensures
            r@.map_values(|s: String| s@) == scan_roots_of(*self),
    {
        let mut r: Vec<String> = Vec::new();
        match &self.active_config {
            Some(c) => r.push(c.clone()),
            None => {},
        }
        match &self.active_data {
            Some(d) => r.push(d.clone()),
            None => {},
        }
        assert(r@.map_values(|s: String| s@) =~= scan_roots_of(*self));
        r
    }
}

pub open spec fn opt_seq(o: Option<String>) -> Seq<Seq<char>> {
    match o {
        Some(s) => seq![s@],
        None => seq![],
    }
}

/// The active directories of a discovery: configuration first, then data.
pub open spec fn scan_roots_of(d: PathDiscovery) -> Seq<Seq<char>> {
    opt_seq(d.active_config) + opt_seq(d.active_data)
}

/// The two legacy configuration directories under `home`.
pub fn legacy_home_dirs(home: &str, sep: char) -> (r: [(&'static str, String); 2])
    ensures
        r@[0].0@ == "Legacy ~/.opencode"@,
        r@[0].1@ == join(home@, ".opencode"@, sep),
        r@[1].0@ == "Legacy ~/opencode"@,
        r@[1].1@ == join(home@, "opencode"@, sep),
{
    [
        ("Legacy ~/.opencode", join_str(home, ".opencode", sep)),
        ("Legacy ~/opencode", join_str(home, "opencode", sep)),
    ]
}

pub open spec fn names_view(v: Seq<Vec<char>>) -> Seq<Seq<char>> {
    v.map_values(|x: Vec<char>| x@)
}

pub open spec fn strings_view(v: Seq<String>) -> Seq<Seq<char>> {
    v.map_values(|x: String| x@)
}

/// Files looked for directly in a configuration directory.
pub open spec fn root_config_file_names() -> Seq<Seq<char>> {
    seq!["opencode.json"@, "opencode.jsonc"@, "package.json"@, "package-lock.json"@]
}

/// Subdirectories of a configuration directory that are walked.
pub open spec fn whitelisted_dir_names() -> Seq<Seq<char>> {
    seq!["agents"@, "commands"@, "plugins"@, "plugin"@]
}

/// Extensions of the files collected from the walked subdirectories.
pub open spec fn safe_extensions() -> Seq<Seq<char>> {
    seq!["json"@, "jsonc"@, "toml"@, "ts"@, "js"@, "yaml"@, "yml"@, "md"@]
}

/// Directory names (lowercased) that are never entered.
pub open spec fn excluded_dir_names() -> Seq<Seq<char>> {
    seq![
        ".cache"@, ".git"@, ".hg"@, ".next"@, ".svn"@, ".wrangler"@, "build"@, "cache"@,
        "coverage"@, "dist"@, "lib"@, "node_modules"@, "out"@, "target"@, "tmp"@, "vendor"@,
    ]
}

/// File names (lowercased) that are never collected from the walked subdirectories.
pub open spec fn excluded_file_names() -> Seq<Seq<char>> {
    seq![
        "auth.json"@, "bun.lockb"@, "mcp-auth.json"@, "package-lock.json"@, "package.json"@,
        "pnpm-lock.yaml"@, "yarn.lock"@,
    ]
}

/// Openings (lowercased) of file names that are never collected.
pub open spec fn excluded_prefixes() -> Seq<Seq<char>> {
    seq!["opencode.db"@, "opencode-"@]
}

fn excluded_dir_list() -> (r: Vec<Vec<char>>)
    ensures
        names_view(r@) == excluded_dir_names(),
{
    let r = vec![
        chars_of(".cache"), chars_of(".git"), chars_of(".hg"), chars_of(".next"), chars_of(".svn"),
        chars_of(".wrangler"), chars_of("build"), chars_of("cache"), chars_of("coverage"),
        chars_of("dist"), chars_of("lib"), chars_of("node_modules"), chars_of("out"),
        chars_of("target"), chars_of("tmp"), chars_of("vendor"),
    ];
    assert(names_view(r@) =~= excluded_dir_names());
    r
}

fn excluded_file_list() -> (r: Vec<Vec<char>>)
    ensures
        names_view(r@) == excluded_file_names(),
{
    let r = vec![
        chars_of("auth.json"), chars_of("bun.lockb"), chars_of("mcp-auth.json"),
        chars_of("package-lock.json"), chars_of("package.json"), chars_of("pnpm-lock.yaml"),
        chars_of("yarn.lock"),
    ];
    assert(names_view(r@) =~= excluded_file_names());
    r
}

fn safe_extension_list() -> (r: Vec<Vec<char>>)
    ensures
        names_view(r@) == safe_extensions(),
{
    let r = vec![
        chars_of("json"), chars_of("jsonc"), chars_of("toml"), chars_of("ts"), chars_of("js"),
        chars_of("yaml"), chars_of("yml"), chars_of("md"),
    ];
    assert(names_view(r@) =~= safe_extensions());
    r
}

fn is_listed(x: &Vec<char>, list: &Vec<Vec<char>>) -> (r: bool)
    ensures
        r == names_view(list@).contains(x@),
{
    let mut i: usize = 0;
    while i < list.len()
        invariant
            i <= list.len(),
            forall|k: int| 0 <= k < i ==> list@[k]@ != x@,
        decreases list.len() - i,
    {
        if chars_eq(&list[i], x) {
            assert(names_view(list@)[i as int] == x@);
            return true;
        }
        i = i + 1;
    }
    assert forall|k: int| 0 <= k < names_view(list@).len() implies names_view(list@)[k] != x@ by {
        assert(names_view(list@)[k] == list@[k]@);
    }
    false
}

fn opens_with_listed(x: &Vec<char>, list: &Vec<Vec<char>>) -> (r: bool)
    ensures
        r == exists|k: int| 0 <= k < list@.len() && has_prefix(x@, #[trigger] names_view(list@)[k]),
{
    let mut i: usize = 0;
    while i < list.len()
        invariant
            i <= list.len(),
            forall|k: int| 0 <= k < i ==> !has_prefix(x@, #[trigger] names_view(list@)[k]),
        decreases list.len() - i,
    {
        if has_prefix_exec(x, &list[i]) {
            assert(has_prefix(x@, names_view(list@)[i as int]));
            return true;
        }
        i = i + 1;
    }
    false
}

/// The root configuration files looked for in `dir`.
pub fn root_config_files(dir: &str, sep: char) -> (r: Vec<String>)
    ensures
        strings_view(r@) == root_config_file_names().map_values(|n: Seq<char>| join(dir@, n, sep)),
{
    let r = vec![
        join_str(dir, "opencode.json", sep),
        join_str(dir, "opencode.jsonc", sep),
        join_str(dir, "package.json", sep),
        join_str(dir, "package-lock.json", sep),
    ];
    assert(strings_view(r@) =~= root_config_file_names().map_values(|n: Seq<char>| join(dir@, n, sep)));
    r
}

/// The subdirectories of `dir` that are walked for configuration files.
pub fn whitelisted_subdirs(dir: &str, sep: char) -> (r: Vec<String>)
    ensures
        strings_view(r@) == whitelisted_dir_names().map_values(|n: Seq<char>| join(dir@, n, sep)),
{
    let r = vec![
        join_str(dir, "agents", sep),
        join_str(dir, "commands", sep),
        join_str(dir, "plugins", sep),
        join_str(dir, "plugin", sep),
    ];
    assert(strings_view(r@) =~= whitelisted_dir_names().map_values(|n: Seq<char>| join(dir@, n, sep)));
    r
}

/// Whether a walk must not enter `path`: its name, lowercased, is one of
/// the excluded directory names.
pub open spec fn excluded_dir_spec(path: Seq<char>, sep: char) -> bool {
    match file_name(path, sep) {
        Some(n) => excluded_dir_names().contains(seq_ascii_lower(n)),
        None => false,
    }
}

/// Whether a walk must not enter `path`.
pub fn is_excluded_dir(path: &str, sep: char) -> (r: bool)
    ensures
        r == excluded_dir_spec(path@, sep),
{
    let p = chars_of(path);
    match file_name_exec(&p, sep) {
        Some(n) => {
            let lower = chars_ascii_lower(&n);
            let list = excluded_dir_list();
            is_listed(&lower, &list)
        },
        None => false,
    }
}

/// Whether a file met in a walked subdirectory is collected: its name,
/// lowercased, is neither an excluded name nor opens with an excluded
/// prefix, and its extension is one of the safe ones.
pub open spec fn collected_file_spec(path: Seq<char>, sep: char) -> bool {
    match file_name(path, sep) {
        Some(n) => {
            let lower = seq_ascii_lower(n);
            &&& !excluded_file_names().contains(lower)
            &&& !(exists|k: int| 0 <= k < excluded_prefixes().len() && has_prefix(lower, #[trigger] excluded_prefixes()[k]))
            &&& extension_of(n) matches Some(e) && safe_extensions().contains(e)
        },
        None => false,
    }
}

/// Whether a file met in a walked subdirectory is collected.
pub fn is_collected_file(path: &str, sep: char) -> (r: bool)
    ensures
        r == collected_file_spec(path@, sep),
{
    let p = chars_of(path);
    match file_name_exec(&p, sep) {
        Some(n) => {
            let lower = chars_ascii_lower(&n);
            if is_listed(&lower, &excluded_file_list()) {
                return false;
            }
            let two = vec![chars_of("opencode.db"), chars_of("opencode-")];
            assert(names_view(two@) =~= excluded_prefixes());
            if opens_with_listed(&lower, &two) {
                return false;
            }
            match extension_exec(&n) {
                Some(e) => is_listed(&e, &safe_extension_list()),
                None => false,
            }
        },
        None => false,
    }
}

/// `r` lists the paths of `found` in path order, each path once, spelled as
/// where it first occurs in `found` (two spellings with the same
/// components are the same path).
pub open spec fn sorted_first_occurrences(found: Seq<Seq<char>>, r: Seq<Seq<char>>, sep: char) -> bool {
    &&& forall|i: int, j: int| 0 <= i < j < r.len() ==> keys_lt(path_key(#[trigger] r[i], sep), path_key(#[trigger] r[j], sep))
    &&& forall|i: int| 0 <= i < r.len() ==> first_occurrence(found, #[trigger] r[i], sep)
    &&& forall|j: int| 0 <= j < found.len() ==> lists_path(r, #[trigger] found[j], sep)
}

/// Whether some spelling in `r` names the same path as `x`.
pub open spec fn lists_path(r: Seq<Seq<char>>, x: Seq<char>, sep: char) -> bool {
    exists|i: int| 0 <= i < r.len() && same_path(#[trigger] r[i], x, sep)
}

/// Whether two spellings name the same path (have the same components).
pub open spec fn same_path(a: Seq<char>, b: Seq<char>, sep: char) -> bool {
    path_key(a, sep) == path_key(b, sep)
}

/// `x` occurs in `found`, and no path before it there is the same path.
#[verifier::opaque]
pub open spec fn first_occurrence(found: Seq<Seq<char>>, x: Seq<char>, sep: char) -> bool {
    exists|j: int| 0 <= j < found.len() && found[j] == x
        && forall|k: int| 0 <= k < j ==> !same_path(#[trigger] found[k], x, sep)
}

pub open spec fn keys_sorted(ks: Seq<Seq<Seq<u32>>>) -> bool {
    forall|a: int, b: int| 0 <= a < b < ks.len() ==> keys_lt(#[trigger] ks[a], #[trigger] ks[b])
}

pub open spec fn out_keys(out: Seq<String>, sep: char) -> Seq<Seq<Seq<u32>>> {
    out.map_values(|s: String| path_key(s@, sep))
}

proof fn lemma_insert_sorted(ks: Seq<Seq<Seq<u32>>>, p: int, gk: Seq<Seq<u32>>)
    requires
        keys_sorted(ks),
        0 <= p <= ks.len(),
        forall|q: int| 0 <= q < p ==> keys_lt(#[trigger] ks[q], gk),
        p < ks.len() ==> !keys_lt(ks[p], gk) && ks[p] != gk,
    ensures
        forall|a: int| p <= a < ks.len() ==> keys_lt(gk, #[trigger] ks[a]),
        forall|a: int| 0 <= a < ks.len() ==> ks[a] != gk,
        keys_sorted(ks.insert(p, gk)),
{
    if p < ks.len() {
        lemma_keys_lt_total(ks[p], gk);
        assert forall|a: int| p <= a < ks.len() implies keys_lt(gk, #[trigger] ks[a]) by {
            if a > p {
                lemma_keys_lt_trans(gk, ks[p], ks[a]);
            }
        }
    }
    assert forall|a: int| 0 <= a < ks.len() implies ks[a] != gk by {
        lemma_keys_lt_total(gk, gk);
    }
    let ks2 = ks.insert(p, gk);
    assert forall|a: int, b: int| 0 <= a < b < ks2.len() implies keys_lt(#[trigger] ks2[a], #[trigger] ks2[b]) by {
        if b < p {
        } else if b == p {
        } else if a < p {
            lemma_keys_lt_trans(ks[a], gk, ks[b - 1]);
        } else if a == p {
        } else {
        }
    }
}

proof fn lemma_first_occurrence_extend(f: Seq<Seq<char>>, x: Seq<char>, sep: char, j: int)
    requires
        0 <= j < f.len(),
        first_occurrence(f.subrange(0, j), x, sep),
    ensures
        first_occurrence(f.subrange(0, j + 1), x, sep),
{
    reveal(first_occurrence);
    let w = choose|w: int| 0 <= w < j && f.subrange(0, j)[w] == x
        && forall|k: int| 0 <= k < w ==> !same_path(#[trigger] f.subrange(0, j)[k], x, sep);
    assert(f.subrange(0, j + 1)[w] == x);
    assert forall|k: int| 0 <= k < w implies !same_path(#[trigger] f.subrange(0, j + 1)[k], x, sep) by {
        assert(f.subrange(0, j + 1)[k] == f.subrange(0, j)[k]);
    }
}

/// What holds of the paths collected from the first `j` found ones.
#[verifier::opaque]
pub open spec fn collect_inv(out: Seq<String>, fv: Seq<Seq<char>>, j: int, sep: char) -> bool {
    &&& 0 <= j <= fv.len()
    &&& keys_sorted(out_keys(out, sep))
    &&& forall|a: int| 0 <= a < out.len() ==> first_occurrence(fv.subrange(0, j), #[trigger] out[a]@, sep)
    &&& forall|k: int| 0 <= k < j ==> lists_path(strings_view(out), #[trigger] fv[k], sep)
}

proof fn lemma_collect_dup(out: Seq<String>, fv: Seq<Seq<char>>, j: int, sep: char, p: int)
    requires
        collect_inv(out, fv, j, sep),
        j < fv.len(),
        0 <= p < out.len(),
        same_path(out[p]@, fv[j], sep),
    ensures
        collect_inv(out, fv, j + 1, sep),
{
    reveal(collect_inv);
    assert forall|a: int| 0 <= a < out.len() implies first_occurrence(fv.subrange(0, j + 1), #[trigger] out[a]@, sep) by {
        lemma_first_occurrence_extend(fv, out[a]@, sep, j);
    }
    assert forall|k: int| 0 <= k < j + 1 implies lists_path(strings_view(out), #[trigger] fv[k], sep) by {
        if k == j {
            assert(strings_view(out)[p] == out[p]@);
            assert(same_path(strings_view(out)[p], fv[k], sep));
        }
    }
}

proof fn lemma_collect_insert(out: Seq<String>, fv: Seq<Seq<char>>, j: int, sep: char, p: int, x: String)
    requires
        collect_inv(out, fv, j, sep),
        j < fv.len(),
        x@ == fv[j],
        0 <= p <= out.len(),
        forall|q: int| 0 <= q < p ==> keys_lt(#[trigger] out_keys(out, sep)[q], path_key(x@, sep)),
        p < out.len() ==> !keys_lt(out_keys(out, sep)[p], path_key(x@, sep)) && out_keys(out, sep)[p] != path_key(x@, sep),
    ensures
        collect_inv(out.insert(p, x), fv, j + 1, sep),
{
    reveal(collect_inv);
    let ks = out_keys(out, sep);
    let gk = path_key(x@, sep);
    lemma_insert_sorted(ks, p, gk);
    let out2 = out.insert(p, x);
    assert(out_keys(out2, sep) =~= ks.insert(p, gk));
    assert(first_occurrence(fv.subrange(0, j + 1), x@, sep)) by {
        reveal(first_occurrence);
        assert(fv.subrange(0, j + 1)[j] == x@);
        assert forall|k: int| 0 <= k < j implies !same_path(#[trigger] fv.subrange(0, j + 1)[k], x@, sep) by {
            assert(fv.subrange(0, j + 1)[k] == fv[k]);
            assert(lists_path(strings_view(out), fv[k], sep));
            let a = choose|a: int| 0 <= a < strings_view(out).len() && same_path(#[trigger] strings_view(out)[a], fv[k], sep);
            assert(strings_view(out)[a] == out[a]@);
            assert(ks[a] == path_key(out[a]@, sep));
        }
    }
    assert forall|a: int| 0 <= a < out2.len() implies first_occurrence(fv.subrange(0, j + 1), #[trigger] out2[a]@, sep) by {
        if a < p {
            assert(out2[a] == out[a]);
            lemma_first_occurrence_extend(fv, out[a]@, sep, j);
        } else if a > p {
            assert(out2[a] == out[a - 1]);
            lemma_first_occurrence_extend(fv, out[a - 1]@, sep, j);
        }
    }
    assert forall|k: int| 0 <= k < j + 1 implies lists_path(strings_view(out2), #[trigger] fv[k], sep) by {
        if k == j {
            assert(strings_view(out2)[p] == x@);
            assert(same_path(strings_view(out2)[p], fv[k], sep));
        } else {
            assert(lists_path(strings_view(out), fv[k], sep));
            let a = choose|a: int| 0 <= a < strings_view(out).len() && same_path(#[trigger] strings_view(out)[a], fv[k], sep);
            if a < p {
                assert(strings_view(out2)[a] == strings_view(out)[a]);
                assert(same_path(strings_view(out2)[a], fv[k], sep));
            } else {
                assert(strings_view(out2)[a + 1] == strings_view(out)[a]);
                assert(same_path(strings_view(out2)[a + 1], fv[k], sep));
            }
        }
    }
}

proof fn lemma_collect_done(out: Seq<String>, fv: Seq<Seq<char>>, sep: char)
    requires
        collect_inv(out, fv, fv.len() as int, sep),
    ensures
        sorted_first_occurrences(fv, strings_view(out), sep),
{
    reveal(collect_inv);
    assert(fv.subrange(0, fv.len() as int) =~= fv);
    let sv = strings_view(out);
    assert forall|a: int, b: int| 0 <= a < b < sv.len() implies keys_lt(path_key(#[trigger] sv[a], sep), path_key(#[trigger] sv[b], sep)) by {
        assert(keys_sorted(out_keys(out, sep)));
        assert(keys_lt(out_keys(out, sep)[a], out_keys(out, sep)[b]));
        assert(out_keys(out, sep)[a] == path_key(out[a]@, sep));
        assert(out_keys(out, sep)[b] == path_key(out[b]@, sep));
    }
    assert forall|i: int| 0 <= i < sv.len() implies first_occurrence(fv, #[trigger] sv[i], sep) by {
        assert(sv[i] == out[i]@);
        assert(first_occurrence(fv.subrange(0, fv.len() as int), out[i]@, sep));
    }
}

impl PathDiscovery {
    /// The configuration files, from the files `found` by scanning the
    /// directories of `scan_roots`: each path once, in path order; none
    /// found is `NoConfigFound`.
    pub fn config_files(&self, found: Vec<String>, sep: char) -> (r: Result<Vec<String>, OctError>)
        ensures
            found@.len() == 0 <==> r is Err,
            r matches Err(e) ==> e is NoConfigFound,
            r matches Ok(v) ==> sorted_first_occurrences(strings_view(found@), strings_view(v@), sep),
    {
        if found.len() == 0 {
            return Err(OctError::NoConfigFound);
        }
        let ghost fv = strings_view(found@);
        let mut out: Vec<String> = Vec::new();
        let mut keys: Vec<Vec<Vec<u32>>> = Vec::new();
        let mut j: usize = 0;
        assert(collect_inv(out@, fv, 0, sep)) by {
            reveal(collect_inv);
        }
        while j < found.len()
            invariant
                j <= found@.len(),
                fv == strings_view(found@),
                out@.len() == keys@.len(),
                forall|q: int| 0 <= q < keys@.len() ==> keys_view(#[trigger] keys@[q]@) == out_keys(out@, sep)[q],
                collect_inv(out@, fv, j as int, sep),
            decreases found.len() - j,
        {
            let x = found[j].clone();
            let xc = chars_of(x.as_str());
            let kx = path_key_exec(&xc, sep);
            let ghost gk = path_key(x@, sep);
            let ghost ks = out_keys(out@, sep);
            let mut p: usize = 0;
            while p < keys.len() && keys_lt_exec(&keys[p], &kx)
                invariant
                    p <= keys@.len(),
                    keys_view(kx@) == gk,
                    ks.len() == keys@.len(),
                    forall|q: int| 0 <= q < keys@.len() ==> keys_view(#[trigger] keys@[q]@) == ks[q],
                    forall|q: int| 0 <= q < p ==> keys_lt(#[trigger] ks[q], gk),
                decreases keys.len() - p,
            {
                p = p + 1;
            }
            let dup = p < keys.len() && keys_eq_exec(&keys[p], &kx);
            assert(x@ == fv[j as int]);
            if dup {
                proof {
                    lemma_collect_dup(out@, fv, j as int, sep, p as int);
                }
            } else {
                proof {
                    lemma_collect_insert(out@, fv, j as int, sep, p as int, x);
                }
                let ghost old_keys = keys@;
                let ghost old_out = out@;
                out.insert(p, x);
                keys.insert(p, kx);
                assert forall|q: int| 0 <= q < keys@.len() implies keys_view(#[trigger] keys@[q]@) == out_keys(out@, sep)[q] by {
                    if q > p {
                        assert(keys@[q] == old_keys[q - 1]);
                        assert(out@[q] == old_out[q - 1]);
                    } else if q < p {
                        assert(keys@[q] == old_keys[q]);
                        assert(out@[q] == old_out[q]);
                    }
                }
            }
            j = j + 1;
        }
        proof {
            lemma_collect_done(out@, fv, sep);
        }
        Ok(out)
    }
}

/// The directory chosen for a role is a candidate that exists and may
/// serve that role; so the managed configuration directory is never chosen,
/// and nothing is chosen when no such candidate exists.
pub proof fn lemma_active_directory_is_an_existing_candidate(ps: Seq<DiscoveredPath>, data: bool)
    ensures
        first_existing(ps, data) matches Some(p) ==> exists|i: int| 0 <= i < ps.len() && (#[trigger] ps[i]).exists
            && serves(ps[i], data) && ps[i].path@ == p && ps[i].kind != PathKind::ManagedConfig
            && forall|k: int| 0 <= k < i ==> !((#[trigger] ps[k]).exists && serves(ps[k], data)),
        first_existing(ps, data) is None <==> forall|i: int| 0 <= i < ps.len() ==> !((#[trigger] ps[i]).exists && serves(ps[i], data)),
    decreases ps.len(),
{
    if ps.len() > 0 {
        lemma_active_directory_is_an_existing_candidate(ps.drop_first(), data);
        if ps[0].exists && serves(ps[0], data) {
            assert(ps[0].exists && serves(ps[0], data));
        } else {
            if first_existing(ps, data) is Some {
                let p = first_existing(ps, data)->Some_0;
                let j = choose|j: int| 0 <= j < ps.drop_first().len() && (#[trigger] ps.drop_first()[j]).exists
                    && serves(ps.drop_first()[j], data) && ps.drop_first()[j].path@ == p && ps.drop_first()[j].kind != PathKind::ManagedConfig
                    && forall|k: int| 0 <= k < j ==> !((#[trigger] ps.drop_first()[k]).exists && serves(ps.drop_first()[k], data));
                assert(ps[j + 1] == ps.drop_first()[j]);
                assert forall|k: int| 0 <= k < j + 1 implies !((#[trigger] ps[k]).exists && serves(ps[k], data)) by {
                    if k > 0 {
                        assert(ps[k] == ps.drop_first()[k - 1]);
                    }
                }
            }
            assert((forall|i: int| 0 <= i < ps.len() ==> !((#[trigger] ps[i]).exists && serves(ps[i], data)))
                <==> (forall|i: int| 0 <= i < ps.drop_first().len() ==> !((#[trigger] ps.drop_first()[i]).exists && serves(ps.drop_first()[i], data)))) by {
                assert forall|i: int| 0 < i < ps.len() implies ps[i] == ps.drop_first()[i - 1] by {}
                if forall|i: int| 0 <= i < ps.drop_first().len() ==> !((#[trigger] ps.drop_first()[i]).exists && serves(ps.drop_first()[i], data)) {
                    assert forall|i: int| 0 <= i < ps.len() implies !((#[trigger] ps[i]).exists && serves(ps[i], data)) by {
                        if i > 0 {
                            assert(ps[i] == ps.drop_first()[i - 1]);
                        }
                    }
                }
            }
        }
    }
}

/// An `OPENCODE_CONFIG_DIR` that exists is the configuration directory,
/// whatever else exists.
pub proof fn lemma_config_override_wins(env: DiscoveryEnv, sep: char, ps: Seq<DiscoveredPath>)
    requires
        ps.map_values(|d: DiscoveredPath| candidate_view(d)) == candidates_for(env, sep),
        env.opencode_config_dir is Some,
        ps.len() > 0 ==> ps[0].exists,
    ensures
        first_existing(ps, false) == Some(env.opencode_config_dir->Some_0@),
{
    let cs = ps.map_values(|d: DiscoveredPath| candidate_view(d));
    assert(cs.len() == ps.len());
    assert(cs[0] == ("OPENCODE_CONFIG_DIR"@, env.opencode_config_dir->Some_0@, PathKind::EnvOverride));
    assert(cs[0] == candidate_view(ps[0]));
    reveal_strlit("OPENCODE_CONFIG_DIR");
    reveal_strlit("OPENCODE_DATA_DIR");
    assert(ps[0].label@ != "OPENCODE_DATA_DIR"@) by {
        assert(ps[0].label@.len() != "OPENCODE_DATA_DIR"@.len());
    }
    assert(serves(ps[0], false));
}

/// An `OPENCODE_DATA_DIR` that exists is the data directory, whatever else
/// exists.
pub proof fn lemma_data_override_wins(env: DiscoveryEnv, sep: char, ps: Seq<DiscoveredPath>)
    requires
        ps.map_values(|d: DiscoveredPath| candidate_view(d)) == candidates_for(env, sep),
        env.opencode_data_dir is Some,
        ps.len() > (if env.opencode_config_dir is Some { 1int } else { 0int }) ==> ps[if env.opencode_config_dir is Some { 1int } else { 0int }].exists,
    ensures
        first_existing(ps, true) == Some(env.opencode_data_dir->Some_0@),
{
    let cs = ps.map_values(|d: DiscoveredPath| candidate_view(d));
    assert(cs.len() == ps.len());
    reveal_strlit("OPENCODE_CONFIG_DIR");
    reveal_strlit("OPENCODE_DATA_DIR");
    let k: int = if env.opencode_config_dir is Some { 1 } else { 0 };
    assert(cs[k] == ("OPENCODE_DATA_DIR"@, env.opencode_data_dir->Some_0@, PathKind::EnvOverride));
    assert(cs[k] == candidate_view(ps[k]));
    assert(serves(ps[k], true));
    if k == 1 {
        assert(cs[0] == candidate_view(ps[0]));
        assert(cs[0].0 == "OPENCODE_CONFIG_DIR"@);
        assert(ps[0].label@ != "OPENCODE_DATA_DIR"@) by {
            assert(ps[0].label@.len() != "OPENCODE_DATA_DIR"@.len());
        }
        assert(!serves(ps[0], true));
        assert(ps.len() > 1);
        assert(ps.drop_first()[0] == ps[1]);
        assert(first_existing(ps.drop_first(), true) == Some(ps[1].path@));
    } else {
        assert(ps.len() > 0);
    }
}

pub open spec fn same_key(x: Seq<Seq<u32>>, y: Seq<Seq<u32>>) -> bool {
    x == y
}

/// Whether `x` is one of the keys of `b`.
pub open spec fn key_in(b: Seq<Seq<Seq<u32>>>, x: Seq<Seq<u32>>) -> bool {
    exists|k: int| 0 <= k < b.len() && same_key(b[k], x)
}

/// Every key of `a` is a key of `b`.
#[verifier::opaque]
pub open spec fn keys_covered(a: Seq<Seq<Seq<u32>>>, b: Seq<Seq<Seq<u32>>>) -> bool {
    forall|i: int| 0 <= i < a.len() ==> key_in(b, #[trigger] a[i])
}

proof fn lemma_covered_at(a: Seq<Seq<Seq<u32>>>, b: Seq<Seq<Seq<u32>>>, i: int) -> (k: int)
    requires
        keys_covered(a, b),
        0 <= i < a.len(),
    ensures
        0 <= k < b.len() && b[k] == a[i],
{
    reveal(keys_covered);
    assert(key_in(b, a[i]));
    choose|k: int| 0 <= k < b.len() && same_key(b[k], a[i])
}

proof fn lemma_covered_tail(a: Seq<Seq<Seq<u32>>>, b: Seq<Seq<Seq<u32>>>)
    requires
        keys_sorted(a),
        keys_sorted(b),
        keys_covered(a, b),
        a.len() > 0,
        b.len() > 0,
        a[0] == b[0],
    ensures
        keys_covered(a.drop_first(), b.drop_first()),
{
    let a1 = a.drop_first();
    let b1 = b.drop_first();
    assert forall|i: int| 0 <= i < a1.len() implies key_in(b1, #[trigger] a1[i]) by {
        let k = lemma_covered_at(a, b, i + 1);
        assert(keys_lt(a[0], a[i + 1]));
        if k == 0 {
            lemma_keys_lt_total(a[0], a[0]);
        }
        assert(same_key(b1[k - 1], a1[i]));
    }
    assert(keys_covered(a1, b1)) by {
        reveal(keys_covered);
    }
}

proof fn lemma_sorted_same_keys(a: Seq<Seq<Seq<u32>>>, b: Seq<Seq<Seq<u32>>>)
    requires
        keys_sorted(a),
        keys_sorted(b),
        keys_covered(a, b),
        keys_covered(b, a),
    ensures
        a == b,
    decreases a.len(),
{
    if a.len() == 0 {
        if b.len() > 0 {
            let m = lemma_covered_at(b, a, 0);
        }
        assert(a =~= b);
    } else {
        let k0 = lemma_covered_at(a, b, 0);
        let m0 = lemma_covered_at(b, a, 0);
        if k0 > 0 {
            assert(keys_lt(b[0], b[k0]));
            if m0 > 0 {
                assert(keys_lt(a[0], a[m0]));
                lemma_keys_lt_trans(a[0], a[m0], a[0]);
            }
            lemma_keys_lt_total(a[0], a[0]);
        }
        assert(a[0] == b[0]);
        let a1 = a.drop_first();
        let b1 = b.drop_first();
        lemma_covered_tail(a, b);
        lemma_covered_tail(b, a);
        assert(keys_sorted(a1));
        assert(keys_sorted(b1));
        lemma_sorted_same_keys(a1, b1);
        assert(a =~= seq![a[0]] + a1);
        assert(b =~= seq![b[0]] + b1);
    }
}

proof fn lemma_first_occurrences_same_path(found: Seq<Seq<char>>, x: Seq<char>, y: Seq<char>, sep: char)
    requires
        first_occurrence(found, x, sep),
        first_occurrence(found, y, sep),
        same_path(x, y, sep),
    ensures
        x == y,
{
    reveal(first_occurrence);
    let jx = choose|j: int| 0 <= j < found.len() && found[j] == x
        && forall|k: int| 0 <= k < j ==> !same_path(#[trigger] found[k], x, sep);
    let jy = choose|j: int| 0 <= j < found.len() && found[j] == y
        && forall|k: int| 0 <= k < j ==> !same_path(#[trigger] found[k], y, sep);
    if jx < jy {
        assert(!same_path(found[jx], y, sep));
    } else if jy < jx {
        assert(!same_path(found[jy], x, sep));
    }
}

proof fn lemma_first_occurrences_covered(found: Seq<Seq<char>>, r1: Seq<Seq<char>>, r2: Seq<Seq<char>>, sep: char)
    requires
        forall|i: int| 0 <= i < r1.len() ==> first_occurrence(found, #[trigger] r1[i], sep),
        forall|j: int| 0 <= j < found.len() ==> lists_path(r2, #[trigger] found[j], sep),
    ensures
        keys_covered(
            r1.map_values(|x: Seq<char>| path_key(x, sep)),
            r2.map_values(|x: Seq<char>| path_key(x, sep)),
        ),
{
    reveal(first_occurrence);
    let k1 = r1.map_values(|x: Seq<char>| path_key(x, sep));
    let k2 = r2.map_values(|x: Seq<char>| path_key(x, sep));
    assert forall|i: int| 0 <= i < k1.len() implies key_in(k2, #[trigger] k1[i]) by {
        let x = r1[i];
        assert(first_occurrence(found, x, sep));
        let j = choose|j: int| 0 <= j < found.len() && found[j] == x
            && forall|k: int| 0 <= k < j ==> !same_path(#[trigger] found[k], x, sep);
        assert(lists_path(r2, found[j], sep));
        let k = choose|k: int| 0 <= k < r2.len() && same_path(#[trigger] r2[k], found[j], sep);
        assert(same_key(k2[k], k1[i]));
    }
    assert(keys_covered(k1, k2)) by {
        reveal(keys_covered);
    }
}

proof fn lemma_path_keys_sorted(r: Seq<Seq<char>>, sep: char)
    requires
        forall|i: int, j: int| 0 <= i < j < r.len() ==> keys_lt(path_key(#[trigger] r[i], sep), path_key(#[trigger] r[j], sep)),
    ensures
        keys_sorted(r.map_values(|x: Seq<char>| path_key(x, sep))),
{
    let k = r.map_values(|x: Seq<char>| path_key(x, sep));
    assert forall|a: int, b: int| 0 <= a < b < k.len() implies keys_lt(#[trigger] k[a], #[trigger] k[b]) by {
        let _ = r[a];
        let _ = r[b];
    }
}

/// The list `config_files` returns is pinned down: two lists that both
/// order the paths of `found` and spell each as where it first occurs
/// there are the same list.
pub proof fn lemma_config_files_unique(found: Seq<Seq<char>>, r1: Seq<Seq<char>>, r2: Seq<Seq<char>>, sep: char)
    requires
        sorted_first_occurrences(found, r1, sep),
        sorted_first_occurrences(found, r2, sep),
    ensures
        r1 == r2,
{
    let k1 = r1.map_values(|x: Seq<char>| path_key(x, sep));
    let k2 = r2.map_values(|x: Seq<char>| path_key(x, sep));
    lemma_path_keys_sorted(r1, sep);
    lemma_path_keys_sorted(r2, sep);
    lemma_first_occurrences_covered(found, r1, r2, sep);
    lemma_first_occurrences_covered(found, r2, r1, sep);
    lemma_sorted_same_keys(k1, k2);
    assert forall|i: int| 0 <= i < r1.len() implies r1[i] == r2[i] by {
        assert(k1[i] == k2[i]);
        assert(first_occurrence(found, r1[i], sep));
        assert(first_occurrence(found, r2[i], sep));
        lemma_first_occurrences_same_path(found, r1[i], r2[i], sep);
    }
    assert(r1 =~= r2);
}

pub open spec fn keys_of(r: Seq<Seq<char>>, sep: char) -> Seq<Seq<Seq<u32>>> {
    r.map_values(|x: Seq<char>| path_key(x, sep))
}

proof fn lemma_occurs_covered(f: Seq<Seq<char>>, r: Seq<Seq<char>>, sep: char)
    requires
        forall|i: int| 0 <= i < r.len() ==> first_occurrence(f, #[trigger] r[i], sep),
    ensures
        keys_covered(keys_of(r, sep), keys_of(f, sep)),
{
    let kr = keys_of(r, sep);
    let kf = keys_of(f, sep);
    assert forall|i: int| 0 <= i < kr.len() implies key_in(kf, #[trigger] kr[i]) by {
        reveal(first_occurrence);
        assert(first_occurrence(f, r[i], sep));
        let j = choose|j: int| 0 <= j < f.len() && f[j] == r[i]
            && forall|k: int| 0 <= k < j ==> !same_path(#[trigger] f[k], r[i], sep);
        assert(same_key(kf[j], kr[i]));
    }
    reveal(keys_covered);
}

proof fn lemma_lists_covered(a: Seq<Seq<char>>, b: Seq<Seq<char>>, sep: char)
    requires
        forall|i: int| 0 <= i < a.len() ==> lists_path(b, #[trigger] a[i], sep),
    ensures
        keys_covered(keys_of(a, sep), keys_of(b, sep)),
{
    let ka = keys_of(a, sep);
    let kb = keys_of(b, sep);
    assert forall|i: int| 0 <= i < ka.len() implies key_in(kb, #[trigger] ka[i]) by {
        assert(lists_path(b, a[i], sep));
        let k = choose|k: int| 0 <= k < b.len() && same_path(#[trigger] b[k], a[i], sep);
        assert(same_key(kb[k], ka[i]));
    }
    reveal(keys_covered);
}

proof fn lemma_covered_trans(a: Seq<Seq<Seq<u32>>>, b: Seq<Seq<Seq<u32>>>, c: Seq<Seq<Seq<u32>>>)
    requires
        keys_covered(a, b),
        keys_covered(b, c),
    ensures
        keys_covered(a, c),
{
    assert forall|i: int| 0 <= i < a.len() implies key_in(c, #[trigger] a[i]) by {
        let k = lemma_covered_at(a, b, i);
        let m = lemma_covered_at(b, c, k);
        assert(same_key(c[m], a[i]));
    }
    reveal(keys_covered);
}

proof fn lemma_results_covered(f1: Seq<Seq<char>>, f2: Seq<Seq<char>>, r1: Seq<Seq<char>>, r2: Seq<Seq<char>>, sep: char)
    requires
        forall|i: int| 0 <= i < r1.len() ==> first_occurrence(f1, #[trigger] r1[i], sep),
        forall|j: int| 0 <= j < f2.len() ==> lists_path(r2, #[trigger] f2[j], sep),
        forall|i: int| 0 <= i < f1.len() ==> lists_path(f2, #[trigger] f1[i], sep),
    ensures
        keys_covered(keys_of(r1, sep), keys_of(r2, sep)),
{
    lemma_occurs_covered(f1, r1, sep);
    lemma_lists_covered(f1, f2, sep);
    lemma_lists_covered(f2, r2, sep);
    lemma_covered_trans(keys_of(r1, sep), keys_of(f1, sep), keys_of(f2, sep));
    lemma_covered_trans(keys_of(r1, sep), keys_of(f2, sep), keys_of(r2, sep));
}

proof fn lemma_one_spelling(f1: Seq<Seq<char>>, f2: Seq<Seq<char>>, r1: Seq<Seq<char>>, r2: Seq<Seq<char>>, sep: char)
    requires
        forall|i: int| 0 <= i < r1.len() ==> first_occurrence(f1, #[trigger] r1[i], sep),
        forall|i: int| 0 <= i < r2.len() ==> first_occurrence(f2, #[trigger] r2[i], sep),
        r1.len() == r2.len(),
        forall|i: int| 0 <= i < r1.len() ==> same_path(#[trigger] r1[i], r2[i], sep),
        forall|a: int, b: int|
            0 <= a < (f1 + f2).len() && 0 <= b < (f1 + f2).len() && same_path(#[trigger] (f1 + f2)[a], #[trigger] (f1 + f2)[b], sep)
                ==> (f1 + f2)[a] == (f1 + f2)[b],
    ensures
        r1 == r2,
{
    let g = f1 + f2;
    assert forall|i: int| 0 <= i < r1.len() implies r1[i] == r2[i] by {
        reveal(first_occurrence);
        assert(first_occurrence(f1, r1[i], sep));
        assert(first_occurrence(f2, r2[i], sep));
        let a = choose|j: int| 0 <= j < f1.len() && f1[j] == r1[i]
            && forall|k: int| 0 <= k < j ==> !same_path(#[trigger] f1[k], r1[i], sep);
        let b = choose|j: int| 0 <= j < f2.len() && f2[j] == r2[i]
            && forall|k: int| 0 <= k < j ==> !same_path(#[trigger] f2[k], r2[i], sep);
        assert(g[a] == r1[i]);
        assert(g[f1.len() + b] == r2[i]);
        assert(same_path(r1[i], r2[i], sep));
        assert(same_path(g[a], g[f1.len() + b], sep));
    }
    assert(r1 =~= r2);
}

/// The configuration files do not depend on the order of the files found
/// or on repeats among them: two found lists that name the same paths give
/// the same paths in the same order (equal as paths), and the very same
/// list when every path is spelled one way throughout both.
pub proof fn lemma_config_files_order_free(
    f1: Seq<Seq<char>>,
    f2: Seq<Seq<char>>,
    r1: Seq<Seq<char>>,
    r2: Seq<Seq<char>>,
    sep: char,
)
    requires
        sorted_first_occurrences(f1, r1, sep),
        sorted_first_occurrences(f2, r2, sep),
        forall|i: int| 0 <= i < f1.len() ==> lists_path(f2, #[trigger] f1[i], sep),
        forall|j: int| 0 <= j < f2.len() ==> lists_path(f1, #[trigger] f2[j], sep),
    ensures
        f1.len() == 0 <==> f2.len() == 0,
        r1.len() == r2.len(),
        forall|i: int| 0 <= i < r1.len() ==> same_path(#[trigger] r1[i], r2[i], sep),
        (forall|a: int, b: int|
            0 <= a < (f1 + f2).len() && 0 <= b < (f1 + f2).len() && same_path(#[trigger] (f1 + f2)[a], #[trigger] (f1 + f2)[b], sep)
                ==> (f1 + f2)[a] == (f1 + f2)[b]) ==> r1 == r2,
{
    if f1.len() > 0 {
        assert(lists_path(f2, f1[0], sep));
    }
    if f2.len() > 0 {
        assert(lists_path(f1, f2[0], sep));
    }
    lemma_path_keys_sorted(r1, sep);
    lemma_path_keys_sorted(r2, sep);
    lemma_results_covered(f1, f2, r1, r2, sep);
    lemma_results_covered(f2, f1, r2, r1, sep);
    lemma_sorted_same_keys(keys_of(r1, sep), keys_of(r2, sep));
    assert forall|i: int| 0 <= i < r1.len() implies same_path(#[trigger] r1[i], r2[i], sep) by {
        assert(keys_of(r1, sep)[i] == keys_of(r2, sep)[i]);
    }
    if forall|a: int, b: int|
        0 <= a < (f1 + f2).len() && 0 <= b < (f1 + f2).len() && same_path(#[trigger] (f1 + f2)[a], #[trigger] (f1 + f2)[b], sep)
            ==> (f1 + f2)[a] == (f1 + f2)[b] {
        lemma_one_spelling(f1, f2, r1, r2, sep);
    }
}

} // verus!
