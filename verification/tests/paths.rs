use std::path::{Path, PathBuf};

use oct::paths::{
    is_collected_file, is_excluded_dir, legacy_home_dirs, root_config_files, whitelisted_subdirs,
    DiscoveredPath, DiscoveryEnv, PathDiscovery, PathKind,
};

#[test]
fn legacy_home_path_uses_path_join() {
    let dirs = legacy_home_dirs("/home/factrue", '/');
    assert_eq!(PathBuf::from(&dirs[0].1), PathBuf::from("/home/factrue").join(".opencode"));
    assert_eq!(PathBuf::from(&dirs[1].1), PathBuf::from("/home/factrue").join("opencode"));
}

#[test]
fn legacy_home_path_keeps_windows_separator() {
    let dirs = legacy_home_dirs(r"C:\Users\Daifuku", '\\');
    assert_eq!(PathBuf::from(&dirs[0].1), PathBuf::from(r"C:\Users\Daifuku\.opencode"));
    assert_eq!(PathBuf::from(&dirs[1].1), PathBuf::from(r"C:\Users\Daifuku\opencode"));
}

#[test]
fn legacy_home_labels() {
    let dirs = legacy_home_dirs("/home/u/", '/');
    assert_eq!(dirs[0].0, "Legacy ~/.opencode");
    assert_eq!(dirs[1].0, "Legacy ~/opencode");
    assert_eq!(dirs[0].1, "/home/u/.opencode");
}

fn env(config: Option<&str>, data: Option<&str>) -> DiscoveryEnv {
    DiscoveryEnv {
        opencode_config_dir: config.map(|s| s.to_string()),
        opencode_data_dir: data.map(|s| s.to_string()),
        config_dir: Some("/home/u/.config".to_string()),
        data_dir: Some("/home/u/.local/share".to_string()),
        home_dir: Some("/home/u".to_string()),
        managed_config_dir: Some("/etc/opencode".to_string()),
    }
}

fn with_existing(mut paths: Vec<DiscoveredPath>, existing: &[&str]) -> Vec<DiscoveredPath> {
    for p in paths.iter_mut() {
        p.exists = existing.contains(&p.path.as_str());
    }
    paths
}

#[test]
fn candidates_come_in_order_of_precedence() {
    let c = PathDiscovery::candidates(&env(Some("/cfg"), Some("/data")), '/');
    let got: Vec<(&str, &str, PathKind)> =
        c.iter().map(|d| (d.label.as_str(), d.path.as_str(), d.kind)).collect();
    assert_eq!(
        got,
        vec![
            ("OPENCODE_CONFIG_DIR", "/cfg", PathKind::EnvOverride),
            ("OPENCODE_DATA_DIR", "/data", PathKind::EnvOverride),
            ("XDG config (~/.config/opencode)", "/home/u/.config/opencode", PathKind::UserConfig),
            ("XDG data (~/.local/share/opencode)", "/home/u/.local/share/opencode", PathKind::UserData),
            ("Legacy ~/.opencode", "/home/u/.opencode", PathKind::LegacyHome),
            ("Legacy ~/opencode", "/home/u/opencode", PathKind::LegacyHome),
            ("Managed config", "/etc/opencode", PathKind::ManagedConfig),
        ]
    );
    assert!(c.iter().all(|d| !d.exists));
}

#[test]
fn run_prefers_overrides_and_skips_missing_directories() {
    let c = PathDiscovery::candidates(&env(Some("/cfg"), Some("/data")), '/');
    let c = with_existing(c, &["/data", "/home/u/.config/opencode", "/home/u/.opencode", "/etc/opencode"]);
    let d = PathDiscovery::run(c).unwrap();
    assert_eq!(d.active_config.as_deref(), Some("/home/u/.config/opencode"));
    assert_eq!(d.active_data.as_deref(), Some("/data"));
    assert_eq!(d.paths.len(), 7);
}

#[test]
fn run_uses_legacy_directory_and_never_the_managed_one() {
    let c = PathDiscovery::candidates(&env(None, None), '/');
    let c = with_existing(c, &["/home/u/opencode", "/etc/opencode"]);
    let d = PathDiscovery::run(c).unwrap();
    assert_eq!(d.active_config.as_deref(), Some("/home/u/opencode"));
    assert_eq!(d.active_data, None);
    assert_eq!(d.scan_roots(), vec!["/home/u/opencode".to_string()]);
}

#[test]
fn pull_targets_needs_an_active_directory() {
    let d = PathDiscovery::run(PathDiscovery::candidates(&env(None, None), '/')).unwrap();
    assert!(matches!(d.pull_targets(), Err(oct::error::OctError::NoConfigFound)));
}

fn discovery(config: Option<&str>, data: Option<&str>) -> PathDiscovery {
    PathDiscovery {
        paths: Vec::new(),
        active_config: config.map(|s| s.to_string()),
        active_data: data.map(|s| s.to_string()),
    }
}

#[test]
fn config_files_deduplicates_and_sorts_by_components() {
    let d = discovery(Some("/c"), Some("/d"));
    let found = vec![
        "/c/plugins/a-b.js".to_string(),
        "/c/plugins/a/b.js".to_string(),
        "/c//opencode.json".to_string(),
        "/c/opencode.json".to_string(),
        "/c/agents/x.md".to_string(),
    ];
    let files = d.config_files(found, '/').unwrap();
    assert_eq!(
        files,
        vec![
            "/c/agents/x.md".to_string(),
            "/c//opencode.json".to_string(),
            "/c/plugins/a/b.js".to_string(),
            "/c/plugins/a-b.js".to_string(),
        ]
    );
    let mut by_std: Vec<PathBuf> = files.iter().map(PathBuf::from).collect();
    by_std.sort();
    assert_eq!(by_std, files.iter().map(PathBuf::from).collect::<Vec<_>>());
}

#[test]
fn config_files_with_nothing_found_is_no_config() {
    let d = discovery(Some("/c"), None);
    assert!(matches!(d.config_files(Vec::new(), '/'), Err(oct::error::OctError::NoConfigFound)));
}

#[test]
fn scan_lists_root_files_and_whitelisted_dirs() {
    assert_eq!(
        root_config_files("/c", '/'),
        vec!["/c/opencode.json", "/c/opencode.jsonc", "/c/package.json", "/c/package-lock.json"]
    );
    assert_eq!(
        whitelisted_subdirs("/c/", '/'),
        vec!["/c/agents", "/c/commands", "/c/plugins", "/c/plugin"]
    );
}

#[test]
fn excluded_directories_are_skipped_whatever_their_case() {
    assert!(is_excluded_dir("/c/plugins/node_modules", '/'));
    assert!(is_excluded_dir("/c/plugins/Dist", '/'));
    assert!(is_excluded_dir("/c/plugins/.git/", '/'));
    assert!(!is_excluded_dir("/c/plugins/nested-plugin", '/'));
    assert!(!is_excluded_dir("/c/plugins/..", '/'));
}

#[test]
fn collected_files_follow_the_whitelist() {
    assert!(is_collected_file("/c/plugins/graphify.js", '/'));
    assert!(is_collected_file("/c/agents/coder.md", '/'));
    assert!(!is_collected_file("/c/plugins/nested-plugin/package-lock.json", '/'));
    assert!(!is_collected_file("/c/plugins/Package.JSON", '/'));
    assert!(!is_collected_file("/c/plugins/opencode.db-wal", '/'));
    assert!(!is_collected_file("/c/plugins/opencode-cache.json", '/'));
    assert!(!is_collected_file("/c/plugins/image.png", '/'));
    assert!(!is_collected_file("/c/plugins/.md", '/'));
    assert!(!is_collected_file("/c/plugins/README", '/'));
    assert!(!is_collected_file("/c/plugins/x.JS", '/'));
    assert!(is_collected_file("/c/plugins/.hidden.ts", '/'));
}

#[test]
fn extension_rule_matches_std() {
    for name in ["a.js", ".md", "x.tar.md", "README", "foo.", ".a.b"] {
        let std_ext = Path::new(name).extension().and_then(|e| e.to_str()).unwrap_or("");
        let p = format!("/c/{}", name);
        let ours = is_collected_file(&p, '/');
        let expected = ["json", "jsonc", "toml", "ts", "js", "yaml", "yml", "md"].contains(&std_ext);
        assert_eq!(ours, expected, "{}", name);
    }
}

#[test]
fn config_files_ignore_order_and_repeats() {
    let d = discovery(Some("/c"), Some("/d"));
    let a = vec![
        "/d/opencode.json".to_string(),
        "/c/agents/x.md".to_string(),
        "/c/opencode.json".to_string(),
    ];
    let b = vec![
        "/c/opencode.json".to_string(),
        "/d/opencode.json".to_string(),
        "/c/opencode.json".to_string(),
        "/c/agents/x.md".to_string(),
        "/d/opencode.json".to_string(),
    ];
    assert_eq!(d.config_files(a, '/').unwrap(), d.config_files(b, '/').unwrap());
}
