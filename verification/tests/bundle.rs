use oct::bundle::{
    backup_candidates, entry_content, entry_target, make_relative_path, validate_path,
    ConfigBundle, FileEntry,
};
use oct::codec::{compute_sha256, hex_encode};
use oct::error::OctError;
use oct::paths::PathDiscovery;

fn discovery(config: Option<&str>, data: Option<&str>) -> PathDiscovery {
    PathDiscovery {
        paths: Vec::new(),
        active_config: config.map(|s| s.to_string()),
        active_data: data.map(|s| s.to_string()),
    }
}

fn security_message(r: Result<(), OctError>) -> String {
    match r {
        Err(OctError::PathSecurity(m)) => m,
        other => panic!("unexpected {:?}", other),
    }
}

#[test]
fn safe_relative_paths_are_accepted() {
    for p in ["opencode.json", "agents/coder.md", "plugins/a.b/c.js", "nulled.json", "CONSOLE.md", "a.b"] {
        assert!(validate_path(p).is_ok(), "{}", p);
    }
}

#[test]
fn unsafe_paths_are_refused_with_the_reason() {
    assert_eq!(security_message(validate_path("/etc/passwd")), "path contains traversal: /etc/passwd");
    assert_eq!(security_message(validate_path("a/../b")), "path contains traversal: a/../b");
    assert_eq!(security_message(validate_path("x..y")), "path contains traversal: x..y");
    assert_eq!(security_message(validate_path("C:/x")), "path contains drive letter: C:/x");
    assert!(validate_path(":").is_ok());
    assert_eq!(security_message(validate_path("a\\b")), "path contains backslash: a\\b");
    assert_eq!(security_message(validate_path("dir/nul.txt")), "path contains reserved name: dir/nul.txt");
    assert_eq!(security_message(validate_path("Com1")), "path contains reserved name: Com1");
    assert_eq!(security_message(validate_path("x/lpt1.a.b")), "path contains reserved name: x/lpt1.a.b");
    assert!(validate_path("x/lpt2").is_ok());
}

#[test]
fn relative_path_strips_the_active_directory() {
    let d = discovery(Some("/home/u/.config/opencode"), Some("/home/u/.local/share/opencode"));
    assert_eq!(
        make_relative_path("/home/u/.config/opencode/agents/coder.md", &d, '/').unwrap(),
        "agents/coder.md"
    );
    assert_eq!(
        make_relative_path("/home/u/.local/share/opencode/x.json", &d, '/').unwrap(),
        "x.json"
    );
    assert_eq!(make_relative_path("/elsewhere/dir/file.json", &d, '/').unwrap(), "dir/file.json");
    assert_eq!(
        make_relative_path("/home/u/.config/opencode-other/a.json", &d, '/').unwrap(),
        "opencode-other/a.json"
    );
    match make_relative_path("/file.json", &d, '/') {
        Err(OctError::PathSecurity(m)) => assert_eq!(m, "cannot make relative path for /file.json"),
        other => panic!("unexpected {:?}", other),
    }
    let w = discovery(Some(r"C:\Users\D\opencode"), None);
    assert_eq!(
        make_relative_path(r"C:\Users\D\opencode\agents\a.md", &w, '\\').unwrap(),
        "agents/a.md"
    );
}

#[test]
fn hex_and_sha256() {
    assert_eq!(hex_encode(&[0x00, 0x0f, 0xab, 0xff]), "000fabff");
    assert_eq!(
        compute_sha256(b"hello"),
        "2cf24dba5fb0a30e26e83b2ac5b9e29e1b161e5c1fa7425e73043362938b9824"
    );
}

fn read(files: &[(&str, &[u8])]) -> Vec<(String, Result<Vec<u8>, OctError>)> {
    files.iter().map(|(p, c)| (p.to_string(), Ok(c.to_vec()))).collect()
}

#[test]
fn bundle_is_assembled_with_digests_and_restores() {
    let d = discovery(Some("/c"), None);
    let files = read(&[("/c/agents/coder.md", b"agent"), ("/c/opencode.json", b"{}")]);
    let b = ConfigBundle::assemble(&d, &files, "2024-01-01T00:00:00+00:00".to_string(), "linux".to_string(), '/')
        .unwrap();
    assert_eq!(b.schema_version, 1);
    assert_eq!(b.total_bytes, 7);
    assert_eq!(b.files.len(), 2);
    assert_eq!(b.files[0].path, "agents/coder.md");
    assert_eq!(b.files[0].content_base64, "YWdlbnQ=");
    assert_eq!(b.files[0].sha256, compute_sha256(b"agent"));
    assert_eq!(b.files[1].size, 2);
    let mut input = Vec::new();
    input.extend_from_slice(b"agents/coder.md");
    input.extend_from_slice(compute_sha256(b"agent").as_bytes());
    input.extend_from_slice(b"opencode.json");
    input.extend_from_slice(compute_sha256(b"{}").as_bytes());
    assert_eq!(b.bundle_hash, compute_sha256(&input));
    assert_eq!(b.compute_hash(), b.bundle_hash);
    for e in &b.files {
        let content = entry_content(e).unwrap();
        assert_eq!(e.sha256, compute_sha256(&content));
    }
    assert_eq!(entry_content(&b.files[0]).unwrap(), b"agent".to_vec());
    let m = b.to_meta();
    assert_eq!(m.file_count, 2);
    assert_eq!(m.updated_at, "2024-01-01T00:00:00+00:00");
    assert_eq!(m.bundle_hash, b.bundle_hash);
    assert_eq!(m.platform, "linux");
}

#[test]
fn bundle_refuses_large_files_and_large_totals() {
    let d = discovery(Some("/c"), None);
    let big = vec![b'x'; 1048577];
    let files = vec![("/c/big.json".to_string(), Ok(big))];
    match ConfigBundle::assemble(&d, &files, String::new(), String::new(), '/') {
        Err(OctError::Bundle(m)) => assert_eq!(m, "file /c/big.json exceeds max size (1048576 bytes)"),
        other => panic!("unexpected {:?}", other.map(|b| b.files.len())),
    }
    let chunk = vec![b'x'; 1048576];
    let files: Vec<(String, Result<Vec<u8>, OctError>)> =
        (0..11).map(|i| (format!("/c/f{}.json", i), Ok(chunk.clone()))).collect();
    match ConfigBundle::assemble(&d, &files, String::new(), String::new(), '/') {
        Err(OctError::Bundle(m)) => {
            assert_eq!(m, "total bundle size 11534336 bytes exceeds limit 10485760 bytes")
        }
        other => panic!("unexpected {:?}", other.map(|b| b.files.len())),
    }
    let files: Vec<(String, Result<Vec<u8>, OctError>)> =
        (0..10).map(|i| (format!("/c/f{}.json", i), Ok(chunk.clone()))).collect();
    assert_eq!(
        ConfigBundle::assemble(&d, &files, String::new(), String::new(), '/').unwrap().total_bytes,
        10485760
    );
}

#[test]
fn bundle_reports_the_first_failure_in_order() {
    let d = discovery(Some("/c"), None);
    let files = vec![
        ("/c/ok.json".to_string(), Ok(b"1".to_vec())),
        ("/c/gone.json".to_string(), Err(OctError::Io("not found".to_string()))),
        ("/c/nul.json".to_string(), Ok(b"2".to_vec())),
    ];
    assert!(matches!(
        ConfigBundle::assemble(&d, &files, String::new(), String::new(), '/'),
        Err(OctError::Io(m)) if m == "not found"
    ));
    let files = vec![("/c/nul.json".to_string(), Ok(b"2".to_vec()))];
    assert!(matches!(
        ConfigBundle::assemble(&d, &files, String::new(), String::new(), '/'),
        Err(OctError::PathSecurity(m)) if m == "path contains reserved name: nul.json"
    ));
}

#[test]
fn from_discovery_stamps_the_time() {
    let d = discovery(Some("/c"), None);
    let b = ConfigBundle::from_discovery(&d, &read(&[("/c/a.json", b"{}")]), "linux".to_string(), '/').unwrap();
    assert!(!b.created_at.is_empty());
    assert_eq!(b.platform, "linux");
}

fn entry(path: &str, b64: &str, sha: &str) -> FileEntry {
    FileEntry { path: path.to_string(), content_base64: b64.to_string(), sha256: sha.to_string(), size: 0 }
}

#[test]
fn entry_content_checks_encoding_and_digest() {
    let good = entry("a.json", "e30=", &compute_sha256(b"{}"));
    assert_eq!(entry_content(&good).unwrap(), b"{}".to_vec());
    match entry_content(&entry("a.json", "e30=", &compute_sha256(b"[]"))) {
        Err(OctError::Bundle(m)) => assert_eq!(m, "sha256 mismatch for file a.json"),
        other => panic!("unexpected {:?}", other),
    }
    match entry_content(&entry("a.json", "e30", &compute_sha256(b"{}"))) {
        Err(OctError::Bundle(m)) => assert!(m.starts_with("base64 decode failed: ")),
        other => panic!("unexpected {:?}", other),
    }
}

#[test]
fn entry_target_joins_safe_paths_only() {
    assert_eq!(entry_target(&entry("agents/a.md", "", ""), "/c", '/').unwrap(), "/c/agents/a.md");
    assert!(matches!(entry_target(&entry("../x", "", ""), "/c", '/'), Err(OctError::PathSecurity(_))));
}

#[test]
fn backup_candidates_pair_each_file_with_each_target() {
    let b = ConfigBundle {
        schema_version: 1,
        created_at: String::new(),
        platform: String::new(),
        files: vec![entry("a.json", "", ""), entry("b/c.md", "", "")],
        total_bytes: 0,
        bundle_hash: String::new(),
    };
    let targets = vec!["/x".to_string(), "/y/".to_string()];
    assert_eq!(
        backup_candidates(&b, &targets, '/'),
        vec![
            ("/x/a.json".to_string(), "/x".to_string()),
            ("/y/a.json".to_string(), "/y/".to_string()),
            ("/x/b/c.md".to_string(), "/x".to_string()),
            ("/y/b/c.md".to_string(), "/y/".to_string()),
        ]
    );
}

#[test]
fn empty_file_list_is_no_config_found() {
    let d = discovery(Some("/c"), None);
    let files: Vec<(String, Result<Vec<u8>, OctError>)> = Vec::new();
    assert!(matches!(
        ConfigBundle::assemble(&d, &files, String::new(), String::new(), '/'),
        Err(OctError::NoConfigFound)
    ));
}

#[test]
fn empty_bundle_digest_is_digest_of_nothing() {
    let b = ConfigBundle {
        schema_version: 1,
        created_at: String::new(),
        platform: String::new(),
        files: Vec::new(),
        total_bytes: 0,
        bundle_hash: String::new(),
    };
    let h = b.compute_hash();
    assert_eq!(h, "e3b0c44298fc1c149afbf4c8996fb92427ae41e4649b934ca495991b7852b855");
    assert_eq!(h.len(), 64);
}
