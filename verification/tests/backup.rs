use oct::backup::{
    backup_file_entry, backup_id, missing_backup, new_backup_id, restore_target, sort_newest_first,
    BackupManifest,
};
use oct::codec::compute_sha256;
use oct::error::OctError;

#[test]
fn backup_ids_are_time_and_uuid_prefix() {
    assert_eq!(
        backup_id("20240102-030405", "1b4e28ba-2fa1-11d2-883f-0016d3cca427"),
        "20240102-030405-1b4e28ba"
    );
    let id = new_backup_id();
    assert_eq!(id.len(), 24);
    assert_eq!(&id[8..9], "-");
    assert_eq!(&id[15..16], "-");
    assert!(id[16..].chars().all(|c| c.is_ascii_hexdigit() && !c.is_ascii_uppercase()));
}

#[test]
fn backup_entries_are_relative_to_their_base() {
    let e = backup_file_entry("/c/agents/a.md", "/c", b"hi", '/');
    assert_eq!(e.original_path, "/c/agents/a.md");
    assert_eq!(e.relative_path, "agents/a.md");
    assert_eq!(e.sha256, compute_sha256(b"hi"));
    let e = backup_file_entry("/elsewhere/x.json", "/c", b"", '/');
    assert_eq!(e.relative_path, "x.json");
    let e = backup_file_entry(r"C:\c\agents\a.md", r"C:\c", b"", '\\');
    assert_eq!(e.relative_path, "agents/a.md");
}

#[test]
fn restore_goes_to_the_original_path_or_the_config_dir() {
    assert_eq!(restore_target("/c/a.json", "a.json", true, None, '/').unwrap(), "/c/a.json");
    assert_eq!(
        restore_target("/gone/a.json", "agents/a.md", false, Some("/home/u/.config"), '/').unwrap(),
        "/home/u/.config/opencode/agents/a.md"
    );
    match restore_target("/gone/a.json", "a.json", false, None, '/') {
        Err(OctError::Backup(m)) => assert_eq!(m, "cannot determine restore path for a.json"),
        other => panic!("unexpected {:?}", other),
    }
    match missing_backup("x1") {
        OctError::Backup(m) => assert_eq!(m, "backup x1 not found"),
        other => panic!("unexpected {:?}", other),
    }
}

fn manifest(id: &str, created_at: &str) -> BackupManifest {
    BackupManifest {
        id: id.to_string(),
        created_at: created_at.to_string(),
        trigger: "before-pull".to_string(),
        files: Vec::new(),
    }
}

#[test]
fn backups_are_listed_newest_first_keeping_ties_in_order() {
    let v = vec![
        manifest("a", "2024-01-01T00:00:00+00:00"),
        manifest("b", "2024-03-01T00:00:00+00:00"),
        manifest("c", "2024-02-01T00:00:00+00:00"),
        manifest("d", "2024-03-01T00:00:00+00:00"),
        manifest("e", "2024-01-01T00:00:00+00:00"),
    ];
    let mut by_std: Vec<(String, String)> = v.iter().map(|m| (m.id.clone(), m.created_at.clone())).collect();
    by_std.sort_by(|a, b| b.1.cmp(&a.1));
    let sorted = sort_newest_first(v);
    let ids: Vec<&str> = sorted.iter().map(|m| m.id.as_str()).collect();
    assert_eq!(ids, vec!["b", "d", "c", "a", "e"]);
    assert_eq!(ids, by_std.iter().map(|p| p.0.as_str()).collect::<Vec<_>>());
}

fn rfc3339_utc_like(t: &str) -> bool {
    let b = t.as_bytes();
    let n = b.len();
    if n < 25 || !t.ends_with("+00:00") {
        return false;
    }
    let body = &t[..n - 6];
    let core_len = match body.find('.') {
        Some(k) => k,
        None => body.len(),
    };
    let core = &body[..core_len];
    let m = core.len();
    m >= 19
        && core.as_bytes()[m - 15] == b'-'
        && core.as_bytes()[m - 9] == b'T'
        && core.as_bytes()[m - 3] == b':'
}

#[test]
fn new_manifest_is_stamped_in_rfc3339() {
    let m = oct::backup::BackupManifest::new("id".to_string(), "pull", Vec::new());
    assert!(rfc3339_utc_like(&m.created_at), "{}", m.created_at);
    assert_eq!(m.trigger, "pull");
}
