use oct::bundle::make_relative_path;
use oct::pathname::join_str;
use oct::paths::PathDiscovery;

#[test]
fn join_keeps_the_drive_for_rooted_names() {
    assert_eq!(join_str(r"C:\x", r"\y", '\\'), r"C:\y");
    assert_eq!(join_str(r"C:\x", "/y", '\\'), "C:/y");
    assert_eq!(join_str(r"\x", r"\y", '\\'), r"\y");
}

#[test]
fn join_onto_a_bare_drive_adds_no_separator() {
    assert_eq!(join_str("C:", "x", '\\'), "C:x");
    assert_eq!(join_str(r"C:\", "x", '\\'), r"C:\x");
    assert_eq!(join_str("C:x", "y", '\\'), r"C:x\y");
}

#[test]
fn join_with_a_drive_name_replaces_the_base() {
    assert_eq!(join_str(r"C:\a", r"D:\b", '\\'), r"D:\b");
    assert_eq!(join_str(r"C:\a", "d:b", '\\'), "d:b");
}

#[test]
fn drive_letters_are_only_read_on_windows() {
    assert_eq!(join_str("/a", "C:x", '/'), "/a/C:x");
    assert_eq!(join_str("/a", "/b", '/'), "/b");
}

#[test]
fn drive_letters_compare_without_case() {
    let d = PathDiscovery {
        paths: Vec::new(),
        active_config: Some(r"C:\Users\u\opencode".to_string()),
        active_data: None,
    };
    assert_eq!(make_relative_path(r"c:\Users\u\opencode\agents\a.md", &d, '\\').unwrap(), "agents/a.md");
    let found = vec![r"c:\x\a.json".to_string(), r"C:\x\a.json".to_string(), r"C:\w.json".to_string()];
    assert_eq!(
        d.config_files(found, '\\').unwrap(),
        vec![r"C:\w.json".to_string(), r"c:\x\a.json".to_string()]
    );
}

fn name_of(p: &str, sep: char) -> Option<String> {
    oct::pathname::file_name_exec(&p.chars().collect(), sep).map(|v| v.into_iter().collect())
}

#[test]
fn server_shares_are_prefixes() {
    assert_eq!(name_of(r"\\server\share", '\\'), None);
    assert_eq!(name_of(r"\\server\share\a.json", '\\'), Some("a.json".to_string()));
    assert_eq!(name_of(r"\\server", '\\'), Some("server".to_string()));
    assert_eq!(name_of(r"\\.\COM1", '\\'), None);
    assert_eq!(join_str(r"\\server\share", "x", '\\'), r"\\server\share\x");
    assert_eq!(join_str(r"\\server\share\a", r"\b", '\\'), r"\\server\share\b");
    let d = PathDiscovery {
        paths: Vec::new(),
        active_config: Some(r"\\server\share\cfg".to_string()),
        active_data: None,
    };
    assert_eq!(make_relative_path(r"\\server\share\cfg\agents\a.md", &d, '\\').unwrap(), "agents/a.md");
    let found = vec![r"C:\a.json".to_string(), r"\\srv\sh\a.json".to_string()];
    assert_eq!(
        d.config_files(found, '\\').unwrap(),
        vec![r"\\srv\sh\a.json".to_string(), r"C:\a.json".to_string()]
    );
}

#[test]
fn verbatim_paths_keep_dots_and_rebuild_on_join() {
    assert_eq!(name_of(r"\\?\C:\a\.", '\\'), None);
    assert_eq!(name_of(r"C:\a\.", '\\'), Some("a".to_string()));
    assert_eq!(name_of(r"\\?\C:\a/b", '\\'), Some("a/b".to_string()));
    assert_eq!(join_str(r"\\?\C:\a", r"b\..\c", '\\'), r"\\?\C:\a\c");
    assert_eq!(join_str(r"\\?\C:\a", r"\x", '\\'), r"\\?\C:\x");
    assert_eq!(join_str(r"\\?\C:\a", "b/c", '\\'), r"\\?\C:\a\b\c");
}

#[test]
fn verbatim_directories_strip_like_others() {
    let d = PathDiscovery {
        paths: Vec::new(),
        active_config: Some(r"\\?\C:\cfg".to_string()),
        active_data: None,
    };
    let file = join_str(r"\\?\C:\cfg", r"agents\a.md", '\\');
    assert_eq!(file, r"\\?\C:\cfg\agents\a.md");
    assert_eq!(make_relative_path(&file, &d, '\\').unwrap(), "agents/a.md");
}
