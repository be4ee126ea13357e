use oct::client::{bearer_header, config_url, is_success_status, meta_url, reply_error, ErrorDetail, ServerError};
use oct::config::{oct_backups_dir, oct_backups_dir_in, oct_data_dir, oct_data_dir_in, OctConfig};
use oct::error::OctError;

#[test]
fn request_addresses_and_headers() {
    assert_eq!(config_url("https://oct.example"), "https://oct.example/api/v1/config");
    assert_eq!(meta_url("https://oct.example"), "https://oct.example/api/v1/meta");
    assert_eq!(bearer_header("tok"), "Bearer tok");
    assert!(is_success_status(200));
    assert!(is_success_status(299));
    assert!(!is_success_status(300));
    assert!(!is_success_status(199));
}

#[test]
fn reply_errors_use_the_server_code_or_the_status() {
    let parsed = ServerError {
        error: ErrorDetail { code: "UNAUTHORIZED".to_string(), message: "bad token".to_string() },
        request_id: "r1".to_string(),
    };
    match reply_error(401, "{..}".to_string(), Some(parsed)) {
        OctError::ServerError { code, message } => {
            assert_eq!(code, "UNAUTHORIZED");
            assert_eq!(message, "bad token");
        }
        other => panic!("unexpected {:?}", other),
    }
    match reply_error(502, "Bad Gateway".to_string(), None) {
        OctError::ServerError { code, message } => {
            assert_eq!(code, "HTTP_502");
            assert_eq!(message, "Bad Gateway");
        }
        other => panic!("unexpected {:?}", other),
    }
}

#[test]
fn settings_directory() {
    assert_eq!(oct_data_dir_in(Some("/home/u/.config"), '/').unwrap(), "/home/u/.config/oct");
    match oct_data_dir_in(None, '/') {
        Err(OctError::Config(m)) => assert_eq!(m, "cannot determine config directory"),
        other => panic!("unexpected {:?}", other),
    }
    if let (Ok(d), Ok(b)) = (oct_data_dir(), oct_backups_dir()) {
        assert!(d.ends_with("oct"));
        assert!(b.starts_with(&d));
        assert!(b.ends_with("backups"));
    }
    let c = OctConfig::new("t".to_string(), "e".to_string());
    assert_eq!(c.token, "t");
    assert_eq!(c.endpoint, "e");
}

#[test]
fn error_messages_read_as_the_tool_prints_them() {
    assert_eq!(OctError::NoConfigFound.message(), "no opencode config found");
    assert_eq!(
        OctError::NotInitialized.message(),
        "not initialized: run `oct init` first"
    );
    assert_eq!(
        OctError::ServerError { code: "C".to_string(), message: "m".to_string() }.message(),
        "server error: C m"
    );
    assert_eq!(OctError::PathSecurity("x".to_string()).message(), "path security violation: x");
    assert_eq!(OctError::Io("e".to_string()).copy().message(), "IO error: e");
}

#[test]
fn backups_directory() {
    assert_eq!(oct_backups_dir_in(Some("/home/u/.config"), '/').unwrap(), "/home/u/.config/oct/backups");
    assert_eq!(
        oct_backups_dir_in(Some("C:\\Users\\u\\AppData\\Roaming"), '\\').unwrap(),
        "C:\\Users\\u\\AppData\\Roaming\\oct\\backups"
    );
    match oct_backups_dir_in(None, '/') {
        Err(OctError::Config(m)) => assert_eq!(m, "cannot determine config directory"),
        other => panic!("unexpected {:?}", other),
    }
}
