use oct::error::OctError;
use oct::token::{generate_token, init_token, mask_token, token_from_indices, token_hash, validate_token};

#[test]
fn generated_tokens_are_48_alphanumerics_and_valid() {
    for _ in 0..20 {
        let t = generate_token();
        assert_eq!(t.len(), 48);
        assert!(t.chars().all(|c| c.is_ascii_alphanumeric()));
        assert!(validate_token(&t).is_ok());
    }
}

#[test]
fn validation_needs_32_alphanumerics() {
    assert!(validate_token(&"a".repeat(32)).is_ok());
    assert!(validate_token(&"Ab9".repeat(20)).is_ok());
    let err = validate_token(&"a".repeat(31)).unwrap_err();
    match err {
        OctError::TokenInvalid(m) => assert_eq!(
            m,
            "token must contain only letters and digits, and be at least 32 characters long"
        ),
        other => panic!("unexpected {:?}", other),
    }
    assert!(validate_token(&format!("{}-", "a".repeat(40))).is_err());
    assert!(validate_token(&format!("{}\n", "a".repeat(40))).is_err());
    assert!(validate_token(&"é".repeat(40)).is_err());
    assert!(validate_token("").is_err());
}

#[test]
fn token_hash_is_hex_sha256_of_the_token() {
    assert_eq!(
        token_hash("abc"),
        "ba7816bf8f01cfea414140de5dae2223b00361a396177a9cb410ff61f20015ad"
    );
    assert_eq!(
        token_hash(""),
        "e3b0c44298fc1c149afbf4c8996fb92427ae41e4649b934ca495991b7852b855"
    );
}

#[test]
fn init_token_keeps_a_valid_one_and_refuses_a_bad_one() {
    let good = "x".repeat(33);
    assert_eq!(init_token(Some(good.clone())).unwrap(), good);
    assert!(matches!(init_token(Some("short".to_string())), Err(OctError::TokenInvalid(_))));
    let fresh = init_token(None).unwrap();
    assert_eq!(fresh.len(), 48);
    assert!(validate_token(&fresh).is_ok());
}

#[test]
fn mask_shows_both_ends() {
    assert_eq!(mask_token("abcdefghijkl"), "abcd****ijkl");
    assert_eq!(mask_token("abcd"), "abcd****abcd");
}

#[test]
fn mask_cuts_at_bytes() {
    assert_eq!(mask_token("éabcdefghé"), "éab****ghé");
}

#[test]
fn token_from_draws_picks_alphabet_characters() {
    let mut idx = vec![0usize; 48];
    idx[1] = 25;
    idx[2] = 26;
    idx[3] = 61;
    let t = token_from_indices(&idx);
    assert_eq!(&t[..4], "AZa9");
    assert_eq!(t.len(), 48);
    assert!(t[4..].chars().all(|c| c == 'A'));
}

#[test]
fn token_from_any_number_of_draws() {
    assert_eq!(token_from_indices(&vec![7, 33, 52]), "Hh0");
    assert_eq!(token_from_indices(&Vec::new()), "");
}
