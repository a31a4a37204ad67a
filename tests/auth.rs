use shortener::{
    check_authorization, check_digest, load_correct_bearer_token_hash, load_token_increment_secret,
    plaintext_body, CouldNotParsePlainText, AUTHORIZATION_FAILED,
};

#[test]
fn secret_is_blake3_hash() {
    let expected: [u8; 32] = [
        0xaf, 0x13, 0x49, 0xb9, 0xf5, 0xf9, 0xa1, 0xa6, 0xa0, 0x40, 0x4d, 0xea, 0x36, 0xdc, 0xc9,
        0x49, 0x9b, 0xcb, 0x25, 0xc9, 0xad, 0xc1, 0x12, 0xb7, 0xcc, 0x9a, 0x93, 0xca, 0xe4, 0x1f,
        0x32, 0x62,
    ];
    assert_eq!(load_token_increment_secret(""), expected);
}

#[test]
fn bearer_token_is_accepted() {
    let correct = load_correct_bearer_token_hash("s3cret");
    assert_eq!(correct, load_token_increment_secret("Bearer s3cret"));
    assert_eq!(check_authorization("Bearer s3cret", &correct), Ok(()));
}

#[test]
fn wrong_token_is_refused() {
    let correct = load_correct_bearer_token_hash("s3cret");
    assert_eq!(check_authorization("Bearer other", &correct), Err(AUTHORIZATION_FAILED.to_string()));
    assert_eq!(check_authorization("s3cret", &correct), Err("Authorization failed".to_string()));
    assert_eq!(check_authorization("", &correct), Err("Authorization failed".to_string()));
}

#[test]
fn digests_compare_bytewise() {
    let a = [7u8; 32];
    let mut b = [7u8; 32];
    assert_eq!(check_digest(&a, &b), Ok(()));
    b[31] = 8;
    assert!(check_digest(&a, &b).is_err());
}

#[test]
fn body_must_be_utf8() {
    assert_eq!(plaintext_body(b"https://example.com".to_vec()), Ok("https://example.com".to_string()));
    assert_eq!(plaintext_body("héllo".as_bytes().to_vec()), Ok("héllo".to_string()));
    assert_eq!(plaintext_body(vec![0xff, 0xfe]), Err(CouldNotParsePlainText));
    assert_eq!(plaintext_body(Vec::new()), Ok(String::new()));
}
