use rest_client::auth::{base64_encode, process_auth_headers};

#[test]
fn test_basic_auth_plain() {
    let mut headers = vec![("Authorization".to_string(), "Basic user:passwd".to_string())];
    process_auth_headers(&mut headers);
    assert_eq!(headers[0].1, "Basic dXNlcjpwYXNzd2Q=");
}

#[test]
fn test_basic_auth_already_encoded() {
    let mut headers = vec![(
        "Authorization".to_string(),
        "Basic dXNlcjpwYXNzd2Q=".to_string(),
    )];
    process_auth_headers(&mut headers);
    // Should not double-encode
    assert_eq!(headers[0].1, "Basic dXNlcjpwYXNzd2Q=");
}

#[test]
fn test_bearer_passthrough() {
    let mut headers = vec![(
        "Authorization".to_string(),
        "Bearer my-token-123".to_string(),
    )];
    process_auth_headers(&mut headers);
    assert_eq!(headers[0].1, "Bearer my-token-123");
}

#[test]
fn test_non_auth_header_untouched() {
    let mut headers = vec![("Content-Type".to_string(), "application/json".to_string())];
    process_auth_headers(&mut headers);
    assert_eq!(headers[0].1, "application/json");
}

#[test]
fn test_basic_auth_with_special_chars() {
    let mut headers = vec![(
        "Authorization".to_string(),
        "Basic admin:p@ss:w0rd!".to_string(),
    )];
    process_auth_headers(&mut headers);
    assert_eq!(
        headers[0].1,
        format!("Basic {}", base64_encode(b"admin:p@ss:w0rd!"))
    );
}

#[test]
fn basic_auth_name_is_case_insensitive_and_value_trimmed() {
    let mut headers = vec![
        ("authorization".to_string(), "  Basic  a:b  ".to_string()),
        ("X-Other".to_string(), "Basic a:b".to_string()),
    ];
    process_auth_headers(&mut headers);
    assert_eq!(headers[0].0, "authorization");
    assert_eq!(headers[0].1, "Basic YTpi");
    assert_eq!(headers[1].1, "Basic a:b");
}

#[test]
fn basic_prefix_is_case_sensitive() {
    let mut headers = vec![("Authorization".to_string(), "basic a:b".to_string())];
    process_auth_headers(&mut headers);
    assert_eq!(headers[0].1, "basic a:b");
}

#[test]
fn base64_padding_and_lengths() {
    assert_eq!(base64_encode(b""), "");
    assert_eq!(base64_encode(b"f"), "Zg==");
    assert_eq!(base64_encode(b"fo"), "Zm8=");
    assert_eq!(base64_encode(b"foo"), "Zm9v");
    assert_eq!(base64_encode(b"foob"), "Zm9vYg==");
    assert_eq!(base64_encode(&[0xff, 0xfe, 0xfd]), "//79");
    for n in 0..10usize {
        let bytes = vec![7u8; n];
        assert_eq!(base64_encode(&bytes).len(), 4 * ((n + 2) / 3));
    }
}

#[test]
fn basic_auth_encodes_utf8_bytes() {
    let mut headers = vec![("Authorization".to_string(), "Basic ü:x".to_string())];
    process_auth_headers(&mut headers);
    assert_eq!(headers[0].1, format!("Basic {}", base64_encode("ü:x".as_bytes())));
    assert_eq!(headers[0].1, "Basic w7w6eA==");
}
