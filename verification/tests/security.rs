use rest_client::security::{
    check_url_safety, extract_host, host_warning, ip_literal, ipv4_warning, url_ip_text, validate_env_var,
    validate_file_path, IpLiteral,
};

#[test]
fn test_reject_absolute_path() {
    let result = validate_file_path("/etc/passwd", "/workspace");
    assert!(result.is_err());
    assert!(result.unwrap_err().contains("absolute"));
}

#[test]
fn test_reject_path_traversal() {
    let result = validate_file_path("../../etc/passwd", "/workspace");
    assert!(result.is_err());
    assert!(result.unwrap_err().contains("traversal"));
}

#[test]
fn test_env_var_empty_allowlist_blocks_all() {
    assert!(validate_env_var("HOME", &[]).is_err());
    assert!(validate_env_var("PATH", &[]).is_err());
}

#[test]
fn test_env_var_allowlist() {
    let allowed = vec!["HOME".to_string(), "NODE_ENV".to_string()];
    assert!(validate_env_var("HOME", &allowed).is_ok());
    assert!(validate_env_var("NODE_ENV", &allowed).is_ok());
    assert!(validate_env_var("AWS_SECRET_KEY", &allowed).is_err());
    assert!(validate_env_var("PATH", &allowed).is_err());
}

#[test]
fn test_nested_path_traversal() {
    let result = validate_file_path("data/some/../../../../../etc/passwd", "/workspace");
    assert!(result.is_err());
    assert!(result.unwrap_err().contains("traversal"));
}

#[test]
fn path_messages_exact() {
    assert_eq!(
        validate_file_path("  \\x ", "/w").unwrap_err(),
        "absolute file path not allowed: \\x. Use a relative path within the workspace."
    );
    assert_eq!(
        validate_file_path("a/..", "/w").unwrap_err(),
        "path traversal not allowed: a/... File references must stay within the workspace."
    );
    let missing = validate_file_path("no-such-file-here.txt", "/no-such-root-dir").unwrap_err();
    assert!(missing.starts_with("cannot resolve path 'no-such-file-here.txt': "));
}

#[test]
fn env_var_messages_exact() {
    assert_eq!(
        validate_env_var("X", &[]).unwrap_err(),
        "access to environment variable 'X' is blocked. Add it to rest-client.allowedProcessEnvVars in .zed/settings.json to allow access."
    );
    assert_eq!(
        validate_env_var("X", &["Y".to_string()]).unwrap_err(),
        "access to environment variable 'X' is not in the allowlist. Add it to rest-client.allowedProcessEnvVars in .zed/settings.json."
    );
}

#[test]
fn hosts_and_warnings() {
    assert_eq!(extract_host("http://localhost:8080/api").unwrap(), "localhost");
    assert_eq!(extract_host("https://[::1]:443/x").unwrap(), "[::1]");
    assert_eq!(extract_host("example.com/a").unwrap(), "example.com");
    assert!(host_warning("localhost").is_some());
    assert!(host_warning("example.com").is_none());
    assert_eq!(ip_literal("[::1]"), "::1");
    assert_eq!(
        ipv4_warning([10, 0, 0, 1]).unwrap(),
        "request targets private network (10.0.0.1). Ensure this is intentional."
    );
    assert!(ipv4_warning([172, 16, 0, 1]).is_some());
    assert!(ipv4_warning([172, 32, 0, 1]).is_none());
    assert!(ipv4_warning([192, 168, 1, 1]).is_some());
    assert!(ipv4_warning([127, 0, 0, 1]).unwrap().contains("loopback"));
    assert!(ipv4_warning([169, 254, 169, 254]).unwrap().contains("cloud metadata"));
    assert!(ipv4_warning([8, 8, 8, 8]).is_none());
}

#[test]
fn localhost_recognised_ignoring_case_and_userinfo() {
    assert_eq!(extract_host("http://admin@127.0.0.1/api").unwrap(), "127.0.0.1");
    assert_eq!(extract_host("http://LOCALHOST:8080/api").unwrap(), "LOCALHOST");
    assert!(host_warning("LOCALHOST").is_some());
    assert!(host_warning("LocalHost").is_some());
    assert!(host_warning("example.com").is_none());
}

/// What an IP text reads as, for the dotted IPv4 and `::1` texts these
/// tests use; anything else is no IP address here.
fn read_ip(text: &str) -> Option<IpLiteral> {
    if text == "::1" {
        let mut b = [0u8; 16];
        b[15] = 1;
        return Some(IpLiteral::V6(b));
    }
    let parts: Vec<&str> = text.split('.').collect();
    if parts.len() != 4 {
        return None;
    }
    let mut o = [0u8; 4];
    for (i, p) in parts.iter().enumerate() {
        o[i] = p.parse::<u8>().ok()?;
    }
    Some(IpLiteral::V4(o))
}

fn url_safety(url: &str) -> Option<String> {
    check_url_safety(url, read_ip(&url_ip_text(url)))
}

#[test]
fn test_localhost_warning() {
    assert!(url_safety("http://localhost:8080/api").is_some());
    assert!(url_safety("http://127.0.0.1/api").is_some());
}

#[test]
fn test_private_network_warning() {
    assert!(url_safety("http://10.0.0.1/api").is_some());
    assert!(url_safety("http://192.168.1.1/api").is_some());
    assert!(url_safety("http://172.16.0.1/api").is_some());
}

#[test]
fn test_cloud_metadata_warning() {
    let warning = url_safety("http://169.254.169.254/latest/meta-data/");
    assert!(warning.is_some());
    assert!(warning.unwrap().contains("cloud metadata"));
}

#[test]
fn test_public_url_no_warning() {
    assert!(url_safety("https://httpbin.org/get").is_none());
    assert!(url_safety("https://api.example.com/v1").is_none());
}

#[test]
fn url_warnings_exact() {
    assert_eq!(url_ip_text("http://[::1]:8080/x"), "::1");
    assert_eq!(
        url_safety("http://[::1]:8080/x").unwrap(),
        "request targets localhost ([::1]). Ensure this is intentional."
    );
    let mut b = [0u8; 16];
    b[15] = 1;
    assert_eq!(
        check_url_safety("http://[0:0:0:0:0:0:0:1]/", Some(IpLiteral::V6(b))).unwrap(),
        "request targets loopback address (::1). Ensure this is intentional."
    );
    b[0] = 0x20;
    assert!(check_url_safety("http://[2000::1]/", Some(IpLiteral::V6(b))).is_none());
    assert_eq!(
        url_safety("http://user@10.1.2.3:99/").unwrap(),
        "request targets private network (10.1.2.3). Ensure this is intentional."
    );
    assert!(url_safety("http://172.32.0.1/").is_none());
}
