use rest_client::extension::{find_asset, http_method, parse_request, release_plan, send_output, slash_command_kind, slash_curl_text, ArchKind, HttpMethodKind, OsKind, SlashCommandKind};

#[test]
fn slash_request_parsing() {
    let r = parse_request("# c\n\npost https://x.test/a HTTP/1.1\nA: 1\nnot-a-header\nB : 2 \n\n{\"k\": 1}\n\n").ok().unwrap();
    assert_eq!(r.method, "post");
    assert_eq!(r.url, "https://x.test/a");
    assert_eq!(r.headers, vec![("A".to_string(), "1".to_string()), ("B".to_string(), "2".to_string())]);
    assert_eq!(r.body.as_deref(), Some("{\"k\": 1}"));
    assert_eq!(parse_request("").err().unwrap(), "empty request");
    assert_eq!(parse_request("# only\n// comments").err().unwrap(), "no request line found");
    assert_eq!(parse_request("GET").err().unwrap(), "invalid request line, expected: METHOD URL");
}

#[test]
fn slash_curl_and_methods() {
    let r = parse_request("PUT https://x.test\nA: 1\n\nit's").ok().unwrap();
    assert_eq!(slash_curl_text(&r), "curl -X PUT 'https://x.test' \\\n  -H 'A: 1' \\\n  -d 'it'\\''s'");
    assert!(matches!(http_method("patch"), Ok(HttpMethodKind::Patch)));
    assert_eq!(http_method("brew").err().unwrap(), "unsupported method: brew");
    assert!(matches!(slash_command_kind("http-send"), Ok(SlashCommandKind::HttpSend)));
    assert_eq!(slash_command_kind("x").err().unwrap(), "unknown command: x");
}

#[test]
fn send_output_text() {
    let out = send_output(&vec![("a".to_string(), "b".to_string())], "plain");
    assert_eq!(out, "Response Headers:\na: b\n\nplain");
    let json = send_output(&vec![], "{\"k\":1}");
    assert_eq!(json, "Response Headers:\n\n{\n  \"k\": 1\n}");
}

#[test]
fn release_plans() {
    let p = release_plan(OsKind::Linux, ArchKind::X8664, "lsp-1.2.3").ok().unwrap();
    assert_eq!(p.asset_name, "rest-client-lsp-x86_64-unknown-linux-gnu.tar.gz");
    assert_eq!(p.version_dir, "rest-client-lsp-1.2.3");
    assert_eq!(p.binary_path, "rest-client-lsp-1.2.3/rest-client-lsp");
    assert!(!p.zip);
    let w = release_plan(OsKind::Windows, ArchKind::X8664, "v2").ok().unwrap();
    assert_eq!(w.binary_path, "rest-client-lsp-v2/rest-client-lsp.exe");
    assert!(w.zip);
    assert_eq!(release_plan(OsKind::Linux, ArchKind::Aarch64, "x").err().unwrap(), "unsupported platform");
    let names = vec!["a".to_string(), "b".to_string()];
    assert_eq!(find_asset(&names, "b").unwrap(), 1);
    assert_eq!(find_asset(&names, "c").unwrap_err(), "no asset found: c");
}
