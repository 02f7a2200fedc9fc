use rest_client::auth::base64_encode;
use rest_client::curl::{from_curl, to_curl, tokenize_curl};
use rest_client::parser::ParsedRequest;

#[test]
fn test_to_curl_get() {
    let req = ParsedRequest {
        name: None,
        note: None,
        method: "GET".to_string(),
        url: "https://example.com/api".to_string(),
        headers: vec![("Accept".to_string(), "application/json".to_string())],
        body: None,
        line: 0,
        no_redirect: false,
        no_cookie_jar: false,
    };
    let curl = to_curl(&req);
    assert!(curl.contains("curl -X GET"));
    assert!(curl.contains("-H 'Accept: application/json'"));
    assert!(curl.contains("'https://example.com/api'"));
}

#[test]
fn test_to_curl_post() {
    let req = ParsedRequest {
        name: None,
        note: None,
        method: "POST".to_string(),
        url: "https://example.com/api".to_string(),
        headers: vec![("Content-Type".to_string(), "application/json".to_string())],
        body: Some(r#"{"key": "value"}"#.to_string()),
        line: 0,
        no_redirect: false,
        no_cookie_jar: false,
    };
    let curl = to_curl(&req);
    assert!(curl.contains("-d '{\"key\": \"value\"}'"));
}

#[test]
fn test_from_curl_simple() {
    let result = from_curl("curl https://example.com/api").unwrap();
    assert!(result.contains("GET https://example.com/api"));
}

#[test]
fn test_from_curl_post_with_headers() {
    let result = from_curl(
        "curl -X POST https://example.com/api \
         -H 'Content-Type: application/json' \
         -d '{\"key\": \"value\"}'",
    )
    .unwrap();
    assert!(result.contains("POST https://example.com/api"));
    assert!(result.contains("Content-Type: application/json"));
    assert!(result.contains("\"key\": \"value\""));
}

#[test]
fn test_from_curl_with_auth() {
    let result = from_curl("curl -u user:passwd https://example.com/api").unwrap();
    assert!(result.contains("Authorization: Basic dXNlcjpwYXNzd2Q="));
}

#[test]
fn test_from_curl_multiline() {
    let result = from_curl(
        "curl -X POST \\\n\
         -H 'Content-Type: application/json' \\\n\
         -d '{\"a\": 1}' \\\n\
         https://example.com/api",
    )
    .unwrap();
    assert!(result.contains("POST https://example.com/api"));
}

#[test]
fn test_base64_encode() {
    assert_eq!(base64_encode(b"user:passwd"), "dXNlcjpwYXNzd2Q=");
    assert_eq!(base64_encode(b"hello"), "aGVsbG8=");
}

#[test]
fn to_curl_exact_with_quote_in_body() {
    let req = ParsedRequest {
        name: None,
        note: None,
        method: "PUT".to_string(),
        url: "https://x.test/a".to_string(),
        headers: vec![("A".to_string(), "1".to_string())],
        body: Some("it's".to_string()),
        line: 0,
        no_redirect: false,
        no_cookie_jar: false,
    };
    assert_eq!(
        to_curl(&req),
        "curl -X PUT \\\n  -H 'A: 1' \\\n  -d 'it'\\''s' \\\n  'https://x.test/a'"
    );
}

#[test]
fn tokenizer_quotes_and_escapes() {
    let toks = tokenize_curl("curl  'a b' \"c\\\"d\" e\\\nf ''").unwrap();
    assert_eq!(toks, vec!["curl", "a b", "c\"d", "e", "f"]);
}

#[test]
fn from_curl_without_url_is_error() {
    assert_eq!(
        from_curl("curl -X GET").unwrap_err(),
        "no URL found in cURL command"
    );
}

#[test]
fn from_curl_exact_text() {
    let out = from_curl("curl -A agent -o out.txt https://h.test/p -d plain").unwrap();
    assert_eq!(out, "POST https://h.test/p HTTP/1.1\nUser-Agent: agent\n\nplain\n");
}

#[test]
fn from_curl_urlencode_adds_content_type_once() {
    let out = from_curl("curl --data-urlencode a=1 https://h.test").unwrap();
    assert!(out.contains("Content-Type: application/x-www-form-urlencoded\n"));
    let out2 = from_curl("curl -H 'content-type: text/plain' --data-urlencode a=1 https://h.test").unwrap();
    assert!(!out2.contains("x-www-form-urlencoded"));
}

#[test]
fn from_curl_method_is_uppercased() {
    let out = from_curl("curl -X delete https://h.test/1").unwrap();
    assert!(out.starts_with("DELETE https://h.test/1 HTTP/1.1\n"));
}

#[test]
fn to_curl_then_from_curl_gives_the_request_back() {
    let req = ParsedRequest {
        name: None,
        note: None,
        method: "PUT".to_string(),
        url: "https://example.com/items?id=1".to_string(),
        headers: vec![
            ("Accept".to_string(), "text/plain".to_string()),
            ("X-Trace".to_string(), "a b".to_string()),
        ],
        body: Some("name=widget size".to_string()),
        line: 0,
        no_redirect: false,
        no_cookie_jar: false,
    };
    let back = from_curl(&to_curl(&req)).unwrap();
    assert_eq!(
        back,
        "PUT https://example.com/items?id=1 HTTP/1.1\nAccept: text/plain\nX-Trace: a b\n\nname=widget size\n"
    );
    let json_req = ParsedRequest { body: Some("{\"a\":1}".to_string()), headers: vec![], ..req };
    assert_eq!(
        from_curl(&to_curl(&json_req)).unwrap(),
        "PUT https://example.com/items?id=1 HTTP/1.1\n\n{\n  \"a\": 1\n}\n"
    );
}
