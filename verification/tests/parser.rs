use rest_client::parser::{find_request_at_line, parse};

#[test]
fn test_simple_get() {
    let input = "GET https://example.com/api\n";
    let file = parse(input);
    assert_eq!(file.requests.len(), 1);
    assert_eq!(file.requests[0].method, "GET");
    assert_eq!(file.requests[0].url, "https://example.com/api");
    assert!(file.requests[0].body.is_none());
}

#[test]
fn test_post_with_body() {
    let input = "\
POST https://example.com/api
Content-Type: application/json

{\"key\": \"value\"}
";
    let file = parse(input);
    assert_eq!(file.requests.len(), 1);
    assert_eq!(file.requests[0].method, "POST");
    assert_eq!(file.requests[0].headers.len(), 1);
    assert_eq!(file.requests[0].headers[0].0, "Content-Type");
    assert_eq!(file.requests[0].body.as_deref(), Some("{\"key\": \"value\"}"));
}

#[test]
fn test_multiple_requests() {
    let input = "\
GET https://example.com/one

###

POST https://example.com/two
";
    let file = parse(input);
    assert_eq!(file.requests.len(), 2);
    assert_eq!(file.requests[0].url, "https://example.com/one");
    assert_eq!(file.requests[1].url, "https://example.com/two");
}

#[test]
fn test_file_variables() {
    let input = "\
@host = example.com

GET https://{{host}}/api
";
    let file = parse(input);
    assert_eq!(file.variables.get("host").unwrap(), "example.com");
    assert_eq!(file.requests.len(), 1);
}

#[test]
fn test_annotations() {
    let input = "\
# @name login
# @no-redirect
POST https://example.com/auth
";
    let file = parse(input);
    assert_eq!(file.requests.len(), 1);
    assert_eq!(file.requests[0].name.as_deref(), Some("login"));
    assert!(file.requests[0].no_redirect);
}

#[test]
fn test_request_line_numbers() {
    let input = "\
@host = example.com

# comment
GET https://example.com/one

###

POST https://example.com/two
";
    let file = parse(input);
    assert_eq!(file.requests[0].line, 3);
    assert_eq!(file.requests[1].line, 7);
}

#[test]
fn lowercase_method_is_uppercased_and_unknown_rejected() {
    let file = parse("post https://x.test\n\n###\nFETCH https://y.test\n");
    assert_eq!(file.requests.len(), 1);
    assert_eq!(file.requests[0].method, "POST");
}

#[test]
fn request_at_line_picks_last_request_above() {
    let input = "GET https://a.test\n\n###\n\nGET https://b.test\n";
    let file = parse(input);
    assert_eq!(find_request_at_line(&file, 0).unwrap().url, "https://a.test");
    assert_eq!(find_request_at_line(&file, 3).unwrap().url, "https://a.test");
    assert_eq!(find_request_at_line(&file, 4).unwrap().url, "https://b.test");
    assert_eq!(find_request_at_line(&file, 99).unwrap().url, "https://b.test");
}

#[test]
fn note_annotation_and_crlf() {
    let file = parse("# @note careful\r\nDELETE https://x.test/1\r\nX-A: 1\r\n");
    assert_eq!(file.requests[0].note.as_deref(), Some("careful"));
    assert_eq!(file.requests[0].headers[0].1, "1");
}

#[test]
fn multiline_url_is_joined() {
    let text = "GET https://example.com\n    /api\n    /users\n    ?page=1\n    &limit=10\nAccept: application/json\n";
    let result = parse(text);
    assert_eq!(result.requests.len(), 1);
    assert_eq!(result.requests[0].url, "https://example.com/api/users?page=1&limit=10");
    assert_eq!(result.requests[0].headers, vec![("Accept".to_string(), "application/json".to_string())]);
    assert_eq!(result.requests[0].body, None);
}

#[test]
fn lowercase_method_is_upper_cased() {
    let result = parse("get https://x.test\n");
    assert_eq!(result.requests[0].method, "GET");
}
