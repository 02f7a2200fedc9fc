use rest_client::codegen::{generate, supported_languages};
use rest_client::parser::ParsedRequest;

fn sample_post() -> ParsedRequest {
    ParsedRequest {
        name: None,
        note: None,
        method: "POST".to_string(),
        url: "https://example.com/api".to_string(),
        headers: vec![("Content-Type".to_string(), "application/json".to_string())],
        body: Some(r#"{"key": "value"}"#.to_string()),
        line: 0,
        no_redirect: false,
        no_cookie_jar: false,
    }
}

fn sample_get() -> ParsedRequest {
    ParsedRequest {
        name: None,
        note: None,
        method: "GET".to_string(),
        url: "https://example.com/items".to_string(),
        headers: vec![],
        body: None,
        line: 0,
        no_redirect: false,
        no_cookie_jar: false,
    }
}

#[test]
fn test_generate_python() {
    let code = generate(&sample_post(), "python").unwrap();
    assert!(code.contains("import requests"));
    assert!(code.contains("requests.post("));
    assert!(code.contains("json=payload"));
}

#[test]
fn test_generate_javascript() {
    let code = generate(&sample_post(), "javascript").unwrap();
    assert!(code.contains("await fetch("));
    assert!(code.contains("JSON.stringify("));
}

#[test]
fn test_generate_go() {
    let code = generate(&sample_post(), "go").unwrap();
    assert!(code.contains("http.NewRequest("));
    assert!(code.contains("strings.NewReader("));
}

#[test]
fn test_generate_curl() {
    let code = generate(&sample_post(), "curl").unwrap();
    assert!(code.contains("curl -X POST"));
}

#[test]
fn test_unsupported_language() {
    let result = generate(&sample_post(), "ruby");
    assert!(result.is_err());
}

#[test]
fn unsupported_language_message() {
    assert_eq!(
        generate(&sample_post(), "ruby").unwrap_err(),
        "unsupported language: ruby. Options: curl, python, javascript, go"
    );
}

#[test]
fn js_alias_and_languages() {
    assert_eq!(
        generate(&sample_post(), "js").unwrap(),
        generate(&sample_post(), "javascript").unwrap()
    );
    assert_eq!(supported_languages(), &["curl", "python", "javascript", "go"]);
}

#[test]
fn go_get_exact() {
    let code = generate(&sample_get(), "go").unwrap();
    assert_eq!(
        code,
        "package main\n\nimport (\n\t\"fmt\"\n\t\"io\"\n\t\"net/http\"\n)\n\nfunc main() {\n\treq, err := http.NewRequest(\"GET\", \"https://example.com/items\", nil)\n\tif err != nil {\n\t\tpanic(err)\n\t}\n\n\n\tresp, err := http.DefaultClient.Do(req)\n\tif err != nil {\n\t\tpanic(err)\n\t}\n\tdefer resp.Body.Close()\n\n\tfmt.Println(resp.StatusCode)\n\tdata, _ := io.ReadAll(resp.Body)\n\tfmt.Println(string(data))\n}\n"
    );
}

#[test]
fn python_get_exact() {
    let code = generate(&sample_get(), "python").unwrap();
    assert_eq!(
        code,
        "import requests\n\nurl = \"https://example.com/items\"\n\nresponse = requests.get(\n    url,\n)\n\nprint(response.status_code)\nprint(response.text)\n"
    );
}

#[test]
fn python_text_body_is_quoted() {
    let mut req = sample_post();
    req.headers = vec![("Content-Type".to_string(), "text/plain".to_string())];
    req.body = Some("say \"hi\"".to_string());
    let code = generate(&req, "python").unwrap();
    assert!(code.contains("payload = \"say \\\"hi\\\"\"\n"));
    assert!(code.contains("    data=payload,\n"));
}

#[test]
fn go_body_escaped() {
    let mut req = sample_post();
    req.body = Some("a\\b\"c".to_string());
    let code = generate(&req, "go").unwrap();
    assert!(code.contains("\tbody := strings.NewReader(\"a\\\\b\\\"c\")\n"));
    assert!(code.contains("\treq.Header.Set(\"Content-Type\", \"application/json\")\n"));
}

#[test]
fn javascript_non_json_body_escaped() {
    let mut req = sample_post();
    req.headers = vec![];
    req.body = Some("x\"y".to_string());
    let code = generate(&req, "javascript").unwrap();
    assert!(code.contains("  body: \"x\\\"y\",\n"));
    assert!(!code.contains("const headers"));
}

#[test]
fn json_body_written_pretty_in_python_and_javascript() {
    let mut req = sample_post();
    req.body = Some("{\"a\":[1,2]}".to_string());
    let py = generate(&req, "python").unwrap();
    assert!(py.contains("payload = {\n  \"a\": [\n    1,\n    2\n  ]\n}\n"));
    let js = generate(&req, "js").unwrap();
    assert!(js.contains("  body: JSON.stringify({\n  \"a\": [\n    1,\n    2\n  ]\n}),\n"));
}
