use rest_client::executor::{check_body_size, file_name_of, format_response, is_multipart, multipart_boundary, redirect_limit, request_cycle_free, resolve_request, Response, MAX_BODY_SIZE};
use rest_client::handler::{code_lenses, completions_at, diagnostics, prepare_execution, record_response, Position, State, SEND_REQUEST_COMMAND};
use rest_client::parser::parse;
use rest_client::strmap::StrMap;
use rest_client::variables::VariableContext;

const DOC: &str = "@host = h.test\n\n# @name first\nGET https://{{host}}/a\n\n###\n\nPOST https://{{host}}/b\nContent-Type: application/json\n\n{\"x\": 1}\n";

#[test]
fn lenses_on_request_lines() {
    let lenses = code_lenses("file:///a.http", DOC);
    assert_eq!(lenses.len(), 2);
    assert_eq!(lenses[0].line, 3);
    assert_eq!(lenses[0].title, "Send Request - GET https://{{host}}/a");
    assert_eq!(lenses[1].line, 7);
    assert_eq!(lenses[1].command, SEND_REQUEST_COMMAND);
    assert_eq!(lenses[1].uri, "file:///a.http");
}

#[test]
fn empty_url_diagnostic() {
    let d = diagnostics("GET https://ok.test\n");
    assert!(d.is_empty());
    let e = diagnostics("GET  x\n");
    assert_eq!(e.len(), 1);
    assert_eq!(e[0].line, 0);
    assert_eq!(e[0].end_character, 6);
    assert_eq!(e[0].message, "Request URL is empty");
}

#[test]
fn completions_inside_braces() {
    let mut state = State::new();
    state.open_document("u", DOC);
    let items = completions_at("GET {{ho", Position { line: 0, character: 8 }, &state.variable_ctx);
    assert_eq!(items.len(), 1);
    assert_eq!(items[0].label, "host");
    assert!(!items[0].is_function);
    let all = completions_at("x {{", Position { line: 0, character: 4 }, &state.variable_ctx);
    assert!(all.iter().any(|c| c.label == "$guid" && c.is_function));
    let closed = completions_at("{{host}} ", Position { line: 0, character: 9 }, &state.variable_ctx);
    assert!(closed.is_empty());
    let past = completions_at("{{h", Position { line: 5, character: 0 }, &state.variable_ctx);
    assert!(past.is_empty());
}

#[test]
fn prepare_and_record() {
    let mut state = State::new();
    state.open_document("u", DOC);
    assert_eq!(prepare_execution(&state, "v", 0).err().unwrap(), "document not found");
    assert_eq!(prepare_execution(&state, "u", 0).err().unwrap(), "no request found at line 0");
    let exec = prepare_execution(&state, "u", 4).ok().unwrap();
    assert_eq!(exec.request.url, "https://{{host}}/a");
    let resolved = resolve_request(&exec.request, &exec.ctx);
    assert_eq!(resolved.url, "https://h.test/a");
    assert_eq!(resolved.max_redirects, Some(10));
    let response = Response {
        status: 200,
        status_text: "OK".to_string(),
        headers: vec![],
        body: "{\"t\":\"v\"}".to_string(),
        elapsed_ms: 3,
    };
    record_response(&mut state, &exec.request, &response);
    let exec2 = prepare_execution(&state, "u", 8).ok().unwrap();
    assert_eq!(exec2.request.method, "POST");
    let r = resolve_request(&exec2.request, &exec2.ctx);
    assert_eq!(r.content_type, "application/json");
    assert_eq!(r.body.as_deref(), Some("{\"x\": 1}"));
}

#[test]
fn executor_helpers() {
    let file = parse("# @no-redirect\nGET https://a.test\n");
    assert_eq!(redirect_limit(&file.requests[0]), None);
    assert!(is_multipart("multipart/form-data; boundary=XyZ"));
    assert_eq!(multipart_boundary("multipart/form-data; boundary= XyZ "), "XyZ");
    assert_eq!(multipart_boundary("multipart/form-data"), "boundary");
    assert_eq!(file_name_of("a/b/c.txt"), "c.txt");
    assert_eq!(file_name_of("c.txt"), "c.txt");
    assert_eq!(check_body_size("ok".to_string()).unwrap(), "ok");
    let big = "a".repeat(MAX_BODY_SIZE + 1);
    assert_eq!(
        check_body_size(big).unwrap_err(),
        "response body too large (10485761 bytes, max 10485760)"
    );
}

#[test]
fn switching_environment_applies_variables() {
    let mut state = State::new();
    let mut dev = StrMap::new();
    dev.insert("host".to_string(), "dev.test".to_string());
    state.settings.environments.insert("dev".to_string(), dev);
    state.switch_environment("dev");
    assert_eq!(state.variable_ctx.variables.get("host").unwrap(), "dev.test");
    state.open_document("u", "GET https://x.test\n");
    state.close_document("u");
    assert!(state.documents.get("u").is_none());
}

#[test]
fn switching_environment_replaces_its_variables() {
    let mut state = State::new();
    let mut dev = StrMap::new();
    dev.insert("host".to_string(), "localhost:3000".to_string());
    dev.insert("debug".to_string(), "1".to_string());
    let mut prod = StrMap::new();
    prod.insert("host".to_string(), "api.example.com".to_string());
    state.settings.environments.insert("dev".to_string(), dev);
    state.settings.environments.insert("prod".to_string(), prod);
    state.open_document("u", "@token = abc\nGET https://{{host}}\n");
    state.switch_environment("dev");
    assert_eq!(state.variable_ctx.variables.get("debug").unwrap(), "1");
    state.switch_environment("prod");
    assert_eq!(state.settings.active_environment.as_deref(), Some("prod"));
    assert_eq!(state.variable_ctx.variables.get("host").unwrap(), "api.example.com");
    assert!(state.variable_ctx.variables.get("debug").is_none());
    assert_eq!(state.variable_ctx.variables.get("token").unwrap(), "abc");
}

#[test]
fn response_formatted_for_display() {
    let response = Response {
        status: 200,
        status_text: "OK".to_string(),
        headers: vec![("A".to_string(), "1".to_string()), ("B".to_string(), "x y".to_string())],
        body: "{\"k\":1}".to_string(),
        elapsed_ms: 42,
    };
    assert_eq!(format_response(&response), "HTTP/1.1 200 OK\nA: 1\nB: x y\n\n# 42ms\n\n{\"k\":1}");
}

#[test]
fn request_cycles_checked_only_where_reached() {
    let mut vars = StrMap::new();
    vars.insert("loop".to_string(), "{{loop}}".to_string());
    vars.insert("host".to_string(), "h.test".to_string());
    let ctx = VariableContext::new(vars);
    let file = parse("GET https://{{host}}/a\nX: {{host}}\n");
    assert!(request_cycle_free(&file.requests[0], &ctx));
    let r = resolve_request(&file.requests[0], &ctx);
    assert_eq!(r.url, "https://h.test/a");
    let bad = parse("GET https://{{loop}}\n");
    assert!(!request_cycle_free(&bad.requests[0], &ctx));
}

#[test]
fn last_applied_variable_source_wins() {
    let mut state = State::new();
    let mut dev = StrMap::new();
    dev.insert("host".to_string(), "b".to_string());
    state.settings.environments.insert("dev".to_string(), dev);
    state.settings.active_environment = Some("dev".to_string());
    state.open_document("a", "@host = a\nGET https://{{host}}\n");
    assert_eq!(state.variable_ctx.variables.get("host").unwrap(), "a");
    state.apply_environment_variables();
    assert_eq!(state.variable_ctx.variables.get("host").unwrap(), "b");
    state.open_document("c", "@host = c\nGET https://{{host}}\n");
    assert_eq!(state.variable_ctx.variables.get("host").unwrap(), "c");
    state.switch_environment("none");
    assert_eq!(state.variable_ctx.variables.get("host").unwrap(), "c");
}
