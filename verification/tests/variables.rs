use rest_client::strmap::StrMap;
use rest_client::variables::{available_variables, resolve, try_resolve, NamedResponse, VariableContext};

fn empty_ctx() -> VariableContext {
    VariableContext::new(StrMap::new())
}

#[test]
fn test_no_variables() {
    let ctx = empty_ctx();
    assert_eq!(resolve("hello world", &ctx), "hello world");
}

#[test]
fn test_file_variable() {
    let mut vars = StrMap::new();
    vars.insert("host".to_string(), "example.com".to_string());
    let ctx = VariableContext::new(vars);
    assert_eq!(
        resolve("https://{{host}}/api", &ctx),
        "https://example.com/api"
    );
}

#[test]
fn test_multiple_variables() {
    let mut vars = StrMap::new();
    vars.insert("host".to_string(), "example.com".to_string());
    vars.insert("port".to_string(), "8080".to_string());
    let ctx = VariableContext::new(vars);
    assert_eq!(
        resolve("https://{{host}}:{{port}}/api", &ctx),
        "https://example.com:8080/api"
    );
}

#[test]
fn test_unresolved_variable() {
    let ctx = empty_ctx();
    assert_eq!(resolve("{{unknown}}", &ctx), "");
}

#[test]
fn test_system_guid() {
    let ctx = empty_ctx();
    let result = resolve("{{$guid}}", &ctx);
    assert_eq!(result.len(), 36);
    assert_eq!(result.chars().filter(|c| *c == '-').count(), 4);
}

#[test]
fn test_system_timestamp() {
    let ctx = empty_ctx();
    let result = resolve("{{$timestamp}}", &ctx);
    let ts: u64 = result.parse().unwrap();
    assert!(ts > 1_000_000_000);
}

#[test]
fn test_system_random_int() {
    let ctx = empty_ctx();
    let result = resolve("{{$randomInt 1 10}}", &ctx);
    let val: i64 = result.parse().unwrap();
    assert!((1..=10).contains(&val));
}

#[test]
fn test_nested_variable() {
    let mut vars = StrMap::new();
    vars.insert("scheme".to_string(), "https".to_string());
    vars.insert("base".to_string(), "{{scheme}}://example.com".to_string());
    let ctx = VariableContext::new(vars);
    assert_eq!(resolve("{{base}}/api", &ctx), "https://example.com/api");
}

#[test]
fn test_request_variable_body() {
    let mut ctx = empty_ctx();
    ctx.store_response(
        "login",
        NamedResponse {
            headers: vec![],
            body: r#"{"token":"abc123","user":"admin"}"#.to_string(),
        },
    );
    assert_eq!(resolve("{{login.response.body.$.token}}", &ctx), "abc123");
}

#[test]
fn test_request_variable_header() {
    let mut ctx = empty_ctx();
    ctx.store_response(
        "login",
        NamedResponse {
            headers: vec![("X-Auth-Token".to_string(), "secret".to_string())],
            body: String::new(),
        },
    );
    assert_eq!(
        resolve("{{login.response.headers.X-Auth-Token}}", &ctx),
        "secret"
    );
}

#[test]
fn test_datetime_iso8601() {
    let ctx = empty_ctx();
    let result = resolve("{{$datetime iso8601}}", &ctx);
    assert!(result.contains('T'));
    assert!(result.ends_with('Z'));
}

#[test]
fn test_available_variables() {
    let mut vars = StrMap::new();
    vars.insert("host".to_string(), "example.com".to_string());
    let mut ctx = VariableContext::new(vars);
    ctx.store_response(
        "login",
        NamedResponse {
            headers: vec![],
            body: String::new(),
        },
    );
    let available = available_variables(&ctx);
    assert!(available.contains(&"host".to_string()));
    assert!(available.contains(&"$guid".to_string()));
    assert!(available.contains(&"login.response.body".to_string()));
}

#[test]
fn available_variables_sorted_exact() {
    let mut vars = StrMap::new();
    vars.insert("zeta".to_string(), "1".to_string());
    vars.insert("alpha".to_string(), "2".to_string());
    let mut ctx = VariableContext::new(vars);
    ctx.store_response("r", NamedResponse { headers: vec![], body: String::new() });
    assert_eq!(
        available_variables(&ctx),
        vec![
            "$datetime", "$dotenv", "$guid", "$localDatetime", "$processEnv", "$randomInt",
            "$timestamp", "alpha", "r.response.body", "r.response.headers", "zeta"
        ]
    );
}

#[test]
fn response_values_are_not_resolved_again() {
    let mut vars = StrMap::new();
    vars.insert("secret".to_string(), "s3".to_string());
    let mut ctx = VariableContext::new(vars);
    ctx.store_response(
        "r",
        NamedResponse { headers: vec![], body: "{{secret}}".to_string() },
    );
    assert_eq!(resolve("[{{r.response.body}}]", &ctx), "[{{secret}}]");
}

#[test]
fn unclosed_reference_kept_and_unknown_system_variable() {
    let ctx = empty_ctx();
    assert_eq!(resolve("a {{b", &ctx), "a {{b");
    assert_eq!(resolve("{{ $nope x }}", &ctx), "{{$nope x}}");
}

#[test]
fn headers_joined_and_case_insensitive() {
    let mut ctx = empty_ctx();
    ctx.store_response(
        "r",
        NamedResponse {
            headers: vec![("A".to_string(), "1".to_string()), ("B".to_string(), "2".to_string())],
            body: String::new(),
        },
    );
    assert_eq!(resolve("{{r.response.headers}}", &ctx), "A: 1\nB: 2");
    assert_eq!(resolve("{{r.response.headers.b}}", &ctx), "2");
}

#[test]
fn cyclic_variables_are_refused() {
    let mut vars = StrMap::new();
    vars.insert("a".to_string(), "{{b}}".to_string());
    vars.insert("b".to_string(), "{{a}}".to_string());
    let ctx = VariableContext::new(vars);
    assert!(try_resolve("{{a}}", &ctx).is_none());
    let ok = empty_ctx();
    assert_eq!(try_resolve("x", &ok).unwrap(), "x");
}

#[test]
fn random_int_default_range_and_dotenv() {
    let mut ctx = empty_ctx();
    let v: i64 = resolve("{{$randomInt}}", &ctx).parse().unwrap();
    assert!((0..=100).contains(&v));
    ctx.dotenv = Some("# c\nTOKEN=\"abc\"\nOTHER=1\n".to_string());
    assert_eq!(resolve("{{$dotenv TOKEN}}", &ctx), "abc");
    assert_eq!(resolve("{{$dotenv MISSING}}", &ctx), "");
}

#[test]
fn json_path_value_is_inserted_verbatim() {
    let mut ctx = empty_ctx();
    ctx.store_response(
        "login",
        NamedResponse { headers: vec![], body: r#"{"t":"{{$guid}}","n":[1,{"k":true}]}"#.to_string() },
    );
    assert_eq!(resolve("{{login.response.body.$.t}}", &ctx), "{{$guid}}");
    assert_eq!(resolve("{{login.response.body.$.n}}", &ctx), "[1,{\"k\":true}]");
    assert_eq!(resolve("{{login.response.body.$.n.[1].k}}", &ctx), "true");
    assert_eq!(resolve("[{{login.response.body.$.missing}}]", &ctx), "[]");
}

#[test]
fn unreached_cycle_does_not_block_resolution() {
    let mut vars = StrMap::new();
    vars.insert("a".to_string(), "{{a}}".to_string());
    vars.insert("b".to_string(), "v{{c}}".to_string());
    vars.insert("c".to_string(), "1".to_string());
    let ctx = VariableContext::new(vars);
    assert_eq!(try_resolve("{{b}}", &ctx).unwrap(), "v1");
    assert_eq!(try_resolve("plain {{ text", &ctx).unwrap(), "plain {{ text");
    assert!(try_resolve("x{{a}}", &ctx).is_none());
    assert_eq!(resolve("{{b}}-{{c}}", &ctx), "v1-1");
}
