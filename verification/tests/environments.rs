use rest_client::environments::RestClientSettings;
use rest_client::strmap::StrMap;

fn vars(pairs: &[(&str, &str)]) -> StrMap<String> {
    let mut m = StrMap::new();
    for (k, v) in pairs {
        m.insert(k.to_string(), v.to_string());
    }
    m
}

#[test]
fn test_resolved_variables_shared_only() {
    let mut environments = StrMap::new();
    environments.insert("$shared".to_string(), vars(&[("apiVersion", "v1")]));
    let settings = RestClientSettings {
        active_environment: None,
        allowed_process_env_vars: vec![],
        environments,
    };
    let vars = settings.resolved_variables();
    assert_eq!(vars.get("apiVersion").unwrap(), "v1");
}

#[test]
fn test_resolved_variables_with_active_env() {
    let mut environments = StrMap::new();
    environments.insert(
        "$shared".to_string(),
        vars(&[("apiVersion", "v1"), ("host", "default.com")]),
    );
    environments.insert("dev".to_string(), vars(&[("host", "localhost:3000")]));
    let settings = RestClientSettings {
        active_environment: Some("dev".to_string()),
        allowed_process_env_vars: vec![],
        environments,
    };
    let vars = settings.resolved_variables();
    assert_eq!(vars.get("apiVersion").unwrap(), "v1");
    assert_eq!(vars.get("host").unwrap(), "localhost:3000");
}

#[test]
fn test_resolved_variables_no_environments() {
    let settings = RestClientSettings::default();
    let vars = settings.resolved_variables();
    assert!(vars.len() == 0);
}

#[test]
fn test_environment_names() {
    let mut environments = StrMap::new();
    environments.insert("$shared".to_string(), StrMap::new());
    environments.insert("dev".to_string(), StrMap::new());
    environments.insert("prod".to_string(), StrMap::new());
    let settings = RestClientSettings {
        active_environment: None,
        allowed_process_env_vars: vec![],
        environments,
    };
    let mut names = settings.environment_names();
    names.sort();
    assert_eq!(names, vec!["dev", "prod"]);
}

#[test]
fn active_environment_missing_keeps_shared() {
    let mut environments = StrMap::new();
    environments.insert("$shared".to_string(), vars(&[("a", "1")]));
    let settings = RestClientSettings {
        active_environment: Some("nope".to_string()),
        allowed_process_env_vars: vec![],
        environments,
    };
    let r = settings.resolved_variables();
    assert_eq!(r.len(), 1);
    assert_eq!(r.get("a").unwrap(), "1");
}

#[test]
fn active_overrides_shared_and_adds() {
    let mut environments = StrMap::new();
    environments.insert("$shared".to_string(), vars(&[("a", "1"), ("b", "2")]));
    environments.insert("prod".to_string(), vars(&[("b", "20"), ("c", "30")]));
    let settings = RestClientSettings {
        active_environment: Some("prod".to_string()),
        allowed_process_env_vars: vec![],
        environments,
    };
    let r = settings.resolved_variables();
    assert_eq!(r.len(), 3);
    assert_eq!(r.get("a").unwrap(), "1");
    assert_eq!(r.get("b").unwrap(), "20");
    assert_eq!(r.get("c").unwrap(), "30");
    assert_eq!(settings.environment_names(), vec!["prod"]);
}
