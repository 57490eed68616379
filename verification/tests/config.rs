use xtrace::auth_context::{AuthAccess, AuthContext, Authenticated};
use xtrace::config::{parse_number, read_config, storage_of, ConfigError, Environment, Storage};
use xtrace::json::Json;
use xtrace::label_governance::LabelOverflowPolicy;
use xtrace::projects::get_projects;
use xtrace::time::Timestamp;

fn set(s: &str) -> Option<String> {
    Some(s.to_string())
}

fn database() -> Environment {
    Environment { database_url: set("postgres://db"), api_bearer_token: set("tok"), ..Default::default() }
}

#[test]
fn numbers_are_read_as_the_language_reads_them() {
    let cases = [
        "0", "7", "007", "+5", "", "+", "-1", "-0", "++1", " 1", "1 ", "12a", "4294967295",
        "4294967296", "99999999999999999999999", "1_000", "\u{663}",
    ];
    for s in cases {
        assert_eq!(parse_number(s, u32::MAX as u64), s.parse::<u32>().ok().map(u64::from), "{s}");
    }
    for s in ["18446744073709551615", "18446744073709551616", "+18446744073709551615"] {
        assert_eq!(parse_number(s, u64::MAX), s.parse::<u64>().ok());
    }
}

#[test]
fn a_database_and_a_token_are_needed() {
    assert_eq!(read_config(Environment::default()).unwrap_err(), ConfigError::MissingDatabaseUrl);
    let e = Environment { database_url: set("u"), ..Default::default() };
    let error = read_config(e).unwrap_err();
    assert_eq!(error, ConfigError::MissingBearerToken);
    assert_eq!(error.message(), "missing env API_BEARER_TOKEN");
    assert_eq!(ConfigError::MissingDatabaseUrl.message(), "missing env DATABASE_URL");
}

#[test]
fn settings_have_defaults() {
    let c = read_config(database()).unwrap();
    assert_eq!(c.database_url, "postgres://db");
    assert_eq!(c.api_bearer_token, "tok");
    assert_eq!(c.bind_addr, "127.0.0.1:8742");
    assert_eq!(c.default_project_id, "default");
    assert_eq!(c.langfuse_public_key, None);
    assert_eq!(c.rate_limit_qps, 20);
    assert_eq!(c.rate_limit_burst, 40);
    assert!(!c.allow_unauthenticated_compat);
    assert_eq!(c.max_request_body_bytes, 20 * 1024 * 1024);
    assert_eq!(c.media_dir, ".xtrace_media");
    assert_eq!(c.public_base_url, None);
    assert_eq!(c.media_max_content_length, 20 * 1024 * 1024);
    assert_eq!(c.label_governance.max_labels_per_point, 64);
    assert_eq!(c.label_governance.max_label_value_len, 256);
    assert!(c.label_governance.allow_keys.is_none());
    assert_eq!(c.label_governance.overflow_policy, LabelOverflowPolicy::DropLabels);
    assert_eq!(c.metrics_query_max_series, 50);
    assert_eq!(c.metrics_query_max_points_per_series, 1000);
    assert_eq!(c.retention.interval_hours, 24);
    assert!(!c.retention.enabled());
}

#[test]
fn settings_are_taken_from_the_environment() {
    let mut e = database();
    e.bind_addr = set("0.0.0.0:1");
    e.default_project_id = set("main");
    e.xtrace_public_key = set("xp");
    e.langfuse_public_key = set("lp");
    e.langfuse_secret_key = set("ls");
    e.rate_limit_qps = set("7");
    e.rate_limit_burst = set("no");
    e.allow_unauthenticated_compat = set("TRUE");
    e.media_dir = set("/m");
    e.public_base_url = set("https://x");
    e.metrics_max_labels = set("3");
    e.metrics_label_allowlist = set("a,b");
    e.metrics_label_denylist = set("c");
    e.metrics_label_overflow_policy = set("reject_batch");
    e.metrics_query_max_series = set("5");
    e.metrics_query_max_points = set("6");
    e.api_read_bearer_token = set("r");
    e.project_tokens = set("p:t");
    e.project_basic_auth = set("p:u:v");
    e.metrics_retention_days = set("1");
    e.traces_retention_days = set("2");
    e.metrics_downsample_after_days = set("3");
    e.retention_interval_hours = set("4");
    e.memory_max_metrics = set("5");
    e.memory_max_traces = set("6");
    let c = read_config(e).unwrap();
    assert_eq!(c.bind_addr, "0.0.0.0:1");
    assert_eq!(c.default_project_id, "main");
    assert_eq!(c.langfuse_public_key.as_deref(), Some("xp"));
    assert_eq!(c.langfuse_secret_key.as_deref(), Some("ls"));
    assert_eq!(c.rate_limit_qps, 7);
    assert_eq!(c.rate_limit_burst, 40);
    assert!(c.allow_unauthenticated_compat);
    assert_eq!(c.media_dir, "/m");
    assert_eq!(c.public_base_url.as_deref(), Some("https://x"));
    assert_eq!(c.label_governance.max_labels_per_point, 3);
    assert!(c.label_governance.allow_keys.as_ref().unwrap().contains("b"));
    assert!(c.label_governance.deny_keys.contains("c"));
    assert_eq!(c.label_governance.overflow_policy, LabelOverflowPolicy::RejectBatch);
    assert_eq!(c.metrics_query_max_series, 5);
    assert_eq!(c.metrics_query_max_points_per_series, 6);
    assert_eq!(c.api_read_bearer_token.as_deref(), Some("r"));
    assert_eq!(c.project_tokens.as_deref(), Some("p:t"));
    assert_eq!(c.project_basic_auth.as_deref(), Some("p:u:v"));
    assert_eq!(c.retention.metrics_retention_days, 1);
    assert_eq!(c.retention.traces_retention_days, 2);
    assert_eq!(c.retention.metrics_downsample_after_days, 3);
    assert_eq!(c.retention.interval_hours, 4);
    assert_eq!(c.retention.memory_max_metrics, 5);
    assert_eq!(c.retention.memory_max_traces, 6);
    assert!(c.retention.enabled());
}

#[test]
fn compatibility_is_switched_on_by_one_or_true() {
    for (value, on) in [("1", true), ("true", true), ("True", true), ("yes", false), ("", false)] {
        let mut e = database();
        e.allow_unauthenticated_compat = set(value);
        assert_eq!(read_config(e).unwrap().allow_unauthenticated_compat, on);
    }
}

#[test]
fn storage_in_memory_needs_nothing() {
    let e = Environment { mock_storage: set("true"), ..Default::default() };
    match storage_of(&e, "u") {
        Storage::Memory(dir) => assert_eq!(dir, "./.xtrace_data"),
        _ => panic!("expected memory"),
    }
    let c = read_config(e).unwrap();
    assert_eq!(c.database_url, "postgres://dummy_mock_url");
    assert_eq!(c.api_bearer_token, "xtrace-default-token");
    assert_eq!(c.media_dir, "./.xtrace_data/media");

    let e = Environment { json_dir: set("data"), ..Default::default() };
    match storage_of(&e, "u") {
        Storage::Memory(dir) => assert_eq!(dir, "data"),
        _ => panic!("expected memory"),
    }
    assert_eq!(read_config(e).unwrap().media_dir, "data/media");

    let e = Environment { mock_storage: set("yes"), ..database() };
    match storage_of(&e, "u") {
        Storage::Postgres(url) => assert_eq!(url, "u"),
        _ => panic!("expected a database"),
    }
}

#[test]
fn clients_are_told_of_their_own_project() {
    let auth = Authenticated(AuthContext {
        project_id: "team-a".to_string(),
        access: AuthAccess::Read,
    });
    let list = get_projects(&auth, &Timestamp::new(0, 0).unwrap());
    assert_eq!(list.len(), 1);
    assert_eq!(list[0].id, "team-a");
    assert_eq!(list[0].name, "team-a");
    assert_eq!(list[0].created_at, "1970-01-01T00:00:00+00:00");
    assert_eq!(list[0].updated_at, list[0].created_at);
    match &list[0].metadata {
        Json::Object(m) => assert_eq!(m.len(), 0),
        _ => panic!("expected an object"),
    }
}
