use axum::http::HeaderMap;
use codex_cont::app::{
    plan_request, resolve_upstream_url, url_is_from_header, Plan, INVALID_JSON,
};
use codex_cont::codex::{
    continue_call_id, is_truncation_pattern, reasoning_enabled, repair_followup_input,
    should_continue, tier_n,
};
use codex_cont::config::{config_path_for_exe, load_config, Config};
use codex_cont::creds::{build_upstream_headers, would_inject_authorization};
use codex_cont::json::Json;
use codex_cont::logging::Level;
use codex_cont::store::IdStore;
use std::path::PathBuf;

fn j(text: &str) -> Json {
    Json::parse(text).unwrap()
}

fn str_at<'a>(v: &'a Json, key: &str) -> Option<&'a str> {
    v.get(key).and_then(|f| f.as_str())
}

#[test]
fn truncation_headers_url_and_repair() {
    assert!(is_truncation_pattern(Some(516), 518));
    assert_eq!(tier_n(Some(1034), 518), Some(2));
    assert!(should_continue(Some(516), 1, 0, 518));
    assert!(!should_continue(Some(2588), 1, 3, 518));
    assert!(reasoning_enabled(&j(r#"{"reasoning": {"effort": "high"}}"#)));
    assert!(!reasoning_enabled(&j(r#"{"reasoning": false}"#)));

    let cfg = Config::default();
    let out = build_upstream_headers(
        vec![
            ("Authorization".to_string(), "Bearer agent".to_string()),
            ("Content-Type".to_string(), "application/json".to_string()),
            ("Host".to_string(), "drop.me".to_string()),
            ("Responses-API-Base".to_string(), "https://x/v1".to_string()),
            ("X-Custom".to_string(), "keep".to_string()),
        ],
        &cfg,
    );
    let low = out
        .iter()
        .map(|(k, v)| (k.to_ascii_lowercase(), v.clone()))
        .collect::<std::collections::HashMap<_, _>>();
    assert_eq!(low.get("content-type").unwrap(), "application/json");
    assert_eq!(low.get("x-custom").unwrap(), "keep");
    assert!(!low.contains_key("host"));
    assert!(!low.contains_key("responses-api-base"));

    let mut cfg2 = Config::default();
    cfg2.upstream.mode = "header".to_string();
    cfg2.upstream.url = "https://cfg/responses".to_string();
    let mut headers = HeaderMap::new();
    headers.insert("responses-api-base", "https://override/v1".parse().unwrap());
    assert_eq!(
        resolve_upstream_url(&cfg2, &headers).unwrap(),
        "https://override/v1/responses"
    );
    assert!(url_is_from_header(&cfg2, &headers));
    cfg2.auth.mode = "passthrough_then_inject".to_string();
    cfg2.auth.access_token = "TOK".to_string();
    assert!(would_inject_authorization(&cfg2, false));
    assert!(!would_inject_authorization(&cfg2, true));

    let mut store = IdStore::default();
    store.add("rs_keep", 0);
    let repaired = repair_followup_input(
        vec![
            j(r#"{"type":"reasoning","id":"rs_keep"}"#),
            j(r#"{"type":"message","id":"msg"}"#),
        ],
        &mut store,
        1,
        "continue_thinking",
        "go",
    );
    let call_id = continue_call_id("rs_keep");
    assert_eq!(str_at(&repaired[1], "type"), Some("function_call"));
    assert_eq!(str_at(&repaired[1], "call_id"), Some(call_id.as_str()));
    assert_eq!(str_at(&repaired[2], "type"), Some("function_call_output"));
}

#[test]
fn large_invalid_json_reaches_handler() {
    let mut store = IdStore::default();
    let plan = plan_request(
        &Config::default(),
        &HeaderMap::new(),
        &vec![b'{'; 2 * 1024 * 1024 + 1],
        &mut store,
        0,
    );
    match plan {
        Plan::Refused { status, error } => {
            assert_eq!(status, 400);
            assert_eq!(error, INVALID_JSON);
        }
        _ => panic!("a body that is no JSON was taken"),
    }
}

#[test]
fn config_path_uses_exe_directory() {
    let exe = PathBuf::from("bin").join("codex-cont.exe");
    assert_eq!(
        config_path_for_exe(&exe),
        PathBuf::from("bin").join("config.toml")
    );
}

#[test]
fn missing_config_root_is_config_directory() {
    let path = PathBuf::from("missing-bin").join("config.toml");
    let cfg = load_config(&path, None).unwrap();
    assert_eq!(cfg.root, PathBuf::from("missing-bin"));
}

#[test]
fn parses_log_levels() {
    assert_eq!(Level::from_str("off"), Level::Off);
    assert_eq!(Level::from_str("error"), Level::Error);
    assert_eq!(Level::from_str("warn"), Level::Warn);
    assert_eq!(Level::from_str("info"), Level::Info);
    assert_eq!(Level::from_str("debug"), Level::Debug);
    assert_eq!(Level::from_str("wat"), Level::Info);
}
