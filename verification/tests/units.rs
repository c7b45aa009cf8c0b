use axum::http::{HeaderMap, HeaderValue};
use codex_cont::answer::char_chunks;
use codex_cont::app::{
    base_is_used, error_body, failed_answer, join_responses, plan_request, relays_first, resolve_upstream_url, should_fold,
    status, url_is_from_header, Plan, BASE_REQUIRED, INVALID_JSON, OWN_AUTHORIZATION,
};
use codex_cont::cli::{parse_command, Command, USAGE};
use codex_cont::codex::{
    build_round_payload, commentary_message, continue_call_id, continue_pair,
    declares_continue_tool, is_countable, merge_include, reasoning_tokens,
    repair_followup_input, tier_n,
};
use codex_cont::config::{config_path_for_exe, directory_of_parent, header_texts, load_config, Config, HeaderSetting};
use codex_cont::creds::{build_upstream_headers, should_inject};
use codex_cont::json::Json;
use codex_cont::lines::{
    dump_file_name, listen_address, log_config, log_dump, log_listening, log_mode, log_paths, log_request,
    log_status, tag_of,
};
use codex_cont::logging::{configured_level_name, debug, error, info, warn, Level};
use codex_cont::proxy::collect_body;
use codex_cont::response::with_proxy_metadata;
use codex_cont::service::{
    install, not_reached, on_control, restart, run, start, start_step, stop, stop_if_needed,
    uninstall, wait_hint, wait_step, Control, StartStep, State, StopStep, WaitStep, MAX_QUERIES,
};
use codex_cont::sse::{incremental_sse, serialize_done, serialize_event, SseItem, SseParser};
use codex_cont::store::IdStore;
use codex_cont::text::{decimal_i64, trim};
use codex_cont::usage::{agent_usage, sum_usage};
use std::path::PathBuf;

fn j(text: &str) -> Json {
    Json::parse(text).unwrap()
}

fn pairs(list: &[(&str, &str)]) -> Vec<(String, String)> {
    list.iter().map(|(a, b)| (a.to_string(), b.to_string())).collect()
}

fn value_of<'a>(headers: &'a [(String, String)], name: &str) -> Option<&'a str> {
    headers.iter().find(|(n, _)| n == name).map(|(_, v)| v.as_str())
}

#[test]
fn json_is_read_and_printed() {
    let text = r#"{"b":[1,-2,18446744073709551615,1.5,null,true],"a":"x\ny"}"#;
    assert_eq!(
        j(text).print(),
        r#"{"a":"x\ny","b":[1,-2,18446744073709551615,1.5,null,true]}"#
    );
    assert!(Json::parse("{").is_none());
    assert!(Json::parse_bytes(b"{}").is_some());
    assert!(Json::parse_bytes(b"\xff").is_none());
    assert_eq!(j("18446744073709551615").as_i64(), None);
    assert_eq!(j("-7").as_i64(), Some(-7));
    let twice = j("{}").with("k", Json::Int(1)).with("k", Json::Int(2));
    assert_eq!(twice.print(), r#"{"k":2}"#);
}

#[test]
fn numbers_are_integers_or_doubles() {
    let five = Json::Number(serde_json::Number::from(5u64));
    assert_eq!(five.as_i64(), Some(5));
    assert_eq!(five.print(), "5");
    assert!(five.truthy());
    let none = Json::Number(serde_json::Number::from(0i64));
    assert!(!none.truthy());
    let large = Json::Number(serde_json::Number::from(u64::MAX));
    assert_eq!(large.as_i64(), None);
    let double = Json::Number(serde_json::Number::from_f64(5.0).unwrap());
    assert_eq!(double.as_i64(), None);
    assert_eq!(double.print(), "5.0");
}

#[test]
fn values_of_all_kinds_are_read_back() {
    let values = [
        "[1,[2]]", "\"[DONE]\"", "-7", "true", "null", "{\"type\":\"t\"}", "[]",
        "{\"!\":1,\"$serde_json::private::RawValue\":2}",
    ];
    let mut bytes = Vec::new();
    for text in values {
        bytes.extend_from_slice(&serialize_event(&j(text)));
    }
    bytes.extend_from_slice(&serialize_done());
    for size in [1, 5, bytes.len()] {
        let chunks = bytes.chunks(size).map(|c| Ok(c.to_vec())).collect::<Vec<_>>();
        let read = incremental_sse(&chunks)
            .into_iter()
            .map(|r| match r.unwrap() {
                SseItem::Event(ev) => ev.print(),
                SseItem::Done => "done".to_string(),
            })
            .collect::<Vec<_>>();
        let mut want = values.iter().map(|s| s.to_string()).collect::<Vec<_>>();
        want.push("done".to_string());
        assert_eq!(read, want);
    }
}

#[test]
fn truth_of_values() {
    for text in ["null", "false", "0", "0.0", "-0.0", "\"\"", "[]", "{}"] {
        assert!(!j(text).truthy(), "{text}");
    }
    for text in ["true", "1", "-1", "0.5", "\"x\"", "[0]", "{\"a\":null}"] {
        assert!(j(text).truthy(), "{text}");
    }
}

#[test]
fn tiers_and_counts_out_of_range() {
    assert_eq!(tier_n(Some(516), 518), Some(1));
    assert_eq!(tier_n(Some(517), 518), None);
    assert_eq!(tier_n(Some(-2), 518), None);
    assert_eq!(tier_n(None, 518), None);
    assert!(!is_countable(Some(1), 0));
    assert!(!is_countable(Some(i64::MAX), 518));
    assert!(is_countable(None, 0));
    assert_eq!(
        reasoning_tokens(Some(&j(r#"{"output_tokens_details":{"reasoning_tokens":516}}"#))),
        Some(516)
    );
    assert_eq!(reasoning_tokens(Some(&j("{}"))), None);
    assert_eq!(reasoning_tokens(None), None);
}

#[test]
fn call_ids_are_digests() {
    // The SHA-1 digest of "abc" begins with a9993e364706816aba3e2571.
    let id = continue_call_id("abc");
    assert!(id.ends_with("a9993e364706816aba3e2571"), "{id}");
    assert_ne!(continue_call_id("abd"), id);
    let (call, output) = continue_pair("abc", "tool", "go");
    assert_eq!(call.get("call_id").unwrap().as_str(), Some(id.as_str()));
    assert_eq!(call.get("arguments").unwrap().as_str(), Some("{\"continue\": true}"));
    assert_eq!(output.get("output").unwrap().as_str(), Some("go"));
}

#[test]
fn payloads_of_rounds() {
    let base = j(r#"{"model":"m","include":["a","reasoning.encrypted_content"],"previous_response_id":"p"}"#);
    let payload = build_round_payload(&base, vec![j("1")], true, true);
    assert_eq!(
        payload.print(),
        r#"{"include":["a","reasoning.encrypted_content"],"input":[1],"model":"m","stream":true}"#
    );
    let payload = build_round_payload(&j("[]"), Vec::new(), false, false);
    assert_eq!(payload.print(), r#"{"input":[],"stream":true}"#);
    let listed = merge_include(None, true);
    assert_eq!(listed.len(), 1);
    assert_eq!(
        commentary_message("hm").print(),
        r#"{"content":[{"text":"hm","type":"output_text"}],"phase":"commentary","role":"assistant","type":"message"}"#
    );
    assert!(declares_continue_tool(&j(r#"{"tools":[{"name":"t"}]}"#), "t"));
    assert!(!declares_continue_tool(&j(r#"{"tools":[{"name":"t"}]}"#), "u"));
    assert!(!declares_continue_tool(&j("{}"), "t"));
}

#[test]
fn repairing_twice_changes_nothing_more() {
    let mut store = IdStore::default();
    store.add("rs", 0);
    let items = || vec![j(r#"{"type":"reasoning","id":"rs"}"#), j(r#"{"type":"reasoning","id":"no"}"#)];
    let once = repair_followup_input(items(), &mut store, 1, "t", "o");
    assert_eq!(once.len(), 4);
    let twice = repair_followup_input(once, &mut store, 1, "t", "o");
    assert_eq!(twice.len(), 4);
    let late = repair_followup_input(items(), &mut store, u128::MAX, "t", "o");
    assert_eq!(late.len(), 2);
}

#[test]
fn the_store_forgets() {
    let mut store = IdStore::new(2, 10);
    store.add("a", 0);
    store.add("b", 1);
    assert!(store.contains("a", 2));
    store.add("c", 3);
    assert!(!store.contains("b", 3));
    assert!(store.contains("a", 10));
    assert!(!store.contains("a", 11));
    assert!(store.contains("c", 13));
    assert!(!store.contains("c", 14));
    let mut none = IdStore::new(0, 10);
    none.add("a", 0);
    assert!(!none.contains("a", 0));
}

#[test]
fn events_are_read_back_from_their_frames() {
    let ev = j(r#"{"type":"response.created","text":"a\nb","n":[1,{"x":"ü"}]}"#);
    let mut bytes = serialize_event(&ev);
    assert!(bytes.starts_with(b"event: response.created\ndata: {"));
    assert!(serialize_event(&j("{}")).starts_with(b"event: message\n"));
    bytes.extend_from_slice(&serialize_done());
    let mut parser = SseParser::new();
    let mut items = Vec::new();
    for b in bytes.chunks(1) {
        items.extend(parser.push(b));
    }
    assert!(parser.finish().is_none());
    assert_eq!(items.len(), 2);
    match &items[0] {
        SseItem::Event(back) => assert_eq!(back.print(), ev.print()),
        SseItem::Done => panic!("the end came first"),
    }
    assert!(matches!(items[1], SseItem::Done));
}

#[test]
fn streams_are_read_line_by_line() {
    let read = |text: &str| {
        incremental_sse(&vec![Ok(text.as_bytes().to_vec())])
            .into_iter()
            .map(|r| match r.unwrap() {
                SseItem::Event(ev) => ev.print(),
                SseItem::Done => "done".to_string(),
            })
            .collect::<Vec<_>>()
    };
    assert_eq!(read(": comment\nid: 3\ndata: [1,\ndata:2]\n\n"), vec!["[1,2]"]);
    assert_eq!(read("data: 1\r\n\r\ndata: no json\n\ndata: [DONE]\n\n"), vec!["1", "done"]);
    assert_eq!(read("data: 1\n"), vec!["1"]);
    assert_eq!(read("data: 1"), Vec::<String>::new());
    let broken = incremental_sse(&vec![
        Ok(b"data: 1\n\ndata: 2\n".to_vec()),
        Err("gone".to_string()),
        Ok(b"data: 3\n\n".to_vec()),
    ]);
    assert_eq!(broken.len(), 2);
    assert!(broken[0].is_ok());
    assert!(matches!(&broken[1], Err(e) if e == "gone"));
}

#[test]
fn bytes_that_are_no_text_are_repaired() {
    let items = incremental_sse(&vec![Ok(b"data: \"a\xffb\"\n\n".to_vec())]);
    match items.into_iter().next().unwrap().unwrap() {
        SseItem::Event(ev) => assert_eq!(ev.as_str(), Some("a\u{fffd}b")),
        SseItem::Done => panic!("no event"),
    }
}

#[test]
fn texts_are_cut_into_pieces() {
    assert_eq!(char_chunks("héllo", 2), vec!["hé", "ll", "o"]);
    assert_eq!(char_chunks("abcd", 2), vec!["ab", "cd"]);
    assert_eq!(char_chunks("", 2), Vec::<String>::new());
    assert_eq!(char_chunks("abc", 0), vec!["abc"]);
}

#[test]
fn usage_is_summed_and_told() {
    let mut total = j("{}");
    let first = j(r#"{"input_tokens":10,"output_tokens":7,"total_tokens":17,"input_tokens_details":{"cached_tokens":4},"output_tokens_details":{"reasoning_tokens":5}}"#);
    let last = j(r#"{"input_tokens":20,"output_tokens":9,"total_tokens":29,"output_tokens_details":{"reasoning_tokens":6}}"#);
    sum_usage(&mut total, Some(&first));
    sum_usage(&mut total, Some(&last));
    sum_usage(&mut total, None);
    assert_eq!(
        total.print(),
        r#"{"input_tokens":30,"input_tokens_details":{"cached_tokens":4},"output_tokens":16,"output_tokens_details":{"reasoning_tokens":11},"total_tokens":46}"#
    );
    assert_eq!(
        agent_usage(Some(&first), Some(&total), Some(&last), true).print(),
        r#"{"input_tokens":10,"input_tokens_details":{"cached_tokens":4},"output_tokens":14,"output_tokens_details":{"reasoning_tokens":11},"total_tokens":24}"#
    );
    assert_eq!(
        agent_usage(None, Some(&total), Some(&last), false).print(),
        r#"{"input_tokens":0,"output_tokens":11,"output_tokens_details":{"reasoning_tokens":11},"total_tokens":11}"#
    );
    let odd = j(r#"{"output_tokens":1,"output_tokens_details":{"reasoning_tokens":6}}"#);
    assert_eq!(
        agent_usage(None, None, Some(&odd), true).get("output_tokens").unwrap().as_i64(),
        Some(0)
    );
    let mut full = j(r#"{"input_tokens":9223372036854775807}"#);
    sum_usage(&mut full, Some(&j(r#"{"input_tokens":1}"#)));
    assert_eq!(full.get("input_tokens").unwrap().as_i64(), Some(i64::MIN));
}

#[test]
fn credentials_by_mode() {
    let mut cfg = Config::default();
    cfg.auth.access_token = "TOK".to_string();
    cfg.auth.chatgpt_account_id = "ACC".to_string();
    let own = [("authorization", "Bearer own"), ("ChatGPT-Account-ID", "mine")];

    cfg.auth.mode = "passthrough".to_string();
    let sent = build_upstream_headers(pairs(&own), &cfg);
    assert_eq!(sent.len(), 2);
    assert_eq!(value_of(&sent, "authorization"), Some("Bearer own"));
    assert!(build_upstream_headers(Vec::new(), &cfg).is_empty());

    cfg.auth.mode = "inject".to_string();
    let sent = build_upstream_headers(pairs(&own), &cfg);
    assert_eq!(sent.len(), 2);
    assert_eq!(value_of(&sent, "Authorization"), Some("Bearer TOK"));
    assert_eq!(value_of(&sent, "chatgpt-account-id"), Some("ACC"));

    cfg.auth.mode = "passthrough_then_inject".to_string();
    let sent = build_upstream_headers(pairs(&own), &cfg);
    assert_eq!(value_of(&sent, "authorization"), Some("Bearer own"));
    let sent = build_upstream_headers(Vec::new(), &cfg);
    assert_eq!(value_of(&sent, "Authorization"), Some("Bearer TOK"));

    cfg.upstream.headers = pairs(&[("AUTHORIZATION", "set"), ("x-a", "1"), ("X-A", "2")]);
    let sent = build_upstream_headers(pairs(&[("x-a", "0"), ("x-a", "00"), ("Connection", "c")]), &cfg);
    assert_eq!(value_of(&sent, "AUTHORIZATION"), Some("set"));
    assert_eq!(value_of(&sent, "X-A"), Some("2"));
    assert_eq!(sent.len(), 3);
    assert!(should_inject("inject", true));
    assert!(!should_inject("passthrough_then_inject", true));
    assert!(!should_inject("", false));
}

#[test]
fn upstreams_by_mode() {
    let mut cfg = Config::default();
    cfg.upstream.url = "https://cfg/responses".to_string();
    let mut headers = HeaderMap::new();
    headers.insert("Responses-API-Base", "  https://x/v1//  ".parse().unwrap());
    headers.append("responses-api-base", "https://second".parse().unwrap());
    assert_eq!(resolve_upstream_url(&cfg, &headers).unwrap(), "https://cfg/responses");
    assert!(!url_is_from_header(&cfg, &headers));
    cfg.upstream.mode = "header_required".to_string();
    assert_eq!(resolve_upstream_url(&cfg, &headers).unwrap(), "https://x/v1/responses");
    assert!(resolve_upstream_url(&cfg, &HeaderMap::new()).is_none());
    let mut blank = HeaderMap::new();
    blank.insert("responses-api-base", "   ".parse().unwrap());
    assert!(resolve_upstream_url(&cfg, &blank).is_none());
    let mut odd = HeaderMap::new();
    odd.insert("responses-api-base", HeaderValue::from_bytes(b"h\xff").unwrap());
    assert!(resolve_upstream_url(&cfg, &odd).is_none());
    cfg.upstream.mode = "header".to_string();
    assert_eq!(resolve_upstream_url(&cfg, &odd).unwrap(), "https://cfg/responses");
    assert!(base_is_used(&cfg, &Some("x".to_string())));
    assert!(!base_is_used(&cfg, &None));
    assert_eq!(join_responses("https://a/responses/"), "https://a/responses");
    assert_eq!(join_responses(""), "/responses");
    assert_eq!(join_responses(&join_responses("b")), "b/responses");
}

fn plan(cfg: &Config, headers: &HeaderMap, body: &str) -> Plan {
    plan_request(cfg, headers, body.as_bytes(), &mut IdStore::default(), 0)
}

fn refusal(cfg: &Config, headers: &HeaderMap, body: &str) -> Option<&'static str> {
    match plan(cfg, headers, body) {
        Plan::Refused { status, error } => {
            assert_eq!(status, 400);
            Some(error)
        }
        _ => None,
    }
}

#[test]
fn requests_are_refused() {
    let mut cfg = Config::default();
    let none = HeaderMap::new();
    assert_eq!(refusal(&cfg, &none, "{"), Some(INVALID_JSON));
    assert_eq!(refusal(&cfg, &none, "[1]"), None);
    assert_eq!(refusal(&cfg, &none, "{}"), None);
    cfg.upstream.mode = "header_required".to_string();
    assert_eq!(refusal(&cfg, &none, "{}"), Some(BASE_REQUIRED));
    assert_eq!(refusal(&cfg, &none, "[1]"), Some(BASE_REQUIRED));
    let mut named = HeaderMap::new();
    named.insert("responses-api-base", "https://x".parse().unwrap());
    assert_eq!(refusal(&cfg, &named, "{}"), None);
    cfg.auth.access_token = "TOK".to_string();
    assert_eq!(refusal(&cfg, &named, "{}"), Some(OWN_AUTHORIZATION));
    assert_eq!(refusal(&cfg, &named, "\"x\""), Some(OWN_AUTHORIZATION));
    let mut own = named.clone();
    own.insert("authorization", "Bearer own".parse().unwrap());
    assert_eq!(refusal(&cfg, &own, "{}"), None);
    let mut unread = named.clone();
    unread.insert("authorization", HeaderValue::from_bytes(b"Bearer \xff").unwrap());
    assert_eq!(refusal(&cfg, &unread, "{}"), Some(OWN_AUTHORIZATION));
    cfg.auth.chatgpt_account_id = "ACC".to_string();
    assert_eq!(refusal(&cfg, &own, "{}"), Some(OWN_AUTHORIZATION));
    own.insert("chatgpt-account-id", "mine".parse().unwrap());
    assert_eq!(refusal(&cfg, &own, "{}"), None);
    cfg.auth.mode = "inject".to_string();
    assert_eq!(refusal(&cfg, &own, "{}"), Some(OWN_AUTHORIZATION));
    cfg.auth.mode = "passthrough".to_string();
    assert_eq!(refusal(&cfg, &named, "{}"), None);
}

#[test]
fn requests_are_folded_or_passed_through() {
    let mut cfg = Config::default();
    let mut headers = HeaderMap::new();
    headers.insert("x-custom", "keep".parse().unwrap());
    headers.insert("host", "drop.me".parse().unwrap());
    match plan(&cfg, &headers, r#"{"stream":true,"input":[1],"model":"m"}"#) {
        Plan::Fold { url, headers, body, payload } => {
            assert_eq!(url, "https://chatgpt.com/backend-api/codex/responses");
            assert_eq!(headers, pairs(&[("x-custom", "keep")]));
            assert_eq!(body.print(), r#"{"input":[1],"model":"m","stream":true}"#);
            assert_eq!(
                payload.print(),
                r#"{"include":["reasoning.encrypted_content"],"input":[1],"model":"m","stream":true}"#
            );
        }
        _ => panic!("not folded"),
    }
    match plan(&cfg, &headers, r#"{"stream":false}"#) {
        Plan::PassThrough { headers, .. } => assert_eq!(headers, pairs(&[("x-custom", "keep")])),
        _ => panic!("not passed through"),
    }
    for body in ["[1]", "null", "\"stream\"", "3"] {
        assert!(matches!(plan(&cfg, &headers, body), Plan::PassThrough { .. }), "{body}");
    }
    let asks = |cfg: &Config, body: &str| should_fold(cfg, &j(body));
    assert!(asks(&cfg, r#"{"stream":1}"#));
    assert!(!asks(&cfg, "{}"));
    assert!(!asks(&cfg, r#"{"stream":true,"reasoning":false}"#));
    let tool = r#"{"stream":true,"tools":[{"name":"continue_thinking"}]}"#;
    assert!(asks(&cfg, tool));
    cfg.cont.method = "tool_pair".to_string();
    assert!(!asks(&cfg, tool));
    cfg.cont.enabled = false;
    assert!(!asks(&cfg, r#"{"stream":true}"#));
}

#[test]
fn follow_ups_are_mended() {
    let mut cfg = Config::default();
    cfg.cont.method = "tool_pair".to_string();
    cfg.cont.repair_followup = "stateful".to_string();
    let mut store = IdStore::default();
    store.add("rs", 0);
    let raw = br#"{"stream":true,"input":[{"type":"reasoning","id":"rs"}]}"#;
    match plan_request(&cfg, &HeaderMap::new(), raw, &mut store, 1) {
        Plan::Fold { body, .. } => {
            assert_eq!(body.get("input").unwrap().as_array().unwrap().len(), 3)
        }
        _ => panic!("not folded"),
    }
}

#[test]
fn answers_to_errors() {
    assert_eq!(error_body("a \"b\""), r#"{"error":"a \"b\""}"#);
    assert_eq!(failed_answer("gone"), (502, r#"{"error":"gone"}"#.to_string()));
    assert_eq!(status(200), 200);
    assert_eq!(status(99), 502);
    assert_eq!(status(1000), 502);
    assert_eq!(relays_first(399), None);
    assert_eq!(relays_first(401), Some(401));
    assert_eq!(relays_first(1200), Some(502));
}

#[test]
fn bodies_are_collected_up_to_a_limit() {
    let chunks = vec![
        Ok(b"ab".to_vec()),
        Ok(b"cd".to_vec()),
        Err("gone".to_string()),
        Ok(b"ef".to_vec()),
    ];
    assert_eq!(collect_body(&chunks, None), b"abcd");
    assert_eq!(collect_body(&chunks, Some(3)), b"abc");
    assert_eq!(collect_body(&chunks, Some(9)), b"abcd");
    assert_eq!(collect_body(&chunks, Some(0)), b"");
}

#[test]
fn the_log_is_filtered_and_split() {
    let mut cfg = Config::default();
    let line = info(&cfg, "hello").unwrap();
    assert_eq!(line.text, "[info] hello");
    assert!(!line.to_stderr);
    assert!(debug(&cfg, "x").is_none());
    let line = warn(&cfg, "x").unwrap();
    assert_eq!(line.text, "[warn] x");
    assert!(line.to_stderr);
    cfg.log.level = " OFF ".to_string();
    assert!(error(&cfg, "x").is_none());
    assert_eq!(configured_level_name(&cfg), "off");
    cfg.log.level = "debug".to_string();
    assert_eq!(debug(&cfg, "x").unwrap().text, "[debug] x");
    assert_eq!(error(&cfg, "x").unwrap().text, "[error] x");
    assert_eq!(Level::from_str("\u{a0}Warn\n"), Level::Warn);
    assert_eq!(trim("\u{3000} a b\t"), "a b");
}

#[test]
fn lines_of_the_log() {
    let mut cfg = Config::default();
    assert_eq!(listen_address(&cfg), "127.0.0.1:8787");
    assert_eq!(log_listening("a:1"), "listening=http://a:1");
    assert_eq!(
        log_paths("a:1", &vec!["/x".to_string(), "/y".to_string()]),
        "paths=http://a:1/x,http://a:1/y"
    );
    assert_eq!(
        log_config(&cfg),
        "config upstream.mode=fixed auth.mode=passthrough_then_inject continue.enabled=true continue.method=commentary continue.max_continue=8 log.level=info"
    );
    cfg.log.dump_rounds_dir = "d".to_string();
    assert!(log_config(&cfg).ends_with(" log.level=info dump_rounds_dir=d"));
    assert_eq!(tag_of(Some(12)), "request_id=12 ");
    assert_eq!(tag_of(None), "");
    assert_eq!(log_request("request_id=1 ", "/x", 3), "request_id=1 path=/x body_bytes=3");
    assert_eq!(log_mode("", true), "mode=fold");
    assert_eq!(log_mode("", false), "mode=passthrough");
    assert_eq!(log_status("", 200), "upstream status=200");
    assert_eq!(dump_file_name(3), "codex_mw_r3.sse.txt");
    assert_eq!(log_dump(Some(4), 2, "d/f"), "request_id=4 round=2 dump=d/f");
    assert_eq!(log_dump(None, 1, "f"), "round=1 dump=f");
    assert_eq!(decimal_i64(i64::MIN), "-9223372036854775808");
}

fn args(list: &[&str]) -> Vec<String> {
    list.iter().map(|s| s.to_string()).collect()
}

#[test]
fn the_command_line() {
    assert_eq!(parse_command(&args(&[])), Ok(Command::Serve));
    assert_eq!(parse_command(&args(&["service"])), Ok(Command::Service));
    assert_eq!(parse_command(&args(&["install"])), Ok(Command::Install));
    assert_eq!(parse_command(&args(&["uninstall"])), Ok(Command::Uninstall));
    assert_eq!(parse_command(&args(&["start"])), Ok(Command::Start));
    assert_eq!(parse_command(&args(&["stop"])), Ok(Command::Stop));
    assert_eq!(parse_command(&args(&["restart"])), Ok(Command::Restart));
    for help in ["-h", "--help", "help"] {
        assert_eq!(parse_command(&args(&[help, "x"])), Err(USAGE.to_string()));
    }
    assert_eq!(
        parse_command(&args(&["start", "now"])),
        Err(format!("unexpected argument: now\n{USAGE}"))
    );
    assert_eq!(
        parse_command(&args(&["go"])),
        Err(format!("unknown command: go\n{USAGE}"))
    );
}

#[test]
fn service_states() {
    assert_eq!(start_step(State::Running), StartStep::Nothing);
    assert_eq!(start_step(State::StartPending), StartStep::AwaitRunning);
    assert_eq!(start_step(State::StopPending), StartStep::AwaitStoppedThenStart);
    assert_eq!(start_step(State::Paused), StartStep::Start);
    assert_eq!(stop_if_needed(State::Stopped), StopStep::Nothing);
    assert_eq!(stop_if_needed(State::StopPending), StopStep::AwaitStopped);
    assert_eq!(stop_if_needed(State::Running), StopStep::Stop);
    assert_eq!(wait_step(1, State::Running, State::Running), WaitStep::Reached);
    assert_eq!(wait_step(1, State::Stopped, State::Running), WaitStep::AskAgain);
    assert_eq!(wait_step(MAX_QUERIES, State::Stopped, State::Running), WaitStep::GiveUp);
    assert_eq!(not_reached(State::Running), "CodexCont service did not reach Running");
    assert_eq!(wait_hint(State::StartPending), 10);
    assert_eq!(wait_hint(State::Running), 0);
    assert_eq!(on_control(Control::Stop), (true, true));
    assert_eq!(on_control(Control::Interrogate), (false, true));
    assert_eq!(on_control(Control::Other), (false, false));
    let unsupported = Err("Windows service commands are only supported on Windows.".to_string());
    for result in [run(), install(), uninstall(), start(), stop(), restart()] {
        assert_eq!(result, unsupported);
    }
}

#[test]
fn configuration_files() {
    assert_eq!(
        config_path_for_exe(&PathBuf::from("codex-cont")),
        PathBuf::from(".").join("config.toml")
    );
    let cfg = load_config(&PathBuf::from("config.toml"), None).unwrap();
    assert_eq!(cfg.root, PathBuf::from("."));
    assert_eq!(cfg.server.listen_paths, args(&["/backend-api/codex/responses", "/v1/responses"]));
    let bin = PathBuf::from("bin");
    assert_eq!(directory_of_parent(Some(bin.clone()), false), bin);
    assert_eq!(directory_of_parent(Some(bin), true), PathBuf::from("."));
    assert_eq!(directory_of_parent(None, false), PathBuf::from("."));
    let mut read = Config::default();
    read.server.port = 1;
    let cfg = load_config(&PathBuf::from("d/config.toml"), Some(Ok(read))).unwrap();
    assert_eq!(cfg.server.port, 1);
    assert_eq!(cfg.root, PathBuf::from("d"));
    let wrong = load_config(&PathBuf::from("c"), Some(Err("bad".to_string())));
    assert!(matches!(wrong, Err(e) if e == "bad"));
    let texts = header_texts(vec![
        ("a".to_string(), HeaderSetting::Text("t".to_string())),
        ("b".to_string(), HeaderSetting::Integer(-3)),
        ("c".to_string(), HeaderSetting::Boolean(true)),
        ("d".to_string(), HeaderSetting::Other("1.5".to_string())),
    ]);
    assert_eq!(texts, pairs(&[("a", "t"), ("b", "-3"), ("c", "true"), ("d", "1.5")]));
}

#[test]
fn a_null_response_takes_metadata() {
    let mut resp = Json::Null;
    with_proxy_metadata(&mut resp, &vec![Json::Int(1)], Some("why"), None);
    assert_eq!(
        resp.print(),
        r#"{"metadata":{"proxy_rounds":[1],"proxy_stopped_reason":"why"}}"#
    );
    let mut resp = j(r#"{"id":"r","metadata":7}"#);
    with_proxy_metadata(&mut resp, &Vec::new(), None, Some(&j(r#"{"input_tokens":2}"#)));
    assert_eq!(
        resp.print(),
        r#"{"id":"r","metadata":{"proxy_billed_usage":{"input_tokens":2},"proxy_rounds":[]}}"#
    );
}
