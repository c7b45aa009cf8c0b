use codex_cont::config::Config;
use codex_cont::json::Json;
use codex_cont::model::Phase;
use codex_cont::proxy::{frames, Fold, Input, Step};
use codex_cont::sse::{incremental_sse, SseItem};
use codex_cont::store::IdStore;

fn j(text: &str) -> Json {
    Json::parse(text).unwrap()
}

fn typ(ev: &Json) -> &str {
    ev.get("type").and_then(|t| t.as_str()).unwrap_or("")
}

fn at<'a>(v: &'a Json, path: &[&str]) -> &'a Json {
    let mut now = v;
    for key in path {
        now = now.get(key).unwrap();
    }
    now
}

fn str_at<'a>(v: &'a Json, path: &[&str]) -> Option<&'a str> {
    let mut now = v;
    for key in path {
        now = now.get(key)?;
    }
    now.as_str()
}

fn num_at(v: &Json, path: &[&str]) -> i64 {
    at(v, path).as_i64().unwrap()
}

fn make_sse(events: &[String]) -> Vec<u8> {
    let mut out = Vec::new();
    for text in events {
        let ev = j(text);
        out.extend_from_slice(format!("event: {}\r\n", typ(&ev)).as_bytes());
        out.extend_from_slice(b"data: ");
        out.extend_from_slice(ev.print().as_bytes());
        out.extend_from_slice(b"\r\n\r\n");
    }
    out
}

fn parse_events(data: Vec<u8>) -> Vec<Json> {
    let mut out = Vec::new();
    for item in incremental_sse(&vec![Ok(data)]) {
        if let SseItem::Event(ev) = item.unwrap() {
            out.push(ev);
        }
    }
    out
}

/// Folds rounds that each come in chunks of `size` bytes. A round of status 400 or above is
/// refused.
fn collect_chunked(
    cfg: &Config,
    body: &str,
    rounds: Vec<(u16, Vec<u8>)>,
    size: usize,
    store: &mut IdStore,
) -> (Vec<u8>, Vec<Json>, Vec<String>) {
    let mut fold = Fold::new(j(body), None);
    let mut bytes = Vec::new();
    let mut payloads = Vec::new();
    let mut logs = Vec::new();
    let mut rounds = rounds.into_iter();
    let (_, first) = rounds.next().unwrap();
    let mut inputs: Vec<Input> = first.chunks(size).map(|c| Input::Chunk(c.to_vec())).collect();
    inputs.push(Input::EndOfBody);
    while fold.phase() != Phase::Finished {
        let mut asked = false;
        for input in inputs {
            let step: Step = fold.step(cfg, input);
            for (_, line) in &step.logs {
                logs.push(line.clone());
            }
            if let Some(id) = &step.remember {
                store.add(id, 0);
            }
            for frame in frames(&step) {
                bytes.extend_from_slice(&frame);
            }
            if let Some(payload) = step.open {
                payloads.push(payload);
                asked = true;
                break;
            }
        }
        inputs = Vec::new();
        if asked {
            let (status, next) = rounds.next().unwrap();
            inputs.push(Input::Opened(status));
            for c in next.chunks(size) {
                inputs.push(Input::Chunk(c.to_vec()));
            }
            inputs.push(Input::EndOfBody);
        }
    }
    (bytes, payloads, logs)
}

fn collect_fold(cfg: &Config, rounds: Vec<Vec<u8>>) -> (Vec<Json>, Vec<Json>) {
    let mut store = IdStore::default();
    let (bytes, payloads, _) = collect_chunked(
        cfg,
        r#"{"model":"gpt-5.5","input":[{"role":"user","content":"q"}]}"#,
        rounds.into_iter().map(|r| (200, r)).collect(),
        usize::MAX,
        &mut store,
    );
    (parse_events(bytes), payloads)
}

fn round(rs_id: &str, enc: &str, reasoning_tokens: i64, msg: Option<&str>) -> Vec<u8> {
    let mut evs = vec![
        r#"{"type":"response.created","response":{"id":"resp_x","status":"in_progress","model":"gpt-5.5","metadata":{}}}"#.to_string(),
        r#"{"type":"response.in_progress","response":{"id":"resp_x"}}"#.to_string(),
        format!(r#"{{"type":"response.output_item.added","output_index":0,"item":{{"id":"{rs_id}","type":"reasoning"}}}}"#),
        format!(r#"{{"type":"response.output_item.done","output_index":0,"item":{{"id":"{rs_id}","type":"reasoning","encrypted_content":"{enc}"}}}}"#),
    ];
    if let Some(msg) = msg {
        evs.push(r#"{"type":"response.output_item.added","output_index":1,"item":{"id":"msg_x","type":"message"}}"#.to_string());
        evs.push(format!(r#"{{"type":"response.output_text.delta","output_index":1,"item_id":"msg_x","content_index":0,"delta":"{msg}"}}"#));
        evs.push(format!(r#"{{"type":"response.output_item.done","output_index":1,"item":{{"id":"msg_x","type":"message","content":[{{"type":"output_text","text":"{msg}"}}]}}}}"#));
    }
    evs.push(format!(r#"{{"type":"response.completed","response":{{"id":"resp_x","status":"completed","usage":{{"input_tokens":100,"output_tokens":50,"total_tokens":150,"output_tokens_details":{{"reasoning_tokens":{reasoning_tokens}}}}}}}}}"#));
    make_sse(&evs)
}

#[test]
fn commentary_payload_and_forward_marker() {
    let cfg = Config::default();
    let (evs, payloads) = collect_fold(
        &cfg,
        vec![
            round("rs_a", "ENC_A", 516, Some("trunc")),
            round("rs_b", "ENC_B", 999, Some("done")),
        ],
    );
    let input = at(&payloads[0], &["input"]).as_array().unwrap();
    let last = input.last().unwrap();
    assert_eq!(str_at(last, &["type"]), Some("message"));
    assert_eq!(str_at(last, &["phase"]), Some("commentary"));
    assert!(input
        .iter()
        .any(|x| typ(x) == "reasoning" && x.get("encrypted_content").is_some()));
    assert!(!input.iter().any(|x| typ(x) == "function_call"));
    assert!(!evs
        .iter()
        .any(|e| str_at(e, &["item", "phase"]) == Some("commentary")));

    let mut cfg = Config::default();
    cfg.cont.forward_marker = true;
    let (evs, _) = collect_fold(
        &cfg,
        vec![
            round("rs_a", "ENC_A", 516, Some("trunc")),
            round("rs_b", "ENC_B", 999, Some("done")),
        ],
    );
    assert!(evs
        .iter()
        .any(|e| str_at(e, &["item", "phase"]) == Some("commentary")));
    assert!(at(evs.last().unwrap(), &["response", "output"])
        .as_array()
        .unwrap()
        .iter()
        .any(|x| str_at(x, &["phase"]) == Some("commentary")));
}

#[test]
fn eof_returns_incomplete_without_tentative_message() {
    let events = vec![
        r#"{"type":"response.created","response":{"id":"resp_e","status":"in_progress"}}"#.to_string(),
        r#"{"type":"response.in_progress","response":{"id":"resp_e"}}"#.to_string(),
        r#"{"type":"response.output_item.added","output_index":0,"item":{"id":"rs_e","type":"reasoning"}}"#.to_string(),
        r#"{"type":"response.output_item.done","output_index":0,"item":{"id":"rs_e","type":"reasoning","encrypted_content":"E"}}"#.to_string(),
        r#"{"type":"response.output_item.added","output_index":1,"item":{"id":"msg_e","type":"message"}}"#.to_string(),
        r#"{"type":"response.output_text.delta","output_index":1,"item_id":"msg_e","content_index":0,"delta":"partial"}"#.to_string(),
        r#"{"type":"response.output_item.done","output_index":1,"item":{"id":"msg_e","type":"message"}}"#.to_string(),
    ];
    let (evs, _) = collect_fold(&Config::default(), vec![make_sse(&events)]);
    let terminal = evs.last().unwrap();
    assert_eq!(typ(terminal), "response.incomplete");
    assert_eq!(
        str_at(terminal, &["response", "incomplete_details", "reason"]),
        Some("upstream_eof")
    );
    assert!(!evs.iter().any(|e| typ(e) == "response.output_text.delta"));
    let output = at(terminal, &["response", "output"]).as_array().unwrap();
    assert_eq!(output.len(), 1);
    assert_eq!(typ(&output[0]), "reasoning");
}

fn captured(
    id: &str,
    enc: &str,
    usage: (i64, i64, i64, i64),
    answer: &[&str],
) -> Vec<u8> {
    let (input, cached, output, reasoning) = usage;
    let mut evs = vec![
        r#"{"type":"response.created","sequence_number":0,"response":{"id":"resp_1","status":"in_progress","metadata":{"k":"v"}}}"#.to_string(),
        r#"{"type":"response.in_progress","sequence_number":1,"response":{"id":"resp_1"}}"#.to_string(),
        format!(r#"{{"type":"response.output_item.added","output_index":0,"item":{{"id":"{id}","type":"reasoning"}}}}"#),
        format!(r#"{{"type":"response.output_item.done","output_index":0,"item":{{"id":"{id}","type":"reasoning","encrypted_content":"{enc}"}}}}"#),
        r#"{"type":"response.output_item.added","output_index":1,"item":{"id":"msg_1","type":"message"}}"#.to_string(),
    ];
    for piece in answer {
        evs.push(format!(r#"{{"type":"response.output_text.delta","output_index":1,"item_id":"msg_1","content_index":0,"delta":"{piece}"}}"#));
    }
    evs.push(r#"{"type":"response.output_item.done","output_index":1,"item":{"id":"msg_1","type":"message"}}"#.to_string());
    evs.push(format!(r#"{{"type":"response.completed","response":{{"status":"completed","usage":{{"input_tokens":{input},"input_tokens_details":{{"cached_tokens":{cached}}},"output_tokens":{output},"total_tokens":{},"output_tokens_details":{{"reasoning_tokens":{reasoning}}}}}}}}}"#, input + output));
    make_sse(&evs)
}

#[test]
fn two_rounds_fold_into_one_response() {
    let mut cfg = Config::default();
    cfg.cont.max_continue = 1;
    let (evs, payloads) = collect_fold(
        &cfg,
        vec![
            captured("rs_1", "E1", (4582, 3840, 600, 516), &["最少需要取出", " 10"]),
            captured("rs_2", "E2", (5140, 4096, 2700, 2588), &["答案是", " 21 个球,请检查一下"]),
        ],
    );
    assert_eq!(payloads.len(), 1);
    assert_eq!(evs.iter().filter(|e| typ(e) == "response.created").count(), 1);
    assert_eq!(evs.iter().filter(|e| typ(e) == "response.in_progress").count(), 1);
    assert_eq!(evs.iter().filter(|e| typ(e) == "response.completed").count(), 1);
    assert_eq!(
        evs.iter().map(|e| num_at(e, &["sequence_number"])).collect::<Vec<_>>(),
        (0..evs.len() as i64).collect::<Vec<_>>()
    );
    let deltas = evs
        .iter()
        .filter(|e| typ(e) == "response.output_text.delta")
        .filter_map(|e| str_at(e, &["delta"]))
        .collect::<Vec<_>>();
    assert_eq!(deltas, vec!["答案是 21 个", "球,请检查一下"]);

    let completed = evs.last().unwrap();
    assert_eq!(num_at(completed, &["response", "usage", "input_tokens"]), 4582);
    assert_eq!(
        num_at(completed, &["response", "usage", "input_tokens_details", "cached_tokens"]),
        3840
    );
    assert_eq!(
        num_at(completed, &["response", "usage", "output_tokens_details", "reasoning_tokens"]),
        516 + 2588
    );
    assert_eq!(
        num_at(completed, &["response", "usage", "output_tokens"]),
        516 + 2588 + (2700 - 2588)
    );
    assert_eq!(
        num_at(completed, &["response", "usage", "total_tokens"]),
        4582 + 516 + 2588 + (2700 - 2588)
    );
    let metadata = at(completed, &["response", "metadata"]);
    assert_eq!(str_at(metadata, &["proxy_stopped_reason"]), Some("max_continue"));
    assert_eq!(str_at(metadata, &["k"]), Some("v"));
    assert_eq!(num_at(metadata, &["proxy_billed_usage", "input_tokens"]), 4582 + 5140);
    assert_eq!(num_at(metadata, &["proxy_billed_usage", "output_tokens"]), 600 + 2700);
    assert_eq!(
        num_at(metadata, &["proxy_billed_usage", "input_tokens_details", "cached_tokens"]),
        3840 + 4096
    );
    assert_eq!(
        at(metadata, &["proxy_rounds"]).print(),
        r#"[{"n":1,"reasoning_tokens":516,"round":1},{"n":5,"reasoning_tokens":2588,"round":2}]"#
    );
    let output = at(completed, &["response", "output"]).as_array().unwrap();
    assert_eq!(
        output.iter().map(|x| str_at(x, &["id"]).unwrap()).collect::<Vec<_>>(),
        vec!["rs_1", "rs_2", "msg_1"]
    );
    let indexes = evs
        .iter()
        .filter(|e| typ(e) == "response.output_item.added")
        .map(|e| num_at(e, &["output_index"]))
        .collect::<Vec<_>>();
    assert_eq!(indexes, vec![0, 1, 2]);
}

#[test]
fn a_fold_does_not_depend_on_chunks() {
    let cfg = Config::default();
    let rounds = || {
        vec![
            (200, round("rs_a", "ENC_A", 516, Some("trunc"))),
            (200, round("rs_b", "ENC_B", 999, Some("done"))),
        ]
    };
    let mut store = IdStore::default();
    let whole = collect_chunked(&cfg, "{}", rounds(), usize::MAX, &mut store);
    let pieces = collect_chunked(&cfg, "{}", rounds(), 7, &mut store);
    assert_eq!(whole.0, pieces.0);
    assert_eq!(whole.2, pieces.2);
    assert_eq!(
        whole.2,
        vec![
            "round=1 reasoning_tokens=516 n=1 continue=true",
            "continue next_round=2",
            "upstream status=200 round=2",
            "round=2 reasoning_tokens=999 n=none continue=false",
        ]
    );
}

#[test]
fn the_tool_pair_continues_with_a_call() {
    let mut cfg = Config::default();
    cfg.cont.method = "tool_pair".to_string();
    cfg.cont.repair_followup = "stateful".to_string();
    let mut store = IdStore::default();
    let (_, payloads, _) = collect_chunked(
        &cfg,
        r#"{"input":[{"role":"user"}],"previous_response_id":"p"}"#,
        vec![
            (200, round("rs_a", "ENC_A", 516, None)),
            (200, round("rs_b", "ENC_B", 999, None)),
        ],
        usize::MAX,
        &mut store,
    );
    let input = at(&payloads[0], &["input"]).as_array().unwrap();
    assert_eq!(
        input.iter().map(typ).collect::<Vec<_>>(),
        vec!["", "reasoning", "function_call", "function_call_output"]
    );
    assert_eq!(str_at(&input[2], &["name"]), Some("continue_thinking"));
    assert!(payloads[0].get("previous_response_id").is_none());
    assert_eq!(
        at(&payloads[0], &["include"]).print(),
        r#"["reasoning.encrypted_content"]"#
    );
    assert!(store.contains("rs_a", 1));
    assert!(!store.contains("rs_b", 1));
}

#[test]
fn a_refused_round_ends_the_response() {
    let cfg = Config::default();
    let mut store = IdStore::default();
    let (bytes, _, logs) = collect_chunked(
        &cfg,
        "{}",
        vec![(200, round("rs_a", "ENC_A", 516, Some("trunc"))), (429, Vec::new())],
        usize::MAX,
        &mut store,
    );
    let evs = parse_events(bytes);
    let last = evs.last().unwrap();
    assert_eq!(typ(last), "response.incomplete");
    assert_eq!(
        str_at(last, &["response", "incomplete_details", "reason"]),
        Some("upstream_error")
    );
    assert_eq!(num_at(last, &["response", "usage", "output_tokens"]), 516);
    assert!(!evs.iter().any(|e| typ(e) == "response.output_text.delta"));
    assert_eq!(logs.last().unwrap(), "upstream_error status=429 round=2");
}

#[test]
fn a_round_that_cannot_be_opened_ends_the_response() {
    let cfg = Config::default();
    let mut fold = Fold::new(j("{}"), Some(7));
    let step = fold.step(&cfg, Input::Chunk(round("rs_a", "ENC_A", 516, None)));
    assert!(step.open.is_some());
    assert_eq!(fold.phase(), Phase::Opening);
    let step = fold.step(&cfg, Input::OpenFailed("refused".to_string()));
    assert_eq!(
        step.logs[0].1,
        "request_id=7 upstream open failed round=2: refused"
    );
    assert_eq!(step.events.len(), 1);
    assert_eq!(typ(&step.events[0]), "response.incomplete");
    assert_eq!(fold.phase(), Phase::Finished);
    let step = fold.step(&cfg, Input::EndOfBody);
    assert!(step.events.is_empty() && step.open.is_none() && step.logs.is_empty());
}

#[test]
fn a_broken_stream_ends_the_response() {
    let cfg = Config::default();
    let mut fold = Fold::new(j("{}"), None);
    let evs = make_sse(&[
        r#"{"type":"response.created","response":"odd"}"#.to_string(),
        r#"{"type":"response.output_item.added","output_index":3,"item":{"type":"reasoning"}}"#.to_string(),
    ]);
    let step = fold.step(&cfg, Input::Chunk(evs));
    assert_eq!(step.events.len(), 2);
    assert_eq!(num_at(&step.events[1], &["output_index"]), 0);
    let step = fold.step(&cfg, Input::BodyFailed);
    let last = &step.events[0];
    assert_eq!(num_at(last, &["sequence_number"]), 2);
    assert_eq!(
        str_at(last, &["response", "metadata", "proxy_stopped_reason"]),
        Some("upstream_error")
    );
    assert!(at(last, &["response", "metadata"]).get("proxy_billed_usage").is_none());
}

fn stopped(cfg: &Config, enc: &str, tokens: i64) -> Option<String> {
    let (evs, _) = collect_fold(cfg, vec![round("rs", enc, tokens, Some("x"))]);
    str_at(
        evs.last().unwrap(),
        &["response", "metadata", "proxy_stopped_reason"],
    )
    .map(|s| s.to_string())
}

#[test]
fn each_guard_tells_its_reason() {
    assert_eq!(
        stopped(&Config::default(), "", 516).as_deref(),
        Some("no_encrypted_content")
    );
    let mut cfg = Config::default();
    cfg.cont.max_continue = 0;
    assert_eq!(stopped(&cfg, "E", 516).as_deref(), Some("max_continue"));
    let mut cfg = Config::default();
    cfg.cont.max_total_output_tokens = 50;
    assert_eq!(
        stopped(&cfg, "E", 516).as_deref(),
        Some("max_total_output_tokens")
    );
    let mut cfg = Config::default();
    cfg.cont.min_n = 2;
    assert_eq!(stopped(&cfg, "E", 516).as_deref(), Some("tier_out_of_window"));
    assert_eq!(stopped(&Config::default(), "E", 517), None);
    let mut cfg = Config::default();
    cfg.cont.truncation_step = 0;
    assert_eq!(stopped(&cfg, "E", 516), None);
}

#[test]
fn the_end_mark_is_sent_where_it_came_in_time() {
    let cfg = Config::default();
    let mut body = b"data: [DONE]\n\n".to_vec();
    body.extend_from_slice(&round("rs", "E", 1, None));
    let mut fold = Fold::new(j("{}"), None);
    let step = fold.step(&cfg, Input::Chunk(body));
    assert!(step.done);
    let sent = frames(&step);
    assert_eq!(sent.last().unwrap().as_slice(), b"data: [DONE]\n\n");
    assert_eq!(sent.len(), step.events.len() + 1);
}

#[test]
fn answers_keep_their_pieces_where_they_are_not_cut_anew() {
    let mut cfg = Config::default();
    cfg.stream.rechunk_final_answer = false;
    let (evs, _) = collect_fold(
        &cfg,
        vec![captured("rs_1", "E1", (1, 0, 5, 3), &["one long piece of text", "two"])],
    );
    let deltas = evs
        .iter()
        .filter(|e| typ(e) == "response.output_text.delta")
        .map(|e| str_at(e, &["delta"]).unwrap())
        .collect::<Vec<_>>();
    assert_eq!(deltas, vec!["one long piece of text", "two"]);
    let mut cfg = Config::default();
    cfg.stream.rechunk_size = 0;
    let (evs, _) = collect_fold(
        &cfg,
        vec![captured("rs_1", "E1", (1, 0, 5, 3), &["ab", "c"])],
    );
    let deltas = evs
        .iter()
        .filter(|e| typ(e) == "response.output_text.delta")
        .map(|e| str_at(e, &["delta"]).unwrap())
        .collect::<Vec<_>>();
    assert_eq!(deltas, vec!["a", "b", "c"]);
}

#[test]
fn events_of_unknown_items_are_passed_on() {
    let cfg = Config::default();
    let mut fold = Fold::new(j("{}"), None);
    let step = fold.step(
        &cfg,
        Input::Chunk(make_sse(&[
            r#"{"type":"response.queued"}"#.to_string(),
            r#"{"type":"response.output_text.delta","output_index":9,"delta":"x"}"#.to_string(),
        ])),
    );
    assert_eq!(step.events.len(), 2);
    assert_eq!(num_at(&step.events[1], &["output_index"]), 9);
    assert_eq!(num_at(&step.events[1], &["sequence_number"]), 1);
}

#[test]
fn a_function_call_is_held_back() {
    let cfg = Config::default();
    let mut fold = Fold::new(j("{}"), None);
    let step = fold.step(
        &cfg,
        Input::Chunk(make_sse(&[
            r#"{"type":"response.output_item.added","output_index":0,"item":{"type":"function_call","id":"f"}}"#.to_string(),
            r#"{"type":"response.function_call_arguments.delta","output_index":0,"delta":"{"}"#.to_string(),
            r#"{"type":"response.output_item.done","output_index":0,"item":{"type":"function_call","id":"f","arguments":"{}"}}"#.to_string(),
        ])),
    );
    assert!(step.events.is_empty());
    let step = fold.step(
        &cfg,
        Input::Chunk(make_sse(&[r#"{"type":"response.failed","response":{"status":"failed"}}"#.to_string()])),
    );
    assert_eq!(
        step.events.iter().map(typ).collect::<Vec<_>>(),
        vec![
            "response.output_item.added",
            "response.function_call_arguments.delta",
            "response.output_item.done",
            "response.failed",
        ]
    );
    let last = step.events.last().unwrap();
    assert_eq!(str_at(last, &["response", "status"]), Some("failed"));
    let output = at(last, &["response", "output"]).as_array().unwrap();
    assert_eq!(str_at(&output[0], &["arguments"]), Some("{}"));
}

#[test]
fn rounds_are_capped() {
    let mut cfg = Config::default();
    cfg.cont.max_continue = 2;
    let (evs, payloads) = collect_fold(
        &cfg,
        vec![
            round("rs_1", "E", 516, None),
            round("rs_2", "E", 1034, None),
            round("rs_3", "E", 516, None),
        ],
    );
    assert_eq!(payloads.len(), 2);
    let input = at(&payloads[1], &["input"]).as_array().unwrap();
    assert_eq!(
        input.iter().map(typ).collect::<Vec<_>>(),
        vec!["", "reasoning", "message", "reasoning", "message"]
    );
    let last = evs.last().unwrap();
    assert_eq!(
        at(last, &["response", "metadata", "proxy_rounds"]).as_array().unwrap().len(),
        3
    );
    assert_eq!(
        str_at(last, &["response", "metadata", "proxy_stopped_reason"]),
        Some("max_continue")
    );
    assert_eq!(at(last, &["response", "output"]).as_array().unwrap().len(), 3);
}
