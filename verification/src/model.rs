//! What a fold does, as a machine: from the state of the fold and what happened upstream to the
//! next state and what is to be done.
//!
//! A fold turns the streams of several upstream rounds into one response. Reasoning is passed on
//! as it comes; other output is held back until the round has proved to be the last one.
use vstd::prelude::*;

use crate::answer::{commentary_events_of, released, EntryView};
use crate::codex::{
    call_id, commentary, continue_call, continue_output, countable, counted_reasoning, in_window,
    output_text, round_payload, tier, truncation_pattern,
};
use crate::config::{Config, StreamCfg};
use crate::events::{
    ends_response, field_or_empty, index_key, nth_after, numbered, opens_response, type_of,
};
use crate::json::{opt_get, opt_str, JsonView};
use crate::lines::{
    continue_line, eof_line, open_failed_line, opened_line, refused_line, request_tag, round_line,
    stopped_line, stream_error_line,
};
use crate::logging::Level;
use crate::response::{broken_off, folded_terminal};
use crate::sse::{at_most_one, flushed, sse_run, sse_start, ItemView, SseState};
use crate::text::decimal;
use crate::usage::{count, summed, told_usage};

verus! {

/// How the events of an output item are treated: passed on at an output index, or held back.
#[derive(Clone, Copy, Debug, PartialEq, Eq, Structural)]
pub enum Kind {
    Reasoning(i64),
    Buffered,
}

/// What a fold waits for: more of a round's stream, the next round, or nothing any more.
#[derive(Clone, Copy, Debug, PartialEq, Eq, Structural)]
pub enum Phase {
    Reading,
    Opening,
    Finished,
}

/// How far the current round has come: the output items by the key of their index, the output
/// that is held back, the reasoning that is complete, and the event that ended the round.
#[verifier::ext_equal]
pub struct RoundView {
    pub kinds: Map<Seq<char>, Kind>,
    pub buffer: Seq<EntryView>,
    pub reasoning: Seq<JsonView>,
    pub terminal: Option<JsonView>,
    pub parser: SseState,
}

/// How far a fold has come.
#[verifier::ext_equal]
pub struct FoldView {
    /// The request that is folded.
    pub body: JsonView,
    /// What tells the request apart in the log.
    pub rid: Seq<char>,
    pub phase: Phase,
    pub round_no: usize,
    /// The number of the next event.
    pub seq: i64,
    /// The output index of the next item.
    pub ds_oi: i64,
    /// The response that the first round opened.
    pub base: Option<JsonView>,
    pub saw_done: bool,
    /// The output that has reached the client.
    pub output: Seq<JsonView>,
    /// The usage of all rounds together.
    pub total: JsonView,
    /// The usage of the first round.
    pub first: Option<JsonView>,
    /// What the next round's input adds to that of the request.
    pub replay: Seq<JsonView>,
    /// What there is to tell of each round.
    pub rounds: Seq<JsonView>,
    pub round: RoundView,
}

/// What is to be done: messages to log, a reasoning id to remember, events to send, the end mark
/// to send after them, and the request that opens the next round.
#[verifier::ext_equal]
pub struct StepView {
    pub logs: Seq<(Level, Seq<char>)>,
    pub remember: Option<Seq<char>>,
    pub events: Seq<JsonView>,
    pub done: bool,
    pub open: Option<JsonView>,
}

/// What happens upstream: a chunk of the round's stream, its end, its failure, the next round's
/// status, or that the next round could not be opened.
pub enum InputView {
    Chunk(Seq<u8>),
    EndOfBody,
    BodyFailed,
    Opened(u16),
    OpenFailed(Seq<char>),
}

/// Nothing is to be done but to send events.
pub open spec fn sends(events: Seq<JsonView>) -> StepView {
    StepView { logs: Seq::empty(), remember: None, events, done: false, open: None }
}

/// Where a round starts.
pub open spec fn round_start() -> RoundView {
    RoundView {
        kinds: Map::empty(),
        buffer: Seq::empty(),
        reasoning: Seq::empty(),
        terminal: None,
        parser: sse_start(),
    }
}

/// Where a fold starts: its first round is open.
pub open spec fn fold_start(body: JsonView, request_id: Option<u64>) -> FoldView {
    FoldView {
        body,
        rid: request_tag(request_id),
        phase: Phase::Reading,
        round_no: 1,
        seq: 0,
        ds_oi: 0,
        base: None,
        saw_done: false,
        output: Seq::empty(),
        total: JsonView::Object(Map::empty()),
        first: None,
        replay: Seq::empty(),
        rounds: Seq::empty(),
        round: round_start(),
    }
}

/// Sends one event with the next number.
pub open spec fn sent(st: FoldView, ev: JsonView) -> (FoldView, Seq<JsonView>) {
    (FoldView { seq: nth_after(st.seq, 1), ..st }, numbered(seq![ev], st.seq))
}

/// The index of the first entry that is held back under a key; the number of entries, where
/// there is none.
pub open spec fn entry_place(buffer: Seq<EntryView>, key: Seq<char>) -> nat
    decreases buffer.len(),
{
    if buffer.len() == 0 {
        0
    } else if buffer[0].oi == key {
        0
    } else {
        1 + entry_place(buffer.drop_first(), key)
    }
}

/// An entry with one more event; the event that completes an item also tells the item anew.
pub open spec fn with_event(e: EntryView, ev: JsonView) -> EntryView {
    EntryView {
        events: e.events.push(ev),
        item: if type_of(ev) == "response.output_item.done"@ && ev.get("item"@) is Some {
            ev.get("item"@)->Some_0
        } else {
            e.item
        },
        ..e
    }
}

/// An output item begins: reasoning is passed on under the next output index, anything else is
/// held back.
pub open spec fn item_added(st: FoldView, ev: JsonView) -> (FoldView, Seq<JsonView>) {
    let key = index_key(ev);
    let item = field_or_empty(ev, "item"@);
    let itype = opt_str(item.get("type"@));
    if itype == Some("reasoning"@) {
        sent(
            FoldView {
                ds_oi: nth_after(st.ds_oi, 1),
                round: RoundView {
                    kinds: st.round.kinds.insert(key, Kind::Reasoning(st.ds_oi)),
                    ..st.round
                },
                ..st
            },
            ev.set("output_index"@, JsonView::Int(st.ds_oi as int)),
        )
    } else {
        let entry = EntryView {
            oi: key,
            itype: match itype {
                Some(t) => t,
                None => ""@,
            },
            events: seq![ev],
            item,
        };
        (
            FoldView {
                round: RoundView {
                    kinds: st.round.kinds.insert(key, Kind::Buffered),
                    buffer: st.round.buffer.push(entry),
                    ..st.round
                },
                ..st
            },
            Seq::empty(),
        )
    }
}

/// An event of an item that was passed on is passed on too, under the item's output index; an
/// item that is complete counts as output.
pub open spec fn reasoning_event(st: FoldView, ev: JsonView, oi: i64) -> (
    FoldView,
    Seq<JsonView>,
) {
    let item = field_or_empty(ev, "item"@);
    let next = if type_of(ev) == "response.output_item.done"@ {
        FoldView {
            output: st.output.push(item),
            round: RoundView { reasoning: st.round.reasoning.push(item), ..st.round },
            ..st
        }
    } else {
        st
    };
    sent(next, ev.set("output_index"@, JsonView::Int(oi as int)))
}

/// An event of an item that was held back is held back too.
pub open spec fn buffered_event(st: FoldView, ev: JsonView) -> FoldView {
    let at = entry_place(st.round.buffer, index_key(ev));
    if at < st.round.buffer.len() {
        FoldView {
            round: RoundView {
                buffer: st.round.buffer.update(
                    at as int,
                    with_event(st.round.buffer[at as int], ev),
                ),
                ..st.round
            },
            ..st
        }
    } else {
        st
    }
}

/// The events that open a response are passed on in the first round only.
pub open spec fn opening_event(st: FoldView, ev: JsonView) -> (FoldView, Seq<JsonView>) {
    if st.round_no == 1 {
        let next = if type_of(ev) == "response.created"@ {
            FoldView { base: Some(field_or_empty(ev, "response"@)), ..st }
        } else {
            st
        };
        sent(next, ev)
    } else {
        (st, Seq::empty())
    }
}

/// What an event of the upstream does.
pub open spec fn take_event(st: FoldView, ev: JsonView) -> (FoldView, Seq<JsonView>) {
    let t = type_of(ev);
    if opens_response(t) {
        opening_event(st, ev)
    } else if ends_response(t) {
        (
            FoldView { round: RoundView { terminal: Some(ev), ..st.round }, ..st },
            Seq::empty(),
        )
    } else if t == "response.output_item.added"@ {
        item_added(st, ev)
    } else {
        let key = index_key(ev);
        if !st.round.kinds.contains_key(key) {
            sent(st, ev)
        } else {
            match st.round.kinds[key] {
                Kind::Reasoning(oi) => reasoning_event(st, ev, oi),
                Kind::Buffered => (buffered_event(st, ev), Seq::empty()),
            }
        }
    }
}

/// What an item of the upstream's stream does; nothing, once the round has ended.
pub open spec fn take_item(st: FoldView, item: ItemView) -> (FoldView, Seq<JsonView>) {
    if st.round.terminal is Some {
        (st, Seq::empty())
    } else {
        match item {
            ItemView::Done => (FoldView { saw_done: true, ..st }, Seq::empty()),
            ItemView::Event(ev) => take_event(st, ev),
        }
    }
}

/// What items of the upstream's stream do one after the other.
pub open spec fn take_items(st: FoldView, items: Seq<ItemView>) -> (FoldView, Seq<JsonView>)
    decreases items.len(),
{
    if items.len() == 0 {
        (st, Seq::empty())
    } else {
        let (mid, front) = take_items(st, items.drop_last());
        let (end, back) = take_item(mid, items.last());
        (end, front + back)
    }
}

/// The usage that the end of the round reports.
pub open spec fn round_usage(st: FoldView) -> Option<JsonView> {
    opt_get(opt_get(st.round.terminal, "response"@), "usage"@)
}

/// The reasoning tokens of the round.
pub open spec fn round_tokens(st: FoldView) -> Option<i64> {
    counted_reasoning(round_usage(st))
}

/// Whether the round's reasoning was cut off. A count that is out of range never was.
pub open spec fn cut_off(cfg: Config, st: FoldView) -> bool {
    countable(round_tokens(st), cfg.cont.truncation_step) && truncation_pattern(
        round_tokens(st),
        cfg.cont.truncation_step,
    )
}

/// The tier at which the round's reasoning was cut off.
pub open spec fn round_tier(cfg: Config, st: FoldView) -> Option<int> {
    if cut_off(cfg, st) {
        tier(round_tokens(st), cfg.cont.truncation_step)
    } else {
        None
    }
}

/// A number or nothing as JSON.
pub open spec fn opt_json(n: Option<int>) -> JsonView {
    match n {
        Some(k) => JsonView::Int(k),
        None => JsonView::Null,
    }
}

pub open spec fn opt_int(n: Option<i64>) -> Option<int> {
    match n {
        Some(k) => Some(k as int),
        None => None,
    }
}

/// What there is to tell of a round.
pub open spec fn round_info(cfg: Config, st: FoldView) -> JsonView {
    JsonView::Object(
        map![
            "round"@ => JsonView::Int(st.round_no as int),
            "reasoning_tokens"@ => opt_json(opt_int(round_tokens(st))),
            "n"@ => opt_json(round_tier(cfg, st)),
        ],
    )
}

/// The fold after the usage of a round that ended was counted.
pub open spec fn counted(cfg: Config, st: FoldView) -> FoldView {
    FoldView {
        total: summed(st.total, round_usage(st)),
        first: if st.round_no == 1 {
            round_usage(st)
        } else {
            st.first
        },
        rounds: st.rounds.push(round_info(cfg, st)),
        round: RoundView { parser: sse_start(), ..st.round },
        ..st
    }
}

/// Whether the round's last reasoning came with its encrypted content.
pub open spec fn has_encrypted(st: FoldView) -> bool {
    st.round.reasoning.len() > 0 && match st.round.reasoning.last().get("encrypted_content"@) {
        Some(v) => v.truthy(),
        None => false,
    }
}

/// Whether the output of all rounds is below the cap; a cap of zero is none.
pub open spec fn within_caps(cfg: Config, st: FoldView) -> bool {
    cfg.cont.max_total_output_tokens == 0 || count(
        summed(st.total, round_usage(st)).get("output_tokens"@),
    ) < cfg.cont.max_total_output_tokens
}

/// Whether another round follows the one that ended.
pub open spec fn goes_on(cfg: Config, st: FoldView) -> bool {
    &&& cfg.cont.enabled
    &&& st.round.terminal is Some
    &&& cut_off(cfg, st)
    &&& in_window(
        round_tokens(st),
        cfg.cont.min_n,
        cfg.cont.max_n,
        cfg.cont.truncation_step,
    )
    &&& has_encrypted(st)
    &&& st.round_no <= cfg.cont.max_continue
    &&& within_caps(cfg, st)
}

/// Why no other round follows a round whose reasoning was cut off.
pub open spec fn stop_reason(cfg: Config, st: FoldView) -> Option<Seq<char>> {
    if goes_on(cfg, st) || !cut_off(cfg, st) {
        None
    } else if !has_encrypted(st) {
        Some("no_encrypted_content"@)
    } else if st.round_no > cfg.cont.max_continue {
        Some("max_continue"@)
    } else if !within_caps(cfg, st) {
        Some("max_total_output_tokens"@)
    } else {
        Some("tier_out_of_window"@)
    }
}

/// The id of the round's last reasoning; empty, where it has none.
pub open spec fn last_id(st: FoldView) -> Seq<char> {
    if st.round.reasoning.len() > 0 {
        match opt_str(st.round.reasoning.last().get("id"@)) {
            Some(id) => id,
            None => ""@,
        }
    } else {
        ""@
    }
}

/// What asks the upstream to go on: a comment, or a call of the continuation tool and its output.
pub open spec fn marker(cfg: Config, st: FoldView) -> Seq<JsonView> {
    if cfg.cont.method@ == "commentary"@ {
        seq![commentary(cfg.cont.marker_text@)]
    } else {
        seq![
            continue_call(call_id(last_id(st)), cfg.cont.continue_tool_name@),
            continue_output(call_id(last_id(st)), cfg.cont.continue_output_text@),
        ]
    }
}

/// The reasoning id that a later request may be repaired by.
pub open spec fn remembered(cfg: Config, st: FoldView) -> Option<Seq<char>> {
    if cfg.cont.method@ != "commentary"@ && cfg.cont.repair_followup@ == "stateful"@ && last_id(
        st,
    ).len() > 0 {
        Some(last_id(st))
    } else {
        None
    }
}

/// The comment as the client is told of it.
pub open spec fn told_comment(cfg: Config, st: FoldView) -> JsonView {
    JsonView::Object(
        map![
            "id"@ => JsonView::Text("msg_continue_"@ + decimal(st.round_no as int)),
            "type"@ => JsonView::Text("message"@),
            "status"@ => JsonView::Text("completed"@),
            "role"@ => JsonView::Text("assistant"@),
            "content"@ => JsonView::Array(seq![output_text(cfg.cont.marker_text@)]),
            "phase"@ => JsonView::Text("commentary"@),
        ],
    )
}

/// The input list of a request.
pub open spec fn request_input(body: JsonView) -> Seq<JsonView> {
    match body.get("input"@) {
        Some(JsonView::Array(xs)) => xs,
        _ => Seq::empty(),
    }
}

/// The message that a round has ended.
pub open spec fn round_log(cfg: Config, st: FoldView) -> (Level, Seq<char>) {
    (
        Level::Info,
        round_line(
            st.rid,
            st.round_no,
            round_tokens(st),
            match round_tier(cfg, st) {
                Some(n) => Some(n as i64),
                None => None,
            },
            goes_on(cfg, st),
        ),
    )
}

/// What another round's input adds to that of the request.
pub open spec fn next_replay(cfg: Config, st: FoldView) -> Seq<JsonView> {
    st.replay + st.round.reasoning + marker(cfg, st)
}

/// The fold asks for another round: what was held back is dropped, and the reasoning so far goes
/// into the request.
pub open spec fn continued(cfg: Config, st: FoldView) -> (FoldView, StepView) {
    let next = FoldView { phase: Phase::Opening, replay: next_replay(cfg, st), ..counted(cfg, st) };
    let step = StepView {
        logs: seq![
            round_log(cfg, st),
            (Level::Info, continue_line(st.rid, st.round_no.wrapping_add(1))),
        ],
        remember: remembered(cfg, st),
        events: Seq::empty(),
        done: false,
        open: Some(
            round_payload(
                st.body,
                request_input(st.body) + next_replay(cfg, st),
                cfg.stream.force_include_encrypted,
                true,
            ),
        ),
    };
    if cfg.cont.method@ == "commentary"@ && cfg.cont.forward_marker {
        let item = told_comment(cfg, st);
        (
            FoldView {
                seq: nth_after(st.seq, 6),
                ds_oi: nth_after(st.ds_oi, 1),
                output: st.output.push(item),
                ..next
            },
            StepView { events: numbered(commentary_events_of(item, st.ds_oi), st.seq), ..step },
        )
    } else {
        (next, step)
    }
}

/// The event that tells the client of a response which the upstream did not end.
pub open spec fn broken_event(
    st: FoldView,
    usage: Option<JsonView>,
    reason: Seq<char>,
) -> JsonView {
    broken_off(
        st.base,
        st.output,
        told_usage(st.first, Some(st.total), usage, false),
        reason,
        st.rounds,
        Some(st.total),
    )
}

/// The fold ends with a response that the upstream did not end.
pub open spec fn broken(
    st: FoldView,
    usage: Option<JsonView>,
    reason: Seq<char>,
    logs: Seq<(Level, Seq<char>)>,
) -> (FoldView, StepView) {
    let (next, events) = sent(st, broken_event(st, usage, reason));
    (FoldView { phase: Phase::Finished, ..next }, StepView { logs, ..sends(events) })
}

/// The events of all entries, from the output index `oi` on.
pub open spec fn released_all(buffer: Seq<EntryView>, oi: i64, cfg: StreamCfg) -> Seq<JsonView>
    decreases buffer.len(),
{
    if buffer.len() == 0 {
        Seq::empty()
    } else {
        let front = buffer.drop_last();
        released_all(front, oi, cfg) + released(buffer.last(), nth_after(oi, front.len()), cfg)
    }
}

/// The items of all entries.
pub open spec fn items_of(buffer: Seq<EntryView>) -> Seq<JsonView> {
    buffer.map_values(|e: EntryView| e.item)
}

/// All events with which the fold ends: what was held back, and one event for the whole
/// response.
pub open spec fn final_events(cfg: Config, st: FoldView) -> Seq<JsonView> {
    let now = counted(cfg, st);
    released_all(st.round.buffer, st.ds_oi, cfg.stream).push(
        folded_terminal(
            st.round.terminal,
            st.base,
            st.output + items_of(st.round.buffer),
            told_usage(now.first, Some(now.total), round_usage(st), true),
            now.rounds,
            stop_reason(cfg, st),
            Some(now.total),
        ),
    )
}

/// The fold ends: what was held back is released.
pub open spec fn ended(cfg: Config, st: FoldView) -> (FoldView, StepView) {
    let now = counted(cfg, st);
    let events = final_events(cfg, st);
    let logs = match stop_reason(cfg, st) {
        Some(reason) => seq![
            round_log(cfg, st),
            (Level::Info, stopped_line(st.rid, reason, st.round_no)),
        ],
        None => seq![round_log(cfg, st)],
    };
    (
        FoldView {
            phase: Phase::Finished,
            seq: nth_after(st.seq, events.len()),
            ds_oi: nth_after(st.ds_oi, st.round.buffer.len()),
            output: st.output + items_of(st.round.buffer),
            ..now
        },
        StepView {
            logs,
            remember: None,
            events: numbered(events, st.seq),
            done: st.saw_done,
            open: None,
        },
    )
}

/// A round has ended, or its stream has.
pub open spec fn finish_round(cfg: Config, st: FoldView) -> (FoldView, StepView) {
    if goes_on(cfg, st) {
        continued(cfg, st)
    } else if st.round.terminal is None {
        broken(
            counted(cfg, st),
            round_usage(st),
            "upstream_eof"@,
            seq![round_log(cfg, st), (Level::Warn, eof_line(st.rid, st.round_no))],
        )
    } else {
        ended(cfg, st)
    }
}

/// Events go before everything else that is to be done.
pub open spec fn after_events(events: Seq<JsonView>, step: StepView) -> StepView {
    StepView { events: events + step.events, ..step }
}

/// A chunk of the round's stream has come.
pub open spec fn take_chunk(cfg: Config, st: FoldView, chunk: Seq<u8>) -> (FoldView, StepView) {
    let (parser, items) = sse_run(st.round.parser, chunk);
    let (mid, events) = take_items(
        FoldView { round: RoundView { parser, ..st.round }, ..st },
        items,
    );
    if mid.round.terminal is Some {
        let (end, step) = finish_round(cfg, mid);
        (end, after_events(events, step))
    } else {
        (mid, sends(events))
    }
}

/// The round's stream has ended.
pub open spec fn take_end(cfg: Config, st: FoldView) -> (FoldView, StepView) {
    let (mid, events) = take_items(st, at_most_one(flushed(st.round.parser.data)));
    let (end, step) = finish_round(cfg, mid);
    (end, after_events(events, step))
}

/// The next round was answered, for better or worse.
pub open spec fn take_opened(st: FoldView, status: u16) -> (FoldView, StepView) {
    let next = st.round_no.wrapping_add(1);
    if status < 400 {
        (
            FoldView { phase: Phase::Reading, round_no: next, round: round_start(), ..st },
            StepView {
                logs: seq![(Level::Info, opened_line(st.rid, status, next))],
                ..sends(Seq::empty())
            },
        )
    } else {
        broken(
            st,
            round_usage(st),
            "upstream_error"@,
            seq![(Level::Error, refused_line(st.rid, status, next))],
        )
    }
}

/// What a fold does. What it does not wait for does nothing.
pub open spec fn fold_step(cfg: Config, st: FoldView, input: InputView) -> (FoldView, StepView) {
    match (st.phase, input) {
        (Phase::Reading, InputView::Chunk(bytes)) => take_chunk(cfg, st, bytes),
        (Phase::Reading, InputView::EndOfBody) => take_end(cfg, st),
        (Phase::Reading, InputView::BodyFailed) => broken(
            st,
            None,
            "upstream_error"@,
            seq![(Level::Error, stream_error_line(st.rid, st.round_no))],
        ),
        (Phase::Opening, InputView::Opened(status)) => take_opened(st, status),
        (Phase::Opening, InputView::OpenFailed(error)) => broken(
            st,
            round_usage(st),
            "upstream_error"@,
            seq![
                (
                    Level::Error,
                    open_failed_line(st.rid, st.round_no.wrapping_add(1), error),
                ),
            ],
        ),
        _ => (st, sends(Seq::empty())),
    }
}

} // verus!
