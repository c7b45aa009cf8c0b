//! What holds of a fold as a whole.
use vstd::prelude::*;

use crate::answer::{
    answer_text, chunks, commentary_events_of, delta_text, has_delta, is_delta, law_released_text,
    lemma_answer_concat, lemma_placed_text, piece_events, piece_size, rechunked, released,
    EntryView,
};
use crate::codex::{call_id, is_call, law_payload_keeps_rest, repair_at};
use crate::config::{Config, StreamCfg};
use crate::events::{
    ends_response, field_or_empty, index_key, lemma_counts_up, lemma_nth_after_add, nth_after,
    numbered, opens_response, placed, type_of, with_number,
};
use crate::json::{opt_get, opt_str, JsonView};
use crate::logging::Level;
use crate::model::{
    broken, broken_event, counted, cut_off, final_events, finish_round, fold_start, fold_step,
    goes_on, has_encrypted, items_of, last_id, marker, next_replay, released_all, request_input,
    round_info, round_tokens, round_usage, sends, stop_reason, take_event, take_item, take_items,
    told_comment, within_caps, FoldView, InputView, Kind, Phase, RoundView, StepView,
};
use crate::proxy::{lemma_parser_dropped, lemma_parser_last, with_parser};
use crate::sse::{at_most_one, flushed, law_chunking, sse_run, sse_start, ItemView};
use crate::response::{
    ended_response, law_broken_off, law_folded_response, law_metadata, response_record,
};
use crate::store::{after_add, law_added_is_found, HeldId};
use crate::usage::told_usage;

verus! {

/// What a fold does with everything that happens upstream, one after the other.
pub open spec fn fold_run(cfg: Config, st: FoldView, inputs: Seq<InputView>) -> (
    FoldView,
    Seq<StepView>,
)
    decreases inputs.len(),
{
    if inputs.len() == 0 {
        (st, Seq::empty())
    } else {
        let (mid, steps) = fold_run(cfg, st, inputs.drop_last());
        let (end, step) = fold_step(cfg, mid, inputs.last());
        (end, steps.push(step))
    }
}

/// All events that steps send.
pub open spec fn all_events(steps: Seq<StepView>) -> Seq<JsonView>
    decreases steps.len(),
{
    if steps.len() == 0 {
        Seq::empty()
    } else {
        all_events(steps.drop_last()) + steps.last().events
    }
}

/// Whether events carry the numbers from `n` on, as far as they can carry any.
pub open spec fn in_order(evs: Seq<JsonView>, n: i64) -> bool {
    forall|k: int|
        0 <= k < evs.len() && #[trigger] evs[k] is Object ==> evs[k].get("sequence_number"@)
            == Some(JsonView::Int(nth_after(n, k as nat) as int))
}

proof fn lemma_in_order_concat(a: Seq<JsonView>, b: Seq<JsonView>, n: i64)
    requires
        in_order(a, n),
        in_order(b, nth_after(n, a.len())),
    ensures
        in_order(a + b, n),
{
    assert forall|k: int| 0 <= k < (a + b).len() && #[trigger] (a + b)[k] is Object implies (a
        + b)[k].get("sequence_number"@) == Some(JsonView::Int(nth_after(n, k as nat) as int)) by {
        if k < a.len() {
            assert(a[k] is Object);
        } else {
            assert(b[k - a.len()] is Object);
            lemma_nth_after_add(n, a.len(), (k - a.len()) as nat);
        }
    }
}

/// Whether a step goes on with the numbers where the fold stood.
spec fn goes_on_counting(st: FoldView, end: FoldView, evs: Seq<JsonView>) -> bool {
    in_order(evs, st.seq) && end.seq == nth_after(st.seq, evs.len())
}

proof fn lemma_counting_event(st: FoldView, ev: JsonView)
    ensures
        goes_on_counting(st, take_event(st, ev).0, take_event(st, ev).1),
{
    assert(nth_after(st.seq, 0) == st.seq);
}

proof fn lemma_counting_items(st: FoldView, items: Seq<ItemView>)
    ensures
        goes_on_counting(st, take_items(st, items).0, take_items(st, items).1),
    decreases items.len(),
{
    assert(nth_after(st.seq, 0) == st.seq);
    if items.len() > 0 {
        let (mid, front) = take_items(st, items.drop_last());
        lemma_counting_items(st, items.drop_last());
        let (end, back) = take_item(mid, items.last());
        assert(nth_after(mid.seq, 0) == mid.seq);
        if mid.round.terminal is None && items.last() is Event {
            lemma_counting_event(mid, items.last()->Event_0);
        }
        assert(goes_on_counting(mid, end, back));
        lemma_in_order_concat(front, back, st.seq);
        lemma_nth_after_add(st.seq, front.len(), back.len());
    }
}

proof fn lemma_counting_finish(cfg: Config, st: FoldView)
    ensures
        goes_on_counting(st, finish_round(cfg, st).0, finish_round(cfg, st).1.events),
{
    assert(nth_after(st.seq, 0) == st.seq);
}

proof fn lemma_counting_step(cfg: Config, st: FoldView, input: InputView)
    ensures
        goes_on_counting(
            st,
            fold_step(cfg, st, input).0,
            fold_step(cfg, st, input).1.events,
        ),
{
    assert(nth_after(st.seq, 0) == st.seq);
    match (st.phase, input) {
        (Phase::Reading, InputView::Chunk(bytes)) => {
            let (parser, items) = sse_run(st.round.parser, bytes);
            let now = with_parser(st, parser);
            let (mid, events) = take_items(now, items);
            lemma_counting_items(now, items);
            if mid.round.terminal is Some {
                lemma_counting_finish(cfg, mid);
                let back = finish_round(cfg, mid).1.events;
                lemma_in_order_concat(events, back, st.seq);
                lemma_nth_after_add(st.seq, events.len(), back.len());
            }
        },
        (Phase::Reading, InputView::EndOfBody) => {
            let items = at_most_one(flushed(st.round.parser.data));
            let (mid, events) = take_items(st, items);
            lemma_counting_items(st, items);
            lemma_counting_finish(cfg, mid);
            let back = finish_round(cfg, mid).1.events;
            lemma_in_order_concat(events, back, st.seq);
            lemma_nth_after_add(st.seq, events.len(), back.len());
        },
        _ => {},
    }
}

proof fn lemma_counting_run(cfg: Config, st: FoldView, inputs: Seq<InputView>)
    ensures
        goes_on_counting(
            st,
            fold_run(cfg, st, inputs).0,
            all_events(fold_run(cfg, st, inputs).1),
        ),
    decreases inputs.len(),
{
    assert(nth_after(st.seq, 0) == st.seq);
    if inputs.len() > 0 {
        let (mid, steps) = fold_run(cfg, st, inputs.drop_last());
        lemma_counting_run(cfg, st, inputs.drop_last());
        lemma_counting_step(cfg, mid, inputs.last());
        let step = fold_step(cfg, mid, inputs.last()).1;
        assert(steps.push(step).drop_last() =~= steps);
        lemma_in_order_concat(all_events(steps), step.events, st.seq);
        lemma_nth_after_add(st.seq, all_events(steps).len(), step.events.len());
    }
}

/// The events that the client gets are numbered from zero on, one by one, over all rounds.
pub proof fn law_numbers(
    cfg: Config,
    body: JsonView,
    request_id: Option<u64>,
    inputs: Seq<InputView>,
    k: int,
)
    requires
        0 <= k < all_events(fold_run(cfg, fold_start(body, request_id), inputs).1).len(),
        k <= i64::MAX,
    ensures
        ({
            let ev = all_events(fold_run(cfg, fold_start(body, request_id), inputs).1)[k];
            ev is Object ==> ev.get("sequence_number"@) == Some(JsonView::Int(k))
        }),
{
    lemma_counting_run(cfg, fold_start(body, request_id), inputs);
    lemma_counts_up(0, k as nat);
}

/// Whether no event ends the response, and events that open it are allowed only where `opening`.
pub open spec fn inside(evs: Seq<JsonView>, opening: bool) -> bool {
    forall|k: int|
        0 <= k < evs.len() ==> !ends_response(type_of(#[trigger] evs[k])) && (opens_response(
            type_of(evs[k]),
        ) ==> opening)
}

/// Whether no event that is held back opens or ends the response.
pub open spec fn held_inside(buffer: Seq<EntryView>) -> bool {
    forall|i: int| 0 <= i < buffer.len() ==> inside((#[trigger] buffer[i]).events, false)
}

proof fn lemma_names()
    ensures
        "type"@ != "sequence_number"@,
        "type"@ != "output_index"@,
        inside_name("response.output_item.added"@),
        inside_name("response.output_item.done"@),
        inside_name("response.content_part.added"@),
        inside_name("response.content_part.done"@),
        inside_name("response.output_text.delta"@),
        inside_name("response.output_text.done"@),
        ends_response("response.incomplete"@),
        ends_response("response.completed"@),
{
    reveal_strlit("type");
    reveal_strlit("sequence_number");
    reveal_strlit("output_index");
    reveal_strlit("response.created");
    reveal_strlit("response.in_progress");
    reveal_strlit("response.completed");
    reveal_strlit("response.failed");
    reveal_strlit("response.incomplete");
    reveal_strlit("response.output_item.added");
    reveal_strlit("response.output_item.done");
    reveal_strlit("response.content_part.added");
    reveal_strlit("response.content_part.done");
    reveal_strlit("response.output_text.delta");
    reveal_strlit("response.output_text.done");
    assert("type"@.len() == 4);
    assert("sequence_number"@.len() == 15);
    assert("output_index"@.len() == 12);
    assert("response.created"@.len() == 16);
    assert("response.in_progress"@.len() == 20);
    assert("response.completed"@.len() == 18);
    assert("response.failed"@.len() == 15);
    assert("response.incomplete"@.len() == 19);
    assert("response.output_item.added"@.len() == 26);
    assert("response.output_item.done"@.len() == 25);
    assert("response.content_part.added"@.len() == 27);
    assert("response.content_part.done"@.len() == 26);
    assert("response.output_text.delta"@.len() == 26);
    assert("response.output_text.done"@.len() == 25);
}

spec fn inside_name(t: Seq<char>) -> bool {
    !ends_response(t) && !opens_response(t)
}

/// A number does not change the type of an event.
proof fn lemma_numbered_types(evs: Seq<JsonView>, n: i64)
    ensures
        numbered(evs, n).len() == evs.len(),
        forall|k: int|
            0 <= k < evs.len() ==> type_of(#[trigger] numbered(evs, n)[k]) == type_of(evs[k]),
{
    lemma_names();
}

proof fn lemma_inside_numbered(evs: Seq<JsonView>, n: i64, opening: bool)
    requires
        inside(evs, opening),
    ensures
        inside(numbered(evs, n), opening),
{
    lemma_numbered_types(evs, n);
}

proof fn lemma_inside_concat(a: Seq<JsonView>, b: Seq<JsonView>, opening: bool)
    requires
        inside(a, opening),
        inside(b, opening),
    ensures
        inside(a + b, opening),
{
    assert forall|k: int| 0 <= k < (a + b).len() implies !ends_response(
        type_of(#[trigger] (a + b)[k]),
    ) && (opens_response(type_of((a + b)[k])) ==> opening) by {
        if k < a.len() {
            assert((a + b)[k] == a[k]);
        } else {
            assert((a + b)[k] == b[k - a.len()]);
        }
    }
}

proof fn lemma_inside_event(st: FoldView, ev: JsonView)
    requires
        held_inside(st.round.buffer),
    ensures
        held_inside(take_event(st, ev).0.round.buffer),
        inside(take_event(st, ev).1, st.round_no == 1),
        take_event(st, ev).0.round_no == st.round_no,
        take_event(st, ev).0.phase == st.phase,
{
    lemma_names();
    let (end, evs) = take_event(st, ev);
    lemma_end_names(type_of(ev));
    lemma_numbered_types(seq![ev], st.seq);
    if !opens_response(type_of(ev)) && !ends_response(type_of(ev)) {
        assert(inside(seq![ev], false));
        assert forall|i: int| 0 <= i < end.round.buffer.len() implies inside(
            (#[trigger] end.round.buffer[i]).events,
            false,
        ) by {
            if i < st.round.buffer.len() {
                assert(inside(st.round.buffer[i].events, false));
                if end.round.buffer[i] != st.round.buffer[i] {
                    lemma_inside_concat(st.round.buffer[i].events, seq![ev], false);
                    assert(st.round.buffer[i].events.push(ev) =~= st.round.buffer[i].events
                        + seq![ev]);
                }
            }
        }
        lemma_numbered_types(
            seq![ev.set("output_index"@, JsonView::Int(st.ds_oi as int))],
            st.seq,
        );
        let key = index_key(ev);
        if st.round.kinds.contains_key(key) && st.round.kinds[key] is Reasoning {
            let oi = st.round.kinds[key]->Reasoning_0;
            lemma_numbered_types(
                seq![ev.set("output_index"@, JsonView::Int(oi as int))],
                st.seq,
            );
        }
    }
}

proof fn lemma_inside_items(st: FoldView, items: Seq<ItemView>)
    requires
        held_inside(st.round.buffer),
    ensures
        held_inside(take_items(st, items).0.round.buffer),
        inside(take_items(st, items).1, st.round_no == 1),
        take_items(st, items).0.round_no == st.round_no,
        take_items(st, items).0.phase == st.phase,
        take_items(st, items).0.round.terminal matches Some(t) ==> st.round.terminal is Some
            || ends_response(type_of(t)),
    decreases items.len(),
{
    if items.len() > 0 {
        let (mid, front) = take_items(st, items.drop_last());
        lemma_inside_items(st, items.drop_last());
        if mid.round.terminal is None && items.last() is Event {
            lemma_inside_event(mid, items.last()->Event_0);
        }
        lemma_inside_concat(front, take_item(mid, items.last()).1, st.round_no == 1);
    }
}

proof fn lemma_inside_rechunked(evs: Seq<JsonView>, oi: i64, pieces: Seq<Seq<char>>)
    requires
        inside(evs, false),
    ensures
        inside(rechunked(evs, oi, pieces), false),
    decreases evs.len(),
{
    lemma_names();
    if evs.len() > 0 {
        let front = evs.drop_last();
        let ev = evs.last();
        assert forall|k: int| 0 <= k < front.len() implies !ends_response(
            type_of(#[trigger] front[k]),
        ) && !opens_response(type_of(front[k])) by {
            assert(front[k] == evs[k]);
        }
        lemma_inside_rechunked(front, oi, pieces);
        assert(ev == evs[evs.len() - 1]);
        lemma_placed_text(ev, oi);
        lemma_piece_types(ev, oi, pieces);
        lemma_inside_concat(
            rechunked(front, oi, pieces),
            if !is_delta(ev) {
                seq![placed(ev, oi)]
            } else if has_delta(front) {
                Seq::empty()
            } else {
                piece_events(ev, oi, pieces)
            },
            false,
        );
    }
}

proof fn lemma_piece_types(ev: JsonView, oi: i64, pieces: Seq<Seq<char>>)
    ensures
        inside(piece_events(ev, oi, pieces), false),
{
    lemma_names();
    reveal_strlit("type");
    reveal_strlit("delta");
    reveal_strlit("item_id");
    reveal_strlit("output_index");
    reveal_strlit("content_index");
    assert("type"@.len() == 4);
    assert("delta"@.len() == 5);
    assert("item_id"@.len() == 7);
    assert("output_index"@.len() == 12);
    assert("content_index"@.len() == 13);
}

proof fn lemma_inside_released(e: EntryView, oi: i64, cfg: StreamCfg)
    requires
        inside(e.events, false),
    ensures
        inside(released(e, oi, cfg), false),
{
    if cfg.rechunk_final_answer && e.itype == "message"@ {
        lemma_inside_rechunked(e.events, oi, chunks(answer_text(e.events), piece_size(cfg)));
    } else {
        let all = released(e, oi, cfg);
        assert forall|k: int| 0 <= k < all.len() implies !ends_response(
            type_of(#[trigger] all[k]),
        ) && !opens_response(type_of(all[k])) by {
            lemma_placed_text(e.events[k], oi);
            assert(type_of(all[k]) == type_of(e.events[k]));
        }
    }
}

proof fn lemma_inside_released_all(buffer: Seq<EntryView>, oi: i64, cfg: StreamCfg)
    requires
        held_inside(buffer),
    ensures
        inside(released_all(buffer, oi, cfg), false),
    decreases buffer.len(),
{
    if buffer.len() > 0 {
        let front = buffer.drop_last();
        assert forall|i: int| 0 <= i < front.len() implies inside(
            (#[trigger] front[i]).events,
            false,
        ) by {
            assert(front[i] == buffer[i]);
        }
        lemma_inside_released_all(front, oi, cfg);
        assert(inside(buffer[buffer.len() - 1].events, false));
        lemma_inside_released(buffer.last(), nth_after(oi, front.len()), cfg);
        lemma_inside_concat(
            released_all(front, oi, cfg),
            released(buffer.last(), nth_after(oi, front.len()), cfg),
            false,
        );
    }
}

proof fn lemma_inside_commentary(item: JsonView, oi: i64)
    ensures
        inside(commentary_events_of(item, oi), false),
{
    lemma_names();
    reveal_strlit("type");
    reveal_strlit("delta");
    reveal_strlit("text");
    reveal_strlit("part");
    reveal_strlit("item");
    reveal_strlit("item_id");
    reveal_strlit("output_index");
    reveal_strlit("content_index");
    assert("type"@.len() == 4 && "type"@[0] == 't' && "type"@[1] == 'y');
    assert("text"@.len() == 4 && "text"@[1] == 'e');
    assert("part"@.len() == 4 && "part"@[0] == 'p');
    assert("item"@.len() == 4 && "item"@[0] == 'i');
    assert("delta"@.len() == 5);
    assert("item_id"@.len() == 7);
    assert("output_index"@.len() == 12);
    assert("content_index"@.len() == 13);
    let evs = commentary_events_of(item, oi);
    assert(type_of(evs[0]) == "response.output_item.added"@);
    assert(type_of(evs[1]) == "response.content_part.added"@);
    assert(type_of(evs[2]) == "response.output_text.delta"@);
    assert(type_of(evs[3]) == "response.output_text.done"@);
    assert(type_of(evs[4]) == "response.content_part.done"@);
    assert(type_of(evs[5]) == "response.output_item.done"@);
}

/// Whether the last event ends the response, and no other one does.
pub open spec fn ends_once(evs: Seq<JsonView>, opening: bool) -> bool {
    &&& evs.len() > 0
    &&& ends_response(type_of(evs.last()))
    &&& inside(evs.drop_last(), opening)
}

/// Whether events fit the phase that a fold has come to: the response is ended when the fold is
/// finished, and not before.
pub open spec fn fit_phase(evs: Seq<JsonView>, phase: Phase, opening: bool) -> bool {
    if phase == Phase::Finished {
        ends_once(evs, opening)
    } else {
        inside(evs, opening)
    }
}

proof fn lemma_fit_after(a: Seq<JsonView>, b: Seq<JsonView>, phase: Phase, opening: bool)
    requires
        inside(a, opening),
        fit_phase(b, phase, opening),
    ensures
        fit_phase(a + b, phase, opening),
{
    if phase == Phase::Finished {
        lemma_inside_concat(a, b.drop_last(), opening);
        assert((a + b).drop_last() =~= a + b.drop_last());
    } else {
        lemma_inside_concat(a, b, opening);
    }
}

proof fn lemma_fit_wider(evs: Seq<JsonView>, phase: Phase, opening: bool)
    requires
        fit_phase(evs, phase, false),
    ensures
        fit_phase(evs, phase, opening),
{
}

proof fn lemma_fit_broken(
    st: FoldView,
    usage: Option<JsonView>,
    reason: Seq<char>,
    logs: Seq<(Level, Seq<char>)>,
)
    ensures
        fit_phase(broken(st, usage, reason, logs).1.events, Phase::Finished, false),
{
    lemma_names();
    lemma_response_names();
    let ev = broken_event(st, usage, reason);
    lemma_numbered_types(seq![ev], st.seq);
    assert(type_of(ev) == "response.incomplete"@);
}

proof fn lemma_response_names()
    ensures
        "type"@ != "response"@,
{
    reveal_strlit("type");
    reveal_strlit("response");
    assert("type"@.len() == 4);
    assert("response"@.len() == 8);
}

proof fn lemma_fit_finish(cfg: Config, st: FoldView)
    requires
        held_inside(st.round.buffer),
        st.round.terminal matches Some(t) ==> ends_response(type_of(t)),
    ensures
        finish_round(cfg, st).0.phase != Phase::Reading,
        fit_phase(
            finish_round(cfg, st).1.events,
            finish_round(cfg, st).0.phase,
            false,
        ),
        held_inside(finish_round(cfg, st).0.round.buffer),
{
    lemma_names();
    lemma_response_names();
    if goes_on(cfg, st) {
        let item = told_comment(cfg, st);
        lemma_inside_commentary(item, st.ds_oi);
        lemma_inside_numbered(commentary_events_of(item, st.ds_oi), st.seq, false);
    } else if st.round.terminal is None {
        lemma_fit_broken(
            counted(cfg, st),
            round_usage(st),
            "upstream_eof"@,
            finish_round(cfg, st).1.logs,
        );
    } else {
        let evs = final_events(cfg, st);
        let held = released_all(st.round.buffer, st.ds_oi, cfg.stream);
        lemma_inside_released_all(st.round.buffer, st.ds_oi, cfg.stream);
        lemma_inside_numbered(held, st.seq, false);
        lemma_numbered_types(evs, st.seq);
        assert(numbered(evs, st.seq).drop_last() =~= numbered(held, st.seq));
        assert(evs.last() == evs[evs.len() - 1]);
        assert(numbered(evs, st.seq).last() == numbered(evs, st.seq)[evs.len() - 1]);
        assert(ends_response(type_of(evs.last())));
    }
}

/// Whether a state can be reached: nothing that is held back opens or ends the response, and a
/// round that is being read has not ended.
pub open spec fn proper(st: FoldView) -> bool {
    &&& held_inside(st.round.buffer)
    &&& st.phase == Phase::Reading ==> st.round.terminal is None
}

proof fn lemma_fit_step(cfg: Config, st: FoldView, input: InputView)
    requires
        proper(st),
        st.phase != Phase::Finished,
    ensures
        proper(fold_step(cfg, st, input).0),
        fit_phase(
            fold_step(cfg, st, input).1.events,
            fold_step(cfg, st, input).0.phase,
            st.round_no == 1,
        ),
{
    let opening = st.round_no == 1;
    match (st.phase, input) {
        (Phase::Reading, InputView::Chunk(bytes)) => {
            let (parser, items) = sse_run(st.round.parser, bytes);
            let now = with_parser(st, parser);
            let (mid, events) = take_items(now, items);
            lemma_inside_items(now, items);
            if mid.round.terminal is Some {
                lemma_fit_finish(cfg, mid);
                let (end, step) = finish_round(cfg, mid);
                lemma_fit_wider(step.events, end.phase, opening);
                lemma_fit_after(events, step.events, end.phase, opening);
            }
        },
        (Phase::Reading, InputView::EndOfBody) => {
            let items = at_most_one(flushed(st.round.parser.data));
            let (mid, events) = take_items(st, items);
            lemma_inside_items(st, items);
            lemma_fit_finish(cfg, mid);
            let (end, step) = finish_round(cfg, mid);
            lemma_fit_wider(step.events, end.phase, opening);
            lemma_fit_after(events, step.events, end.phase, opening);
        },
        (Phase::Reading, InputView::BodyFailed) => {
            let (end, step) = fold_step(cfg, st, input);
            lemma_fit_broken(st, None, "upstream_error"@, step.logs);
            lemma_fit_wider(step.events, end.phase, opening);
        },
        (Phase::Opening, InputView::Opened(status)) => {
            let (end, step) = fold_step(cfg, st, input);
            if status >= 400 {
                lemma_fit_broken(st, round_usage(st), "upstream_error"@, step.logs);
                lemma_fit_wider(step.events, end.phase, opening);
            }
        },
        (Phase::Opening, InputView::OpenFailed(error)) => {
            let (end, step) = fold_step(cfg, st, input);
            lemma_fit_broken(st, round_usage(st), "upstream_error"@, step.logs);
            lemma_fit_wider(step.events, end.phase, opening);
        },
        _ => {},
    }
}

proof fn lemma_fit_run(cfg: Config, st: FoldView, inputs: Seq<InputView>)
    requires
        proper(st),
        st.phase != Phase::Finished,
    ensures
        proper(fold_run(cfg, st, inputs).0),
        fit_phase(
            all_events(fold_run(cfg, st, inputs).1),
            fold_run(cfg, st, inputs).0.phase,
            true,
        ),
    decreases inputs.len(),
{
    if inputs.len() > 0 {
        let (mid, steps) = fold_run(cfg, st, inputs.drop_last());
        lemma_fit_run(cfg, st, inputs.drop_last());
        let (end, step) = fold_step(cfg, mid, inputs.last());
        assert(steps.push(step).drop_last() =~= steps);
        let front = all_events(steps);
        if mid.phase == Phase::Finished {
            assert(front + Seq::<JsonView>::empty() =~= front);
        } else {
            lemma_fit_step(cfg, mid, inputs.last());
            if mid.round_no != 1 {
                assert(fit_phase(step.events, end.phase, true));
            }
            lemma_fit_after(front, step.events, end.phase, true);
        }
    }
}

/// The client gets one event that ends the response: the last one, once the fold is finished,
/// and none before.
pub proof fn law_one_end(
    cfg: Config,
    body: JsonView,
    request_id: Option<u64>,
    inputs: Seq<InputView>,
)
    ensures
        ({
            let (st, steps) = fold_run(cfg, fold_start(body, request_id), inputs);
            fit_phase(all_events(steps), st.phase, true)
        }),
{
    lemma_fit_run(cfg, fold_start(body, request_id), inputs);
}

/// Only the first round's events that open a response reach the client: none is sent in a later
/// round, in whatever state the fold got there.
pub proof fn law_opened_once(
    cfg: Config,
    body: JsonView,
    request_id: Option<u64>,
    inputs: Seq<InputView>,
    input: InputView,
    k: int,
)
    requires
        fold_run(cfg, fold_start(body, request_id), inputs).0.round_no != 1,
    ensures
        ({
            let st = fold_run(cfg, fold_start(body, request_id), inputs).0;
            let evs = fold_step(cfg, st, input).1.events;
            0 <= k < evs.len() ==> !opens_response(type_of(evs[k]))
        }),
{
    lemma_fit_run(cfg, fold_start(body, request_id), inputs);
    let st = fold_run(cfg, fold_start(body, request_id), inputs).0;
    if st.phase != Phase::Finished {
        lemma_fit_step(cfg, st, input);
        let (end, step) = fold_step(cfg, st, input);
        lemma_end_names(type_of(step.events.last()));
        if 0 <= k < step.events.len() - 1 && end.phase == Phase::Finished {
            assert(step.events[k] == step.events.drop_last()[k]);
        }
    }
}

proof fn lemma_end_names(t: Seq<char>)
    ensures
        ends_response(t) ==> !opens_response(t),
{
    reveal_strlit("response.created");
    reveal_strlit("response.in_progress");
    reveal_strlit("response.completed");
    reveal_strlit("response.failed");
    reveal_strlit("response.incomplete");
    assert("response.created"@.len() == 16);
    assert("response.in_progress"@.len() == 20);
    assert("response.completed"@.len() == 18);
    assert("response.failed"@.len() == 15);
    assert("response.incomplete"@.len() == 19);
}

proof fn lemma_items_concat(st: FoldView, a: Seq<ItemView>, b: Seq<ItemView>)
    ensures
        take_items(st, a + b).0 == take_items(take_items(st, a).0, b).0,
        take_items(st, a + b).1 == take_items(st, a).1 + take_items(take_items(st, a).0, b).1,
    decreases b.len(),
{
    if b.len() == 0 {
        assert(a + b =~= a);
        assert(take_items(st, a).1 + Seq::<JsonView>::empty() =~= take_items(st, a).1);
    } else {
        lemma_items_concat(st, a, b.drop_last());
        assert((a + b).drop_last() =~= a + b.drop_last());
        assert((a + b).last() == b.last());
        assert(take_items(st, a + b).1 =~= take_items(st, a).1 + take_items(
            take_items(st, a).0,
            b,
        ).1);
    }
}

proof fn lemma_items_after_end(st: FoldView, items: Seq<ItemView>)
    requires
        st.round.terminal is Some,
    ensures
        take_items(st, items).0 == st,
        take_items(st, items).1 == Seq::<JsonView>::empty(),
    decreases items.len(),
{
    if items.len() > 0 {
        lemma_items_after_end(st, items.drop_last());
        assert(Seq::<JsonView>::empty() + Seq::<JsonView>::empty() =~= Seq::empty());
    }
}

/// Two steps as one.
pub open spec fn both(a: StepView, b: StepView) -> StepView {
    StepView {
        logs: a.logs + b.logs,
        remember: if a.remember is Some {
            a.remember
        } else {
            b.remember
        },
        events: a.events + b.events,
        done: a.done || b.done,
        open: if a.open is Some {
            a.open
        } else {
            b.open
        },
    }
}

/// A fold does the same however a round's stream is cut into chunks.
pub proof fn law_cut_anywhere(cfg: Config, st: FoldView, a: Seq<u8>, b: Seq<u8>)
    requires
        proper(st),
    ensures
        ({
            let (mid, one) = fold_step(cfg, st, InputView::Chunk(a));
            let (end, two) = fold_step(cfg, mid, InputView::Chunk(b));
            fold_step(cfg, st, InputView::Chunk(a + b)) == (end, both(one, two))
        }),
{
    let (mid, one) = fold_step(cfg, st, InputView::Chunk(a));
    let (end, two) = fold_step(cfg, mid, InputView::Chunk(b));
    let (whole_end, whole) = fold_step(cfg, st, InputView::Chunk(a + b));
    if st.phase == Phase::Reading {
        law_chunking(st.round.parser, a, b);
        let (pa, ia) = sse_run(st.round.parser, a);
        let (pb, ib) = sse_run(pa, b);
        let sa = with_parser(st, pa);
        let sb = with_parser(st, pb);
        let (ma, ea) = take_items(sa, ia);
        lemma_parser_last(sa, pb, ia);
        assert(with_parser(sa, pb) == sb);
        lemma_items_concat(sb, ia, ib);
        let (mb, eb) = take_items(sb, ia);
        assert(mb == with_parser(ma, pb));
        if ma.round.terminal is Some {
            lemma_items_after_end(mb, ib);
            assert(ea + Seq::<JsonView>::empty() =~= ea);
            assert(with_parser(ma, sse_start()) == with_parser(mb, sse_start()));
            lemma_parser_dropped(cfg, ma, mb);
            lemma_finish_phase(cfg, ma);
            assert(whole_end == mid);
            assert(end == mid);
            assert(both(one, two) =~= one);
        } else {
            assert(ma.phase == Phase::Reading) by {
                lemma_inside_items(sa, ia);
            }
            assert(ma.round.parser == pa);
            assert(with_parser(ma, pb) == mb);
            let (fb, gb) = take_items(mb, ib);
            if fb.round.terminal is Some {
                let step = finish_round(cfg, fb).1;
                assert((ea + gb) + step.events =~= ea + (gb + step.events));
            }
            assert(whole_end == end);
            assert(both(one, two) =~= whole);
        }
    } else {
        assert(both(one, two) =~= whole);
    }
}

proof fn lemma_finish_phase(cfg: Config, st: FoldView)
    ensures
        finish_round(cfg, st).0.phase != Phase::Reading,
{
}

/// A round is followed by another one if and only if continuing is enabled, the round's response
/// ended, its reasoning was cut off at a tier in the window and came with encrypted content, and
/// the caps allow it.
pub proof fn law_continues_when(cfg: Config, st: FoldView)
    ensures
        (finish_round(cfg, st).1.open is Some) == goes_on(cfg, st),
        goes_on(cfg, st) ==> finish_round(cfg, st).0.phase == Phase::Opening,
        !goes_on(cfg, st) ==> finish_round(cfg, st).0.phase == Phase::Finished,
{
}

/// Output that was held back leaves no trace when another round follows: neither in what is sent
/// and asked for, nor in how the fold goes on.
pub proof fn law_tentative_dropped(
    cfg: Config,
    st: FoldView,
    other: Seq<EntryView>,
    status: u16,
)
    requires
        goes_on(cfg, st),
        status < 400,
    ensures
        ({
            let twin = FoldView { round: RoundView { buffer: other, ..st.round }, ..st };
            &&& finish_round(cfg, twin).1 == finish_round(cfg, st).1
            &&& fold_step(cfg, finish_round(cfg, twin).0, InputView::Opened(status)) == fold_step(
                cfg,
                finish_round(cfg, st).0,
                InputView::Opened(status),
            )
        }),
{
    let twin = FoldView { round: RoundView { buffer: other, ..st.round }, ..st };
    assert(goes_on(cfg, twin));
}

/// Output that was held back is not sent where the upstream breaks off: not at the end of its
/// stream, not at its failure, and not where the next round is refused or cannot be opened.
pub proof fn law_tentative_not_sent(
    cfg: Config,
    st: FoldView,
    other: Seq<EntryView>,
    input: InputView,
)
    requires
        input is BodyFailed || input is Opened || input is OpenFailed,
    ensures
        ({
            let twin = FoldView { round: RoundView { buffer: other, ..st.round }, ..st };
            &&& fold_step(cfg, twin, input).1 == fold_step(cfg, st, input).1
            &&& st.round.terminal is None ==> finish_round(cfg, twin).1 == finish_round(
                cfg,
                st,
            ).1
        }),
{
    let twin = FoldView { round: RoundView { buffer: other, ..st.round }, ..st };
    assert(round_usage(twin) == round_usage(st));
    assert(goes_on(cfg, twin) == goes_on(cfg, st));
}

/// While a round is read, an event of an item that is not reasoning sends nothing.
pub proof fn law_held_back(st: FoldView, ev: JsonView)
    requires
        !opens_response(type_of(ev)),
        !ends_response(type_of(ev)),
        type_of(ev) == "response.output_item.added"@ ==> opt_str(
            field_or_empty(ev, "item"@).get("type"@),
        ) != Some("reasoning"@),
        type_of(ev) != "response.output_item.added"@ ==> st.round.kinds.contains_key(
            index_key(ev),
        ) && st.round.kinds[index_key(ev)] == Kind::Buffered,
    ensures
        take_event(st, ev).1 == Seq::<JsonView>::empty(),
        take_event(st, ev).0.seq == st.seq,
        take_event(st, ev).0.ds_oi == st.ds_oi,
        take_event(st, ev).0.output == st.output,
{
}

/// While a round is read, an event of a reasoning item is sent at once, with the next number and
/// the output index under which the item was first sent.
pub proof fn law_reasoning_live(st: FoldView, added: JsonView, ev: JsonView)
    requires
        type_of(added) == "response.output_item.added"@,
        opt_str(field_or_empty(added, "item"@).get("type"@)) == Some("reasoning"@),
        index_key(ev) == index_key(added),
        !opens_response(type_of(ev)),
        !ends_response(type_of(ev)),
        type_of(ev) != "response.output_item.added"@,
    ensures
        ({
            let at = JsonView::Int(st.ds_oi as int);
            let (mid, one) = take_event(st, added);
            let (end, two) = take_event(mid, ev);
            &&& one == numbered(seq![added.set("output_index"@, at)], st.seq)
            &&& two == numbered(seq![ev.set("output_index"@, at)], nth_after(st.seq, 1))
        }),
{
    lemma_names();
}

/// A request for another round holds the input of the request, followed by the reasoning of all
/// rounds so far and what asks to go on after each of them.
pub proof fn law_next_input(cfg: Config, st: FoldView)
    requires
        goes_on(cfg, st),
    ensures
        ({
            let (end, step) = finish_round(cfg, st);
            &&& end.replay == st.replay + st.round.reasoning + marker(cfg, st)
            &&& opt_get(step.open, "input"@) == Some(
                JsonView::Array(request_input(st.body) + end.replay),
            )
            &&& opt_get(step.open, "stream"@) == Some(JsonView::Bool(true))
            &&& opt_get(step.open, "previous_response_id"@) is None
        }),
{
    law_payload_keeps_rest(
        st.body,
        request_input(st.body) + next_replay(cfg, st),
        cfg.stream.force_include_encrypted,
        true,
        "input"@,
    );
}

spec fn capped(cfg: Config, st: FoldView) -> bool {
    &&& 1 <= st.round_no <= cfg.cont.max_continue + 1
    &&& st.phase == Phase::Opening ==> st.round_no <= cfg.cont.max_continue
}

proof fn lemma_capped_items(st: FoldView, items: Seq<ItemView>)
    ensures
        take_items(st, items).0.round_no == st.round_no,
        take_items(st, items).0.phase == st.phase,
    decreases items.len(),
{
    if items.len() > 0 {
        lemma_capped_items(st, items.drop_last());
    }
}

proof fn lemma_capped_step(cfg: Config, st: FoldView, input: InputView)
    requires
        cfg.cont.max_continue < usize::MAX,
        capped(cfg, st),
    ensures
        capped(cfg, fold_step(cfg, st, input).0),
{
    match (st.phase, input) {
        (Phase::Reading, InputView::Chunk(bytes)) => {
            let (parser, items) = sse_run(st.round.parser, bytes);
            lemma_capped_items(with_parser(st, parser), items);
        },
        (Phase::Reading, InputView::EndOfBody) => {
            lemma_capped_items(st, at_most_one(flushed(st.round.parser.data)));
        },
        _ => {},
    }
}

/// However the upstream behaves, a request is continued at most `max_continue` times.
pub proof fn law_round_cap(
    cfg: Config,
    body: JsonView,
    request_id: Option<u64>,
    inputs: Seq<InputView>,
)
    requires
        cfg.cont.max_continue < usize::MAX,
    ensures
        fold_run(cfg, fold_start(body, request_id), inputs).0.round_no
            <= cfg.cont.max_continue + 1,
{
    lemma_capped_run(cfg, fold_start(body, request_id), inputs);
}

proof fn lemma_capped_run(cfg: Config, st: FoldView, inputs: Seq<InputView>)
    requires
        cfg.cont.max_continue < usize::MAX,
        capped(cfg, st),
    ensures
        capped(cfg, fold_run(cfg, st, inputs).0),
    decreases inputs.len(),
{
    if inputs.len() > 0 {
        lemma_capped_run(cfg, st, inputs.drop_last());
        let mid = fold_run(cfg, st, inputs.drop_last()).0;
        lemma_capped_step(cfg, mid, inputs.last());
    }
}

/// Where nothing stops a truncated round from being continued, no reason is told; where a
/// response whose reasoning was cut off is not continued, one is.
pub proof fn law_stop_told(cfg: Config, st: FoldView)
    ensures
        stop_reason(cfg, st) is Some <==> cut_off(cfg, st) && !goes_on(cfg, st),
{
}

/// A fold that is finished does nothing any more.
pub proof fn law_finished_stays(cfg: Config, st: FoldView, input: InputView)
    requires
        st.phase == Phase::Finished,
    ensures
        fold_step(cfg, st, input) == (st, sends(Seq::empty())),
{
}

/// The log tells counts, rounds and states: where these are the same, the same is logged,
/// whatever was asked and answered.
pub proof fn law_log_tells_counts(cfg: Config, a: FoldView, b: FoldView)
    requires
        a.rid == b.rid,
        a.round_no == b.round_no,
        round_tokens(a) == round_tokens(b),
        a.round.terminal is Some == b.round.terminal is Some,
        has_encrypted(a) == has_encrypted(b),
        within_caps(cfg, a) == within_caps(cfg, b),
    ensures
        finish_round(cfg, a).1.logs == finish_round(cfg, b).1.logs,
{
}

/// The answer's text that is held back.
pub open spec fn held_text(buffer: Seq<EntryView>) -> Seq<char>
    decreases buffer.len(),
{
    if buffer.len() == 0 {
        Seq::empty()
    } else {
        held_text(buffer.drop_last()) + answer_text(buffer.last().events)
    }
}

proof fn lemma_released_all_text(buffer: Seq<EntryView>, oi: i64, cfg: StreamCfg)
    ensures
        answer_text(released_all(buffer, oi, cfg)) == held_text(buffer),
    decreases buffer.len(),
{
    if buffer.len() > 0 {
        let front = buffer.drop_last();
        let at = nth_after(oi, front.len());
        lemma_released_all_text(front, oi, cfg);
        law_released_text(buffer.last(), at, cfg);
        lemma_answer_concat(released_all(front, oi, cfg), released(buffer.last(), at, cfg));
    }
}

proof fn lemma_numbered_text(evs: Seq<JsonView>, n: i64)
    ensures
        answer_text(numbered(evs, n)) == answer_text(evs),
    decreases evs.len(),
{
    if evs.len() > 0 {
        let front = evs.drop_last();
        lemma_numbered_text(front, n);
        lemma_numbered_types(evs, n);
        assert(numbered(evs, n).drop_last() =~= numbered(front, n));
        reveal_strlit("delta");
        reveal_strlit("sequence_number");
        assert("delta"@.len() == 5);
        assert("sequence_number"@.len() == 15);
        assert(evs.last() == evs[evs.len() - 1]);
        assert(numbered(evs, n).last() == numbered(evs, n)[evs.len() - 1]);
        assert(delta_text(numbered(evs, n).last()) == delta_text(evs.last()));
    }
}

/// When a fold ends with the upstream's response, the client gets the whole text that was held
/// back, however it is cut.
pub proof fn law_whole_answer(cfg: Config, st: FoldView)
    requires
        !goes_on(cfg, st),
        st.round.terminal matches Some(t) && ends_response(type_of(t)),
    ensures
        answer_text(finish_round(cfg, st).1.events) == held_text(st.round.buffer),
{
    let evs = final_events(cfg, st);
    let held = released_all(st.round.buffer, st.ds_oi, cfg.stream);
    lemma_numbered_text(evs, st.seq);
    lemma_released_all_text(st.round.buffer, st.ds_oi, cfg.stream);
    lemma_names();
    lemma_response_names();
    assert(evs.drop_last() =~= held);
    assert(ends_response(type_of(evs.last())));
    assert(answer_text(evs) =~= answer_text(held));
}

/// What a fold does with one more input.
proof fn lemma_run_push(cfg: Config, st: FoldView, inputs: Seq<InputView>, input: InputView)
    ensures
        ({
            let (mid, steps) = fold_run(cfg, st, inputs);
            let (end, step) = fold_step(cfg, mid, input);
            let (run_end, run_steps) = fold_run(cfg, st, inputs.push(input));
            &&& run_end == end
            &&& all_events(run_steps) == all_events(steps) + step.events
        }),
{
    let (mid, steps) = fold_run(cfg, st, inputs);
    let step = fold_step(cfg, mid, input).1;
    assert(inputs.push(input).drop_last() =~= inputs);
    assert(steps.push(step).drop_last() =~= steps);
}

/// However the chunks of a stream are cut, the client gets the same events and the fold ends up
/// in the same state, whatever follows.
pub proof fn law_cut_run(
    cfg: Config,
    st: FoldView,
    a: Seq<u8>,
    b: Seq<u8>,
    rest: Seq<InputView>,
)
    requires
        proper(st),
    ensures
        ({
            let (end, steps) = fold_run(
                cfg,
                st,
                seq![InputView::Chunk(a), InputView::Chunk(b)] + rest,
            );
            let (one_end, one_steps) = fold_run(cfg, st, seq![InputView::Chunk(a + b)] + rest);
            end == one_end && all_events(steps) == all_events(one_steps)
        }),
    decreases rest.len(),
{
    let two = seq![InputView::Chunk(a), InputView::Chunk(b)];
    let one = seq![InputView::Chunk(a + b)];
    if rest.len() == 0 {
        lemma_cut_two(cfg, st, a, b);
        assert(two + rest =~= two);
        assert(one + rest =~= one);
    } else {
        let front = rest.drop_last();
        law_cut_run(cfg, st, a, b, front);
        assert(two + rest =~= (two + front).push(rest.last()));
        assert(one + rest =~= (one + front).push(rest.last()));
        lemma_run_push(cfg, st, two + front, rest.last());
        lemma_run_push(cfg, st, one + front, rest.last());
    }
}

proof fn lemma_cut_two(cfg: Config, st: FoldView, a: Seq<u8>, b: Seq<u8>)
    requires
        proper(st),
    ensures
        ({
            let (end, steps) = fold_run(
                cfg,
                st,
                seq![InputView::Chunk(a), InputView::Chunk(b)],
            );
            let (one_end, one_steps) = fold_run(cfg, st, seq![InputView::Chunk(a + b)]);
            end == one_end && all_events(steps) == all_events(one_steps)
        }),
{
    let none = Seq::<InputView>::empty();
    let first = InputView::Chunk(a);
    let second = InputView::Chunk(b);
    let whole = InputView::Chunk(a + b);
    law_cut_anywhere(cfg, st, a, b);
    lemma_run_push(cfg, st, none, first);
    lemma_run_push(cfg, st, none.push(first), second);
    lemma_run_push(cfg, st, none, whole);
    assert(none.push(first).push(second) =~= seq![first, second]);
    assert(none.push(whole) =~= seq![whole]);
    assert(all_events(fold_run(cfg, st, none).1) =~= Seq::empty());
    let (mid, one) = fold_step(cfg, st, first);
    let two = fold_step(cfg, mid, second).1;
    assert((Seq::<JsonView>::empty() + one.events) + two.events =~= Seq::<JsonView>::empty() + (
    one.events + two.events));
}

/// The response that an event carries.
pub open spec fn response_of(ev: JsonView) -> Option<JsonView> {
    ev.get("response"@)
}

/// Whether an event tells of all output, of all rounds and of all usage of a fold.
pub open spec fn tells_all(ev: JsonView, st: FoldView) -> bool {
    let md = opt_get(response_of(ev), "metadata"@);
    &&& opt_get(response_of(ev), "output"@) == Some(JsonView::Array(st.output))
    &&& opt_get(md, "proxy_rounds"@) == Some(JsonView::Array(st.rounds))
    &&& st.total is Object && st.total.truthy() ==> opt_get(md, "proxy_billed_usage"@) == Some(
        st.total,
    )
}

proof fn lemma_tells_names()
    ensures
        "response"@ != "sequence_number"@,
        "output"@ != "metadata"@,
{
    reveal_strlit("response");
    reveal_strlit("sequence_number");
    reveal_strlit("output");
    reveal_strlit("metadata");
    assert("response"@.len() == 8);
    assert("sequence_number"@.len() == 15);
    assert("output"@.len() == 6);
    assert("metadata"@.len() == 8);
}

proof fn lemma_tells_broken(
    st: FoldView,
    usage: Option<JsonView>,
    reason: Seq<char>,
    logs: Seq<(Level, Seq<char>)>,
)
    ensures
        ({
            let (end, step) = broken(st, usage, reason, logs);
            step.events.len() == 1 && tells_all(step.events.last(), end)
        }),
{
    lemma_tells_names();
    let told = told_usage(st.first, Some(st.total), usage, false);
    law_broken_off(st.base, st.output, told, reason, st.rounds, Some(st.total));
    let resp = match st.base {
        Some(b) => response_record(b),
        None => JsonView::Object(Map::empty()),
    };
    let resp = resp.set("output"@, JsonView::Array(st.output)).set("usage"@, told).set(
        "status"@,
        JsonView::Text("incomplete"@),
    ).set("incomplete_details"@, JsonView::Object(map!["reason"@ => JsonView::Text(reason)]));
    law_metadata(resp.get("metadata"@), st.rounds, Some(reason), Some(st.total), "proxy_rounds"@);
    let ev = broken_event(st, usage, reason);
    assert(broken(st, usage, reason, logs).1.events =~= seq![with_number(ev, st.seq)]);
    assert(response_of(with_number(ev, st.seq)) == response_of(ev));
}

proof fn lemma_tells_finish(cfg: Config, st: FoldView)
    requires
        !goes_on(cfg, st),
    ensures
        ({
            let (end, step) = finish_round(cfg, st);
            step.events.len() > 0 && tells_all(step.events.last(), end)
        }),
{
    lemma_tells_names();
    let (end, step) = finish_round(cfg, st);
    if st.round.terminal is None {
        lemma_tells_broken(counted(cfg, st), round_usage(st), "upstream_eof"@, step.logs);
    } else {
        let now = counted(cfg, st);
        let evs = final_events(cfg, st);
        let output = st.output + items_of(st.round.buffer);
        let told = told_usage(now.first, Some(now.total), round_usage(st), true);
        let base = match st.base {
            Some(b) => b,
            None => ended_response(st.round.terminal),
        };
        law_folded_response(
            st.round.terminal,
            base,
            output,
            told,
            now.rounds,
            stop_reason(cfg, st),
            Some(now.total),
            "output"@,
        );
        law_metadata(
            base.get("metadata"@),
            now.rounds,
            stop_reason(cfg, st),
            Some(now.total),
            "proxy_rounds"@,
        );
        let last = evs.last();
        assert(step.events.last() == with_number(last, nth_after(st.seq, (evs.len() - 1) as nat)));
        assert(response_of(step.events.last()) == response_of(last));
    }
}

/// The event that ends the response lists all output that reached the client, and tells of every
/// round and of all usage, however the fold came to its end.
pub proof fn law_end_tells_all(cfg: Config, st: FoldView, input: InputView)
    requires
        proper(st),
        st.phase != Phase::Finished,
        fold_step(cfg, st, input).0.phase == Phase::Finished,
    ensures
        ({
            let (end, step) = fold_step(cfg, st, input);
            step.events.len() > 0 && tells_all(step.events.last(), end)
        }),
{
    let (end, step) = fold_step(cfg, st, input);
    match (st.phase, input) {
        (Phase::Reading, InputView::Chunk(bytes)) => {
            let (parser, items) = sse_run(st.round.parser, bytes);
            let (mid, events) = take_items(with_parser(st, parser), items);
            lemma_inside_items(with_parser(st, parser), items);
            assert(mid.round.terminal is Some);
            lemma_tells_finish(cfg, mid);
            let back = finish_round(cfg, mid).1.events;
            assert((events + back).last() == back.last());
        },
        (Phase::Reading, InputView::EndOfBody) => {
            let (mid, events) = take_items(st, at_most_one(flushed(st.round.parser.data)));
            lemma_tells_finish(cfg, mid);
            let back = finish_round(cfg, mid).1.events;
            assert((events + back).last() == back.last());
        },
        (Phase::Reading, InputView::BodyFailed) => {
            lemma_tells_broken(st, None, "upstream_error"@, step.logs);
        },
        _ => {
            lemma_tells_broken(st, round_usage(st), "upstream_error"@, step.logs);
        },
    }
}

proof fn lemma_output_grows_items(st: FoldView, items: Seq<ItemView>)
    ensures
        st.output.is_prefix_of(take_items(st, items).0.output),
    decreases items.len(),
{
    if items.len() > 0 {
        lemma_output_grows_items(st, items.drop_last());
    }
}

/// Output that has reached the client stays output of the response.
pub proof fn law_output_stays(cfg: Config, st: FoldView, input: InputView)
    ensures
        st.output.is_prefix_of(fold_step(cfg, st, input).0.output),
{
    match (st.phase, input) {
        (Phase::Reading, InputView::Chunk(bytes)) => {
            let (parser, items) = sse_run(st.round.parser, bytes);
            lemma_output_grows_items(with_parser(st, parser), items);
        },
        (Phase::Reading, InputView::EndOfBody) => {
            lemma_output_grows_items(st, at_most_one(flushed(st.round.parser.data)));
        },
        _ => {},
    }
}

/// Whether a fold has told of each round that ended, in order.
pub open spec fn rounds_told(st: FoldView) -> bool {
    &&& st.phase == Phase::Reading ==> st.rounds.len() == st.round_no - 1
    &&& st.phase == Phase::Opening ==> st.rounds.len() == st.round_no
    &&& st.rounds.len() <= st.round_no
    &&& forall|i: int|
        0 <= i < st.rounds.len() ==> (#[trigger] st.rounds[i]).get("round"@) == Some(
            JsonView::Int(i + 1),
        )
}

proof fn lemma_rounds_items(st: FoldView, items: Seq<ItemView>)
    ensures
        take_items(st, items).0.rounds == st.rounds,
        take_items(st, items).0.round_no == st.round_no,
        take_items(st, items).0.phase == st.phase,
    decreases items.len(),
{
    if items.len() > 0 {
        lemma_rounds_items(st, items.drop_last());
    }
}

proof fn lemma_rounds_finish(cfg: Config, st: FoldView)
    requires
        rounds_told(st),
        st.phase == Phase::Reading,
    ensures
        rounds_told(finish_round(cfg, st).0),
{
    reveal_strlit("round");
    reveal_strlit("reasoning_tokens");
    reveal_strlit("n");
    assert("round"@.len() == 5);
    assert("reasoning_tokens"@.len() == 16);
    assert("n"@.len() == 1);
    assert(round_info(cfg, st).get("round"@) == Some(JsonView::Int(st.round_no as int)));
}

proof fn lemma_rounds_step(cfg: Config, st: FoldView, input: InputView)
    requires
        rounds_told(st),
        st.round_no < usize::MAX,
    ensures
        rounds_told(fold_step(cfg, st, input).0),
{
    match (st.phase, input) {
        (Phase::Reading, InputView::Chunk(bytes)) => {
            let (parser, items) = sse_run(st.round.parser, bytes);
            let now = with_parser(st, parser);
            lemma_rounds_items(now, items);
            let mid = take_items(now, items).0;
            if mid.round.terminal is Some {
                lemma_rounds_finish(cfg, mid);
            }
        },
        (Phase::Reading, InputView::EndOfBody) => {
            let items = at_most_one(flushed(st.round.parser.data));
            lemma_rounds_items(st, items);
            lemma_rounds_finish(cfg, take_items(st, items).0);
        },
        _ => {},
    }
}

proof fn lemma_rounds_run(cfg: Config, st: FoldView, inputs: Seq<InputView>)
    requires
        cfg.cont.max_continue < usize::MAX - 1,
        rounds_told(st),
        capped(cfg, st),
    ensures
        rounds_told(fold_run(cfg, st, inputs).0),
        capped(cfg, fold_run(cfg, st, inputs).0),
    decreases inputs.len(),
{
    if inputs.len() > 0 {
        lemma_rounds_run(cfg, st, inputs.drop_last());
        let mid = fold_run(cfg, st, inputs.drop_last()).0;
        lemma_rounds_step(cfg, mid, inputs.last());
        lemma_capped_step(cfg, mid, inputs.last());
    }
}

/// A fold tells of each round that ended, in order, counted from one.
pub proof fn law_rounds_told(
    cfg: Config,
    body: JsonView,
    request_id: Option<u64>,
    inputs: Seq<InputView>,
)
    requires
        cfg.cont.max_continue < usize::MAX - 1,
    ensures
        rounds_told(fold_run(cfg, fold_start(body, request_id), inputs).0),
{
    lemma_rounds_run(cfg, fold_start(body, request_id), inputs);
}

/// A reasoning id that a fold remembered is put right in a later request: behind the reasoning
/// stands again what the upstream was sent, as long as the id is held.
pub proof fn law_remembered_is_repaired(
    cfg: Config,
    st: FoldView,
    ids: Seq<HeldId>,
    capacity: nat,
    ttl: u128,
    now: u128,
    later: u128,
    items: Seq<JsonView>,
    i: int,
)
    requires
        goes_on(cfg, st),
        finish_round(cfg, st).1.remember == Some(last_id(st)),
        capacity > 0,
        now + ttl <= u128::MAX,
        later <= now + ttl,
        0 <= i < items.len(),
        opt_str(items[i].get("type"@)) == Some("reasoning"@),
        opt_str(items[i].get("id"@)) == Some(last_id(st)),
        i + 1 < items.len() ==> !is_call(items[i + 1], call_id(last_id(st))),
    ensures
        repair_at(
            items,
            i,
            after_add(ids, capacity, ttl, last_id(st), now),
            later,
            cfg.cont.continue_tool_name@,
            cfg.cont.continue_output_text@,
        ) == marker(cfg, st),
{
    law_added_is_found(ids, capacity, ttl, last_id(st), now, later);
}

/// Whether the next output index is the place that the next item takes in the output: no item is
/// under way.
pub open spec fn index_is_place(st: FoldView) -> bool {
    st.ds_oi == st.output.len() && st.output.len() < i64::MAX
}

/// A reasoning item is sent under the index of the place that it takes in the output.
pub proof fn law_reasoning_place(st: FoldView, added: JsonView, done: JsonView)
    requires
        index_is_place(st),
        type_of(added) == "response.output_item.added"@,
        opt_str(field_or_empty(added, "item"@).get("type"@)) == Some("reasoning"@),
        type_of(done) == "response.output_item.done"@,
        index_key(done) == index_key(added),
    ensures
        ({
            let at = JsonView::Int(st.output.len() as int);
            let (mid, one) = take_event(st, added);
            let (end, two) = take_event(mid, done);
            &&& one == numbered(seq![added.set("output_index"@, at)], st.seq)
            &&& two == numbered(seq![done.set("output_index"@, at)], nth_after(st.seq, 1))
            &&& end.output == st.output.push(field_or_empty(done, "item"@))
            &&& end.ds_oi == end.output.len()
        }),
{
    lemma_names();
    lemma_added_is_not_done();
    law_reasoning_live(st, added, done);
    lemma_counts_up(st.ds_oi, 1);
}

proof fn lemma_added_is_not_done()
    ensures
        "response.output_item.added"@ != "response.output_item.done"@,
{
    reveal_strlit("response.output_item.added");
    reveal_strlit("response.output_item.done");
    assert("response.output_item.added"@.len() == 26);
    assert("response.output_item.done"@.len() == 25);
}

/// The events of all entries, entry by entry.
pub proof fn lemma_released_places(buffer: Seq<EntryView>, oi: i64, cfg: StreamCfg)
    requires
        oi + buffer.len() <= i64::MAX,
    ensures
        released_all(buffer, oi, cfg) == Seq::new(
            buffer.len(),
            |k: int| released(buffer[k], (oi + k) as i64, cfg),
        ).flatten(),
    decreases buffer.len(),
{
    let all = Seq::new(buffer.len(), |k: int| released(buffer[k], (oi + k) as i64, cfg));
    all.lemma_flatten_and_flatten_alt_are_equivalent();
    if buffer.len() > 0 {
        let front = buffer.drop_last();
        let most = Seq::new(front.len(), |k: int| released(front[k], (oi + k) as i64, cfg));
        lemma_released_places(front, oi, cfg);
        most.lemma_flatten_and_flatten_alt_are_equivalent();
        assert(all.drop_last() =~= most);
        lemma_counts_up(oi, front.len());
        assert(all.last() == released(buffer.last(), nth_after(oi, front.len()), cfg));
    }
}

/// When a fold ends with the upstream's response, each item that was held back is sent under the
/// index of the place that it takes in the output.
pub proof fn law_released_place(cfg: Config, st: FoldView, k: int)
    requires
        index_is_place(st),
        st.output.len() + st.round.buffer.len() <= i64::MAX,
        !goes_on(cfg, st),
        st.round.terminal is Some,
        0 <= k < st.round.buffer.len(),
    ensures
        ({
            let (end, step) = finish_round(cfg, st);
            let held = Seq::new(
                st.round.buffer.len(),
                |j: int|
                    released(
                        st.round.buffer[j],
                        (st.output.len() + j) as i64,
                        cfg.stream,
                    ),
            ).flatten();
            &&& step.events.drop_last() == numbered(held, st.seq)
            &&& end.output[st.output.len() + k] == st.round.buffer[k].item
            &&& end.output.len() == st.output.len() + st.round.buffer.len()
        }),
{
    let buffer = st.round.buffer;
    lemma_released_places(buffer, st.ds_oi, cfg.stream);
    assert(Seq::new(
        buffer.len(),
        |j: int| released(buffer[j], (st.ds_oi + j) as i64, cfg.stream),
    ) =~= Seq::new(
        buffer.len(),
        |j: int| released(buffer[j], (st.output.len() + j) as i64, cfg.stream),
    ));
    let evs = final_events(cfg, st);
    assert(numbered(evs, st.seq).drop_last() =~= numbered(evs.drop_last(), st.seq));
    assert(evs.drop_last() =~= released_all(buffer, st.ds_oi, cfg.stream));
}

/// The key of the reasoning item that is under way after an item of the upstream's stream, given
/// the one that was under way before it.
pub open spec fn under_way(st: FoldView, open: Option<Seq<char>>, item: ItemView) -> Option<
    Seq<char>,
> {
    match item {
        ItemView::Event(ev) => if st.round.terminal is Some {
            open
        } else if type_of(ev) == "response.output_item.added"@ && opt_str(
            field_or_empty(ev, "item"@).get("type"@),
        ) == Some("reasoning"@) {
            Some(index_key(ev))
        } else if type_of(ev) == "response.output_item.done"@ && open == Some(index_key(ev)) {
            None
        } else {
            open
        },
        ItemView::Done => open,
    }
}

/// Whether an item of the upstream's stream keeps the order of output items: each one comes under
/// an index of its own, reasoning begins only when no other reasoning is under way, is completed
/// once, and is complete before the response ends.
pub open spec fn orderly_item(st: FoldView, open: Option<Seq<char>>, item: ItemView) -> bool {
    match item {
        ItemView::Event(ev) => {
            let t = type_of(ev);
            let key = index_key(ev);
            let kinds = st.round.kinds;
            st.round.terminal is None ==> {
                &&& ends_response(t) ==> open is None
                &&& t == "response.output_item.added"@ ==> !kinds.contains_key(key)
                &&& t == "response.output_item.added"@ && opt_str(
                    field_or_empty(ev, "item"@).get("type"@),
                ) == Some("reasoning"@) ==> open is None
                &&& t == "response.output_item.done"@ && kinds.contains_key(key)
                    && kinds[key] is Reasoning ==> open == Some(key)
            }
        },
        ItemView::Done => true,
    }
}

/// The reasoning item that is under way after items of the upstream's stream.
pub open spec fn under_way_after(
    st: FoldView,
    open: Option<Seq<char>>,
    items: Seq<ItemView>,
) -> Option<Seq<char>>
    decreases items.len(),
{
    if items.len() == 0 {
        open
    } else {
        let front = items.drop_last();
        under_way(take_items(st, front).0, under_way_after(st, open, front), items.last())
    }
}

/// Whether items of the upstream's stream keep the order of output items.
pub open spec fn orderly_items(
    st: FoldView,
    open: Option<Seq<char>>,
    items: Seq<ItemView>,
) -> bool
    decreases items.len(),
{
    if items.len() == 0 {
        true
    } else {
        let front = items.drop_last();
        orderly_items(st, open, front) && orderly_item(
            take_items(st, front).0,
            under_way_after(st, open, front),
            items.last(),
        )
    }
}

/// The state in which a fold takes the items of an input, and these items.
pub open spec fn input_items(st: FoldView, input: InputView) -> (FoldView, Seq<ItemView>) {
    match (st.phase, input) {
        (Phase::Reading, InputView::Chunk(bytes)) => {
            let (parser, items) = sse_run(st.round.parser, bytes);
            (with_parser(st, parser), items)
        },
        (Phase::Reading, InputView::EndOfBody) => (
            st,
            at_most_one(flushed(st.round.parser.data)),
        ),
        _ => (st, Seq::empty()),
    }
}

/// The reasoning item that is under way after a run.
pub open spec fn under_way_in_run(cfg: Config, st: FoldView, inputs: Seq<InputView>) -> Option<
    Seq<char>,
>
    decreases inputs.len(),
{
    if inputs.len() == 0 {
        None
    } else {
        let (now, items) = input_items(fold_run(cfg, st, inputs.drop_last()).0, inputs.last());
        under_way_after(now, under_way_in_run(cfg, st, inputs.drop_last()), items)
    }
}

/// Whether the rounds of a run keep the order of output items.
pub open spec fn orderly_run(cfg: Config, st: FoldView, inputs: Seq<InputView>) -> bool
    decreases inputs.len(),
{
    if inputs.len() == 0 {
        true
    } else {
        let front = inputs.drop_last();
        let (now, items) = input_items(fold_run(cfg, st, front).0, inputs.last());
        orderly_run(cfg, st, front) && orderly_items(
            now,
            under_way_in_run(cfg, st, front),
            items,
        )
    }
}

/// Whether output indexes and places in the output agree: the item that is under way was sent
/// under the index of the place that it will take, and the next item gets the index of the place
/// behind it. No item is under way once the round has ended.
pub open spec fn in_place(st: FoldView, open: Option<Seq<char>>) -> bool {
    &&& st.ds_oi == nth_after(0, st.output.len() + if open is Some {
        1nat
    } else {
        0nat
    })
    &&& open matches Some(k) ==> st.round.kinds.contains_key(k) && st.round.kinds[k]
        == Kind::Reasoning(nth_after(0, st.output.len()))
    &&& st.round.terminal is Some ==> open is None
    &&& st.phase == Phase::Opening ==> open is None
}

proof fn lemma_in_place_item(st: FoldView, open: Option<Seq<char>>, item: ItemView)
    requires
        in_place(st, open),
        st.phase == Phase::Reading,
        orderly_item(st, open, item),
    ensures
        in_place(take_item(st, item).0, under_way(st, open, item)),
        take_item(st, item).0.phase == Phase::Reading,
{
    lemma_names();
    lemma_added_is_not_done();
    lemma_nth_after_add(0, st.output.len(), 1);
    if item is Event {
        lemma_end_names(type_of(item->Event_0));
    }
}

/// In a round that keeps the order of output items, output indexes and places in the output agree
/// after every item of its stream.
pub proof fn law_items_in_place(st: FoldView, open: Option<Seq<char>>, items: Seq<ItemView>)
    requires
        in_place(st, open),
        st.phase == Phase::Reading,
        orderly_items(st, open, items),
    ensures
        in_place(take_items(st, items).0, under_way_after(st, open, items)),
        take_items(st, items).0.phase == Phase::Reading,
    decreases items.len(),
{
    if items.len() > 0 {
        let front = items.drop_last();
        law_items_in_place(st, open, front);
        lemma_in_place_item(
            take_items(st, front).0,
            under_way_after(st, open, front),
            items.last(),
        );
    }
}

proof fn lemma_in_place_finish(cfg: Config, st: FoldView, open: Option<Seq<char>>)
    requires
        in_place(st, open),
        st.phase == Phase::Reading,
    ensures
        in_place(finish_round(cfg, st).0, open),
{
    lemma_nth_after_add(0, st.output.len(), 1);
    lemma_nth_after_add(0, st.output.len(), st.round.buffer.len());
}

proof fn lemma_in_place_step(
    cfg: Config,
    st: FoldView,
    open: Option<Seq<char>>,
    input: InputView,
)
    requires
        in_place(st, open),
        orderly_items(input_items(st, input).0, open, input_items(st, input).1),
    ensures
        in_place(
            fold_step(cfg, st, input).0,
            under_way_after(input_items(st, input).0, open, input_items(st, input).1),
        ),
{
    let (now, items) = input_items(st, input);
    match (st.phase, input) {
        (Phase::Reading, InputView::Chunk(bytes)) => {
            law_items_in_place(now, open, items);
            let mid = take_items(now, items).0;
            if mid.round.terminal is Some {
                lemma_in_place_finish(cfg, mid, under_way_after(now, open, items));
            }
        },
        (Phase::Reading, InputView::EndOfBody) => {
            law_items_in_place(now, open, items);
            lemma_in_place_finish(
                cfg,
                take_items(now, items).0,
                under_way_after(now, open, items),
            );
        },
        _ => {},
    }
}

proof fn lemma_in_place_run(
    cfg: Config,
    body: JsonView,
    request_id: Option<u64>,
    inputs: Seq<InputView>,
)
    requires
        orderly_run(cfg, fold_start(body, request_id), inputs),
    ensures
        ({
            let start = fold_start(body, request_id);
            in_place(
                fold_run(cfg, start, inputs).0,
                under_way_in_run(cfg, start, inputs),
            )
        }),
    decreases inputs.len(),
{
    let start = fold_start(body, request_id);
    if inputs.len() > 0 {
        let front = inputs.drop_last();
        lemma_in_place_run(cfg, body, request_id, front);
        lemma_in_place_step(
            cfg,
            fold_run(cfg, start, front).0,
            under_way_in_run(cfg, start, front),
            inputs.last(),
        );
    }
}

/// In every run whose rounds keep the order of output items, the next output index is the place
/// that the next item takes in the output, whenever no item is under way.
pub proof fn law_index_is_place(
    cfg: Config,
    body: JsonView,
    request_id: Option<u64>,
    inputs: Seq<InputView>,
)
    requires
        orderly_run(cfg, fold_start(body, request_id), inputs),
        under_way_in_run(cfg, fold_start(body, request_id), inputs) is None,
        fold_run(cfg, fold_start(body, request_id), inputs).0.output.len() < i64::MAX,
    ensures
        index_is_place(fold_run(cfg, fold_start(body, request_id), inputs).0),
{
    lemma_in_place_run(cfg, body, request_id, inputs);
    let st = fold_run(cfg, fold_start(body, request_id), inputs).0;
    lemma_counts_up(0, st.output.len());
}

/// In every run whose rounds keep the order of output items, a round ends with the next output
/// index being the place that the next item takes in the output: what was held back is then
/// released under the indexes of its places.
pub proof fn law_index_is_place_at_end(
    cfg: Config,
    body: JsonView,
    request_id: Option<u64>,
    inputs: Seq<InputView>,
    input: InputView,
)
    requires
        orderly_run(cfg, fold_start(body, request_id), inputs.push(input)),
        fold_run(cfg, fold_start(body, request_id), inputs).0.phase == Phase::Reading,
    ensures
        ({
            let (now, items) = input_items(
                fold_run(cfg, fold_start(body, request_id), inputs).0,
                input,
            );
            let mid = take_items(now, items).0;
            mid.round.terminal is Some && mid.output.len() < i64::MAX ==> index_is_place(mid)
        }),
{
    let start = fold_start(body, request_id);
    assert(inputs.push(input).drop_last() =~= inputs);
    lemma_in_place_run(cfg, body, request_id, inputs);
    let (now, items) = input_items(fold_run(cfg, start, inputs).0, input);
    law_items_in_place(now, under_way_in_run(cfg, start, inputs), items);
    let mid = take_items(now, items).0;
    if mid.output.len() < i64::MAX {
        lemma_counts_up(0, mid.output.len());
    }
}

} // verus!
