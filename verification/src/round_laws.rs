//! What holds of one round of a fold, told by what its stream carried.
use vstd::prelude::*;

use crate::answer::{all_placed, released, EntryView};
use crate::codex::law_payload_keeps_rest;
use crate::config::Config;
use crate::events::{ends_response, index_key, nth_after, numbered, opens_response, type_of};
use crate::json::{opt_get, JsonView};
use crate::laws::lemma_released_places;
use crate::model::{
    entry_place, final_events, finish_round, goes_on, items_of, marker, next_replay, released_all,
    request_input, take_event, take_item, take_items, FoldView, Kind, RoundView,
};
use crate::sse::ItemView;

verus! {

/// Whether an event is of a type.
pub open spec fn is_a(ev: JsonView, t: Seq<char>) -> bool {
    ev.get("type"@) == Some(JsonView::Text(t))
}

/// Whether an event opens the response.
pub open spec fn is_opening(ev: JsonView) -> bool {
    is_a(ev, "response.created"@) || is_a(ev, "response.in_progress"@)
}

/// Whether an event ends the response.
pub open spec fn is_ending(ev: JsonView) -> bool {
    is_a(ev, "response.completed"@) || is_a(ev, "response.failed"@) || is_a(
        ev,
        "response.incomplete"@,
    )
}

/// Whether an event tells that an output item begins.
pub open spec fn is_added(ev: JsonView) -> bool {
    is_a(ev, "response.output_item.added"@)
}

/// Whether an event tells that an output item is complete.
pub open spec fn is_done(ev: JsonView) -> bool {
    is_a(ev, "response.output_item.done"@)
}

/// The item that an event carries; an empty object, where it carries none.
pub open spec fn carried_item(ev: JsonView) -> JsonView {
    if ev.get("item"@) is Some {
        ev.get("item"@)->Some_0
    } else {
        JsonView::Object(Map::empty())
    }
}

/// Whether an event carries a reasoning item.
pub open spec fn carries_reasoning(ev: JsonView) -> bool {
    carried_item(ev).get("type"@) == Some(JsonView::Text("reasoning"@))
}

/// The names of event types are different names.
proof fn lemma_types()
    ensures
        "response.output_item.added"@ != "response.output_item.done"@,
        !opens_response("response.output_item.added"@),
        !opens_response("response.output_item.done"@),
        !ends_response("response.output_item.added"@),
        !ends_response("response.output_item.done"@),
        !opens_response("response.completed"@),
        !opens_response("response.failed"@),
        !opens_response("response.incomplete"@),
        !opens_response(""@),
        !ends_response(""@),
        ""@ != "response.output_item.added"@,
        ""@ != "response.output_item.done"@,
{
    reveal_strlit("");
    reveal_strlit("response.created");
    reveal_strlit("response.in_progress");
    reveal_strlit("response.completed");
    reveal_strlit("response.failed");
    reveal_strlit("response.incomplete");
    reveal_strlit("response.output_item.added");
    reveal_strlit("response.output_item.done");
    assert(""@.len() == 0);
    assert("response.created"@.len() == 16);
    assert("response.in_progress"@.len() == 20);
    assert("response.completed"@.len() == 18);
    assert("response.failed"@.len() == 15);
    assert("response.incomplete"@.len() == 19);
    assert("response.output_item.added"@.len() == 26);
    assert("response.output_item.done"@.len() == 25);
}

/// An event is of the type that its field `type` names, and of none where that is no text.
pub proof fn law_types(ev: JsonView)
    ensures
        ev.get("type"@) matches Some(JsonView::Text(t)) ==> type_of(ev) == t,
        !(ev.get("type"@) matches Some(JsonView::Text(_))) ==> type_of(ev).len() == 0,
        opens_response(type_of(ev)) <==> is_opening(ev),
        ends_response(type_of(ev)) <==> is_ending(ev),
        type_of(ev) == "response.output_item.added"@ <==> is_added(ev),
        type_of(ev) == "response.output_item.done"@ <==> is_done(ev),
{
    lemma_types();
    reveal_strlit("");
    assert(""@.len() == 0);
}

/// Whether no two entries are held back under one key.
pub open spec fn own_keys(buffer: Seq<EntryView>) -> bool {
    forall|i: int, j: int|
        0 <= i < j < buffer.len() ==> (#[trigger] buffer[i]).oi != (#[trigger] buffer[j]).oi
}

proof fn lemma_entry_place(buffer: Seq<EntryView>, key: Seq<char>)
    ensures
        entry_place(buffer, key) <= buffer.len(),
        forall|j: int|
            0 <= j < entry_place(buffer, key) && j < buffer.len()
                ==> (#[trigger] buffer[j]).oi != key,
        entry_place(buffer, key) < buffer.len() ==> buffer[
            entry_place(buffer, key) as int
        ].oi == key,
    decreases buffer.len(),
{
    if buffer.len() > 0 && buffer[0].oi != key {
        let rest = buffer.drop_first();
        lemma_entry_place(rest, key);
        let p = entry_place(buffer, key);
        assert forall|j: int| 0 <= j < p && j < buffer.len() implies (#[trigger] buffer[j]).oi
            != key by {
            if j > 0 {
                assert(rest[j - 1] == buffer[j]);
            }
        }
        if p < buffer.len() {
            assert(rest[p - 1] == buffer[p as int]);
        }
    }
}

/// An event of an item that is held back joins the events of that item, and of no other one; the
/// event that completes the item tells what the item is.
pub proof fn law_held_event(st: FoldView, ev: JsonView, i: int)
    requires
        !is_opening(ev),
        !is_ending(ev),
        !is_added(ev),
        st.round.kinds.contains_key(index_key(ev)),
        st.round.kinds[index_key(ev)] == Kind::Buffered,
        own_keys(st.round.buffer),
        0 <= i < st.round.buffer.len(),
    ensures
        ({
            let (end, sent) = take_event(st, ev);
            let before = st.round.buffer[i];
            let after = end.round.buffer[i];
            &&& sent.len() == 0
            &&& end.round.buffer.len() == st.round.buffer.len()
            &&& before.oi != index_key(ev) ==> after == before
            &&& before.oi == index_key(ev) ==> {
                &&& after.oi == before.oi
                &&& after.itype == before.itype
                &&& after.events == before.events.push(ev)
                &&& after.item == if is_done(ev) && ev.get("item"@) is Some {
                    ev.get("item"@)->Some_0
                } else {
                    before.item
                }
            }
            &&& end.round.reasoning == st.round.reasoning
            &&& end.output == st.output
        }),
{
    law_types(ev);
    lemma_entry_place(st.round.buffer, index_key(ev));
}

/// An item that is no reasoning is held back behind all that are held back, with the event that
/// began it.
pub proof fn law_held_item(st: FoldView, ev: JsonView)
    requires
        is_added(ev),
        !carries_reasoning(ev),
    ensures
        ({
            let (end, sent) = take_event(st, ev);
            let entry = end.round.buffer.last();
            &&& sent.len() == 0
            &&& end.round.buffer.len() == st.round.buffer.len() + 1
            &&& end.round.buffer.drop_last() == st.round.buffer
            &&& entry.oi == index_key(ev)
            &&& entry.events == seq![ev]
            &&& entry.item == carried_item(ev)
            &&& carried_item(ev).get("type"@) matches Some(JsonView::Text(t)) ==> entry.itype == t
            &&& !(carried_item(ev).get("type"@) matches Some(JsonView::Text(_)))
                ==> entry.itype.len() == 0
            &&& end.round.kinds == st.round.kinds.insert(index_key(ev), Kind::Buffered)
            &&& end.round.reasoning == st.round.reasoning
            &&& end.output == st.output
            &&& end.ds_oi == st.ds_oi
        }),
{
    law_types(ev);
    lemma_types();
    reveal_strlit("");
    assert(""@.len() == 0);
    assert(take_event(st, ev).0.round.buffer.drop_last() =~= st.round.buffer);
}

/// A reasoning item that begins is passed on, and is not reasoning that is complete.
pub proof fn law_reasoning_begins(st: FoldView, ev: JsonView)
    requires
        is_added(ev),
        carries_reasoning(ev),
    ensures
        ({
            let (end, sent) = take_event(st, ev);
            &&& sent == numbered(
                seq![ev.set("output_index"@, JsonView::Int(st.ds_oi as int))],
                st.seq,
            )
            &&& end.round.kinds == st.round.kinds.insert(
                index_key(ev),
                Kind::Reasoning(st.ds_oi),
            )
            &&& end.ds_oi == nth_after(st.ds_oi, 1)
            &&& end.round.buffer == st.round.buffer
            &&& end.round.reasoning == st.round.reasoning
            &&& end.output == st.output
        }),
{
    law_types(ev);
    lemma_types();
}

/// An event of a reasoning item adds to the reasoning of the round, and to the output, the item
/// that it completes; it takes nothing from them.
pub proof fn law_reasoning_completes(st: FoldView, ev: JsonView)
    requires
        !is_opening(ev),
        !is_ending(ev),
        !is_added(ev),
        st.round.kinds.contains_key(index_key(ev)),
        st.round.kinds[index_key(ev)] is Reasoning,
    ensures
        ({
            let (end, sent) = take_event(st, ev);
            let more = if is_done(ev) {
                seq![carried_item(ev)]
            } else {
                Seq::empty()
            };
            &&& end.round.reasoning == st.round.reasoning + more
            &&& end.output == st.output + more
            &&& end.round.buffer == st.round.buffer
            &&& end.round.kinds == st.round.kinds
            &&& end.ds_oi == st.ds_oi
            &&& sent == numbered(
                seq![
                    ev.set(
                        "output_index"@,
                        JsonView::Int(st.round.kinds[index_key(ev)]->Reasoning_0 as int),
                    ),
                ],
                st.seq,
            )
        }),
{
    law_types(ev);
}

/// What an event does to what it does not speak of: nothing.
pub proof fn law_event_frame(st: FoldView, ev: JsonView)
    ensures
        ({
            let end = take_event(st, ev).0;
            &&& end.body == st.body
            &&& end.rid == st.rid
            &&& end.phase == st.phase
            &&& end.round_no == st.round_no
            &&& end.saw_done == st.saw_done
            &&& end.total == st.total
            &&& end.first == st.first
            &&& end.replay == st.replay
            &&& end.rounds == st.rounds
            &&& end.round.parser == st.round.parser
            &&& end.round.terminal == if is_ending(ev) {
                Some(ev)
            } else {
                st.round.terminal
            }
            &&& !is_a(ev, "response.created"@) ==> end.base == st.base
        }),
{
    law_types(ev);
    lemma_types();
}

/// An event that opens the response is passed on in the first round, and only there; the event
/// that creates the response gives the response that the client gets in the end.
pub proof fn law_opening(st: FoldView, ev: JsonView)
    requires
        is_opening(ev),
    ensures
        ({
            let (end, sent) = take_event(st, ev);
            &&& st.round_no == 1 ==> sent == numbered(seq![ev], st.seq)
            &&& st.round_no != 1 ==> sent.len() == 0 && end == st
            &&& st.round_no == 1 && is_a(ev, "response.created"@) ==> end.base == Some(
                if ev.get("response"@) is Some {
                    ev.get("response"@)->Some_0
                } else {
                    JsonView::Object(Map::empty())
                },
            )
            &&& end.round == st.round
            &&& end.output == st.output
            &&& end.ds_oi == st.ds_oi
        }),
{
    law_types(ev);
}

/// An event of an item that the round did not begin is passed on as it is.
pub proof fn law_unknown_passes(st: FoldView, ev: JsonView)
    requires
        !is_opening(ev),
        !is_ending(ev),
        !is_added(ev),
        !st.round.kinds.contains_key(index_key(ev)),
    ensures
        take_event(st, ev).1 == numbered(seq![ev], st.seq),
        take_event(st, ev).0.round == st.round,
        take_event(st, ev).0.output == st.output,
        take_event(st, ev).0.ds_oi == st.ds_oi,
{
    law_types(ev);
}

/// An event that ends the response sends nothing yet.
pub proof fn law_ending(st: FoldView, ev: JsonView)
    requires
        is_ending(ev),
    ensures
        take_event(st, ev).1.len() == 0,
        take_event(st, ev).0 == (FoldView {
            round: RoundView { terminal: Some(ev), ..st.round },
            ..st
        }),
{
    law_types(ev);
    lemma_types();
}

/// The end mark is noticed while the round has not ended, and what comes after the round's end
/// does nothing.
pub proof fn law_end_mark(st: FoldView, item: ItemView)
    ensures
        st.round.terminal is Some ==> take_item(st, item).0 == st && take_item(st, item).1.len()
            == 0,
        st.round.terminal is None && item is Done ==> take_item(st, item).0 == (FoldView {
            saw_done: true,
            ..st
        }) && take_item(st, item).1.len() == 0,
        st.round.terminal is None && item is Event ==> take_item(st, item) == take_event(
            st,
            item->Event_0,
        ),
{
}

/// Whether an item of a stream is an event of an output item under a key.
pub open spec fn speaks_of(item: ItemView, key: Seq<char>) -> bool {
    item matches ItemView::Event(ev) && !is_opening(ev) && index_key(ev) == key
}

/// The events of a stream that speak of the output item under a key, in the order in which they
/// came.
pub open spec fn heard(items: Seq<ItemView>, key: Seq<char>) -> Seq<JsonView>
    decreases items.len(),
{
    if items.len() == 0 {
        Seq::empty()
    } else if speaks_of(items.last(), key) {
        heard(items.drop_last(), key).push(items.last()->Event_0)
    } else {
        heard(items.drop_last(), key)
    }
}

/// Whether an item of a stream tells that an output item begins.
pub open spec fn begins(item: ItemView) -> bool {
    item matches ItemView::Event(ev) && is_added(ev)
}

/// Whether each output item of a stream has an index of its own, and no event ends the response.
pub open spec fn well_told(items: Seq<ItemView>) -> bool
    decreases items.len(),
{
    items.len() == 0 || {
        &&& well_told(items.drop_last())
        &&& begins(items.last()) ==> heard(
            items.drop_last(),
            index_key(items.last()->Event_0),
        ).len() == 0
        &&& items.last() is Event ==> !is_ending(items.last()->Event_0)
    }
}

/// Whether a stream told that an output item under a key began, and that it is reasoning.
pub open spec fn began(items: Seq<ItemView>, key: Seq<char>) -> Option<bool>
    decreases items.len(),
{
    if items.len() == 0 {
        None
    } else if begins(items.last()) && speaks_of(items.last(), key) {
        Some(carries_reasoning(items.last()->Event_0))
    } else {
        began(items.drop_last(), key)
    }
}

/// The keys of the output items that are no reasoning, in the order in which they began.
pub open spec fn held_keys(items: Seq<ItemView>) -> Seq<Seq<char>>
    decreases items.len(),
{
    if items.len() == 0 {
        Seq::empty()
    } else if begins(items.last()) && !carries_reasoning(items.last()->Event_0) {
        held_keys(items.drop_last()).push(index_key(items.last()->Event_0))
    } else {
        held_keys(items.drop_last())
    }
}

/// The output item under a key, as the stream told it last.
pub open spec fn told_item(items: Seq<ItemView>, key: Seq<char>) -> JsonView
    decreases items.len(),
{
    if items.len() == 0 {
        JsonView::Null
    } else {
        let item = items.last();
        if speaks_of(item, key) && (is_added(item->Event_0) || (is_done(item->Event_0)
            && item->Event_0.get("item"@) is Some)) {
            carried_item(item->Event_0)
        } else {
            told_item(items.drop_last(), key)
        }
    }
}

/// The reasoning items that a stream told to be complete, in the order in which they came.
pub open spec fn complete_reasoning(items: Seq<ItemView>) -> Seq<JsonView>
    decreases items.len(),
{
    if items.len() == 0 {
        Seq::empty()
    } else {
        let front = items.drop_last();
        let item = items.last();
        if item is Event && is_done(item->Event_0) && began(front, index_key(item->Event_0))
            == Some(true) {
            complete_reasoning(front).push(carried_item(item->Event_0))
        } else {
            complete_reasoning(front)
        }
    }
}

/// Whether a round has just begun.
pub open spec fn fresh(st: FoldView) -> bool {
    &&& st.round.kinds == Map::<Seq<char>, Kind>::empty()
    &&& st.round.buffer.len() == 0
    &&& st.round.reasoning.len() == 0
    &&& st.round.terminal is None
}

/// Whether a round's state is what its stream told.
spec fn told_so_far(start: FoldView, end: FoldView, items: Seq<ItemView>) -> bool {
    &&& end.round.terminal is None
    &&& own_keys(end.round.buffer)
    &&& end.round.buffer.len() == held_keys(items).len()
    &&& forall|i: int|
        0 <= i < end.round.buffer.len() ==> {
            let e = #[trigger] end.round.buffer[i];
            &&& e.oi == held_keys(items)[i]
            &&& e.events == heard(items, e.oi)
            &&& e.item == told_item(items, e.oi)
            &&& began(items, e.oi) == Some(false)
        }
    &&& forall|k: Seq<char>| #[trigger]
        end.round.kinds.contains_key(k) <==> began(items, k) is Some
    &&& forall|k: Seq<char>| #[trigger]
        end.round.kinds.contains_key(k) ==> (end.round.kinds[k] is Reasoning) == (began(items, k)
            == Some(true))
    &&& forall|k: Seq<char>| #[trigger]
        end.round.kinds.contains_key(k) ==> heard(items, k).len() > 0
    &&& end.round.reasoning == complete_reasoning(items)
    &&& end.output == start.output + complete_reasoning(items)
    &&& end.replay == start.replay
    &&& end.body == start.body
}

proof fn lemma_told(st: FoldView, items: Seq<ItemView>)
    requires
        fresh(st),
        well_told(items),
    ensures
        told_so_far(st, take_items(st, items).0, items),
    decreases items.len(),
{
    if items.len() == 0 {
        assert(st.round.reasoning =~= complete_reasoning(items));
        assert(st.output + complete_reasoning(items) =~= st.output);
    } else {
        let front = items.drop_last();
        let item = items.last();
        lemma_told(st, front);
        let mid = take_items(st, front).0;
        let end = take_items(st, items).0;
        if item is Event {
            let ev = item->Event_0;
            let key = index_key(ev);
            law_types(ev);
            lemma_types();
            law_event_frame(mid, ev);
            if is_opening(ev) {
                law_opening(mid, ev);
                lemma_told_same(st, mid, end, front, items);
            } else if is_added(ev) {
                lemma_told_added(st, mid, ev, front, items);
            } else if mid.round.kinds.contains_key(key) {
                if mid.round.kinds[key] is Reasoning {
                    law_reasoning_completes(mid, ev);
                    assert(end.output =~= st.output + complete_reasoning(items));
                    assert(end.round.reasoning =~= complete_reasoning(items));
                    assert forall|i: int| 0 <= i < end.round.buffer.len() implies ({
                        let e = #[trigger] end.round.buffer[i];
                        &&& e.oi == held_keys(items)[i]
                        &&& e.events == heard(items, e.oi)
                        &&& e.item == told_item(items, e.oi)
                        &&& began(items, e.oi) == Some(false)
                    }) by {
                        assert(began(front, mid.round.buffer[i].oi) == Some(false));
                        assert(mid.round.buffer[i].oi != key);
                    }
                } else {
                    lemma_told_held(st, mid, ev, front, items);
                }
            } else {
                law_unknown_passes(mid, ev);
                assert forall|i: int| 0 <= i < end.round.buffer.len() implies ({
                    let e = #[trigger] end.round.buffer[i];
                    &&& e.oi == held_keys(items)[i]
                    &&& e.events == heard(items, e.oi)
                    &&& e.item == told_item(items, e.oi)
                    &&& began(items, e.oi) == Some(false)
                }) by {
                    assert(began(front, mid.round.buffer[i].oi) == Some(false));
                    assert(mid.round.kinds.contains_key(mid.round.buffer[i].oi));
                }
            }
        } else {
            lemma_told_same(st, mid, end, front, items);
        }
    }
}

/// An item of the stream that speaks of no output item changes nothing that the stream told.
proof fn lemma_told_same(
    st: FoldView,
    mid: FoldView,
    end: FoldView,
    front: Seq<ItemView>,
    items: Seq<ItemView>,
)
    requires
        items.len() > 0,
        front == items.drop_last(),
        told_so_far(st, mid, front),
        end.round == mid.round,
        end.output == mid.output,
        end.replay == mid.replay,
        end.body == mid.body,
        items.last() is Done || is_opening(items.last()->Event_0),
    ensures
        told_so_far(st, end, items),
{
    lemma_types();
    if items.last() is Event {
        law_types(items.last()->Event_0);
    }
    assert forall|k: Seq<char>| heard(items, k) == heard(front, k) by {}
    assert forall|k: Seq<char>| began(items, k) == began(front, k) by {}
    assert forall|k: Seq<char>| told_item(items, k) == told_item(front, k) by {}
}

proof fn lemma_told_added(
    st: FoldView,
    mid: FoldView,
    ev: JsonView,
    front: Seq<ItemView>,
    items: Seq<ItemView>,
)
    requires
        items.len() > 0,
        front == items.drop_last(),
        items.last() == ItemView::Event(ev),
        well_told(items),
        told_so_far(st, mid, front),
        is_added(ev),
    ensures
        told_so_far(st, take_event(mid, ev).0, items),
{
    let end = take_event(mid, ev).0;
    let key = index_key(ev);
    law_types(ev);
    lemma_types();
    law_event_frame(mid, ev);
    assert(begins(items.last()));
    assert(heard(front, key).len() == 0);
    assert(!mid.round.kinds.contains_key(key));
    assert forall|i: int| 0 <= i < mid.round.buffer.len() implies (
    #[trigger] mid.round.buffer[i]).oi != key by {
        assert(began(front, mid.round.buffer[i].oi) == Some(false));
        assert(mid.round.kinds.contains_key(mid.round.buffer[i].oi));
    }
    assert(heard(items, key) =~= seq![ev]);
    if carries_reasoning(ev) {
        law_reasoning_begins(mid, ev);
    } else {
        law_held_item(mid, ev);
        assert(held_keys(items) == held_keys(front).push(key));
        assert forall|i: int| 0 <= i < mid.round.buffer.len() implies (
        #[trigger] end.round.buffer[i]) == mid.round.buffer[i] by {
            assert(end.round.buffer.drop_last()[i] == end.round.buffer[i]);
        }
    }
    assert forall|i: int| 0 <= i < end.round.buffer.len() implies ({
        let e = #[trigger] end.round.buffer[i];
        &&& e.oi == held_keys(items)[i]
        &&& e.events == heard(items, e.oi)
        &&& e.item == told_item(items, e.oi)
        &&& began(items, e.oi) == Some(false)
    }) by {
        if i < mid.round.buffer.len() {
            assert(end.round.buffer[i] == mid.round.buffer[i]);
            assert(mid.round.buffer[i].oi != key);
        }
    }
    assert(end.round.kinds.contains_key(key));
}

proof fn lemma_told_held(
    st: FoldView,
    mid: FoldView,
    ev: JsonView,
    front: Seq<ItemView>,
    items: Seq<ItemView>,
)
    requires
        items.len() > 0,
        front == items.drop_last(),
        items.last() == ItemView::Event(ev),
        told_so_far(st, mid, front),
        !is_opening(ev),
        !is_ending(ev),
        !is_added(ev),
        mid.round.kinds.contains_key(index_key(ev)),
        mid.round.kinds[index_key(ev)] == Kind::Buffered,
    ensures
        told_so_far(st, take_event(mid, ev).0, items),
{
    let end = take_event(mid, ev).0;
    law_types(ev);
    law_event_frame(mid, ev);
    assert(began(front, index_key(ev)) == Some(false));
    lemma_held_is_entry(front, index_key(ev));
    let p = choose|p: int| 0 <= p < held_keys(front).len() && #[trigger] held_keys(front)[p]
        == index_key(ev);
    assert(mid.round.buffer[p].oi == index_key(ev));
    law_held_event(mid, ev, p);
    assert(end.round.kinds == mid.round.kinds);
    assert forall|i: int| 0 <= i < end.round.buffer.len() implies ({
        let e = #[trigger] end.round.buffer[i];
        &&& e.oi == held_keys(items)[i]
        &&& e.events == heard(items, e.oi)
        &&& e.item == told_item(items, e.oi)
        &&& began(items, e.oi) == Some(false)
        &&& e.oi == mid.round.buffer[i].oi
    }) by {
        law_held_event(mid, ev, i);
        assert(mid.round.buffer[i].oi == held_keys(front)[i]);
    }
    assert(own_keys(end.round.buffer)) by {
        assert forall|i: int, j: int| 0 <= i < j < end.round.buffer.len() implies (
        #[trigger] end.round.buffer[i]).oi != (#[trigger] end.round.buffer[j]).oi by {
            assert(end.round.buffer[i].oi == mid.round.buffer[i].oi);
            assert(end.round.buffer[j].oi == mid.round.buffer[j].oi);
        }
    }
}

proof fn lemma_held_is_entry(items: Seq<ItemView>, key: Seq<char>)
    requires
        began(items, key) == Some(false),
    ensures
        exists|p: int| 0 <= p < held_keys(items).len() && #[trigger] held_keys(items)[p] == key,
    decreases items.len(),
{
    if items.len() > 0 {
        let front = items.drop_last();
        if begins(items.last()) && speaks_of(items.last(), key) {
            assert(held_keys(items)[held_keys(front).len() as int] == key);
        } else {
            lemma_held_is_entry(front, key);
            let p = choose|p: int| 0 <= p < held_keys(front).len() && #[trigger] held_keys(
                front,
            )[p] == key;
            assert(held_keys(items)[p] == key);
        }
    }
}

/// What a round holds back is, item by item in the order in which the items began, exactly the
/// events that carried the item's output index, in their order, and the item as its own events
/// told it last.
pub proof fn law_round_holds(st: FoldView, items: Seq<ItemView>, i: int)
    requires
        fresh(st),
        well_told(items),
        0 <= i < held_keys(items).len(),
    ensures
        ({
            let buffer = take_items(st, items).0.round.buffer;
            let key = held_keys(items)[i];
            &&& buffer.len() == held_keys(items).len()
            &&& buffer[i].oi == key
            &&& buffer[i].events == heard(items, key)
            &&& buffer[i].item == told_item(items, key)
        }),
{
    lemma_told(st, items);
}

/// The reasoning of a round is all reasoning that its stream told to be complete, in the order in
/// which it came, and all of it is output.
pub proof fn law_round_reasoning(st: FoldView, items: Seq<ItemView>)
    requires
        fresh(st),
        well_told(items),
    ensures
        take_items(st, items).0.round.reasoning == complete_reasoning(items),
        take_items(st, items).0.output == st.output + complete_reasoning(items),
{
    lemma_told(st, items);
}

/// When a round is continued, the request for the next one holds the input of the request, what
/// earlier rounds added to it, all reasoning that the round's stream told to be complete, in its
/// order, and what asks to go on.
pub proof fn law_continued_input(
    cfg: Config,
    st: FoldView,
    items: Seq<ItemView>,
    ending: JsonView,
    input: Seq<JsonView>,
)
    requires
        fresh(st),
        well_told(items),
        is_ending(ending),
        st.body.get("input"@) == Some(JsonView::Array(input)),
        goes_on(cfg, take_items(st, items.push(ItemView::Event(ending))).0),
    ensures
        ({
            let mid = take_items(st, items.push(ItemView::Event(ending))).0;
            opt_get(finish_round(cfg, mid).1.open, "input"@) == Some(
                JsonView::Array(
                    input + (st.replay + complete_reasoning(items) + marker(cfg, mid)),
                ),
            )
        }),
{
    lemma_told(st, items);
    assert(items.push(ItemView::Event(ending)).drop_last() =~= items);
    let before = take_items(st, items).0;
    let mid = take_items(st, items.push(ItemView::Event(ending))).0;
    law_ending(before, ending);
    law_event_frame(before, ending);
    law_payload_keeps_rest(
        mid.body,
        request_input(mid.body) + next_replay(cfg, mid),
        cfg.stream.force_include_encrypted,
        true,
        "input"@,
    );
    assert(mid.round.reasoning == complete_reasoning(items));
    assert(finish_round(cfg, mid).0.replay == st.replay + complete_reasoning(items) + marker(
        cfg,
        mid,
    ));
}

/// When a fold ends with a round, each item that was held back is released with exactly the events
/// that carried its output index upstream, in their order, one item after the other; and the
/// output holds each item as its own events told it last, behind the reasoning of the round.
pub proof fn law_round_released(
    cfg: Config,
    st: FoldView,
    items: Seq<ItemView>,
    ending: JsonView,
    k: int,
)
    requires
        fresh(st),
        well_told(items),
        is_ending(ending),
        !goes_on(cfg, take_items(st, items.push(ItemView::Event(ending))).0),
        take_items(st, items).0.ds_oi + held_keys(items).len() <= i64::MAX,
        0 <= k < held_keys(items).len(),
    ensures
        ({
            let mid = take_items(st, items).0;
            let keys = held_keys(items);
            let (end, step) = finish_round(
                cfg,
                take_items(st, items.push(ItemView::Event(ending))).0,
            );
            let held = Seq::new(
                keys.len(),
                |j: int| released(mid.round.buffer[j], (mid.ds_oi + j) as i64, cfg.stream),
            );
            &&& step.events.drop_last() == numbered(held.flatten(), mid.seq)
            &&& mid.round.buffer[k].events == heard(items, keys[k])
            &&& !cfg.stream.rechunk_final_answer ==> held[k] == all_placed(
                heard(items, keys[k]),
                (mid.ds_oi + k) as i64,
            )
            &&& end.output.len() == st.output.len() + complete_reasoning(items).len() + keys.len()
            &&& end.output.take(end.output.len() - keys.len()) == st.output + complete_reasoning(
                items,
            )
            &&& end.output[end.output.len() - keys.len() + k] == told_item(items, keys[k])
        }),
{
    lemma_told(st, items);
    assert(items.push(ItemView::Event(ending)).drop_last() =~= items);
    let mid = take_items(st, items).0;
    let now = take_items(st, items.push(ItemView::Event(ending))).0;
    law_ending(mid, ending);
    let buffer = mid.round.buffer;
    let keys = held_keys(items);
    assert(now.round.buffer == buffer);
    assert(buffer[k].oi == keys[k]);
    lemma_released_places(buffer, mid.ds_oi, cfg.stream);
    let held = Seq::new(
        keys.len(),
        |j: int| released(buffer[j], (mid.ds_oi + j) as i64, cfg.stream),
    );
    assert(held =~= Seq::new(
        buffer.len(),
        |j: int| released(buffer[j], (mid.ds_oi + j) as i64, cfg.stream),
    ));
    let (end, step) = finish_round(cfg, now);
    let all = final_events(cfg, now);
    assert(all.drop_last() =~= released_all(buffer, mid.ds_oi, cfg.stream));
    assert(numbered(all, now.seq).drop_last() =~= numbered(all.drop_last(), now.seq));
    assert(held[k] =~= released(buffer[k], (mid.ds_oi + k) as i64, cfg.stream));
    if !cfg.stream.rechunk_final_answer {
        assert(held[k] =~= all_placed(buffer[k].events, (mid.ds_oi + k) as i64));
    }
    assert(end.output == mid.output + items_of(buffer));
    assert(items_of(buffer)[k] == buffer[k].item);
    assert(end.output.take(end.output.len() - keys.len()) =~= mid.output);
}

/// Where more than one item is held back under a key, an event under that key joins the first of
/// them; all others stay as they are.
pub proof fn law_held_first(st: FoldView, ev: JsonView, i: int)
    requires
        !is_opening(ev),
        !is_ending(ev),
        !is_added(ev),
        st.round.kinds.contains_key(index_key(ev)),
        st.round.kinds[index_key(ev)] == Kind::Buffered,
        0 <= i < st.round.buffer.len(),
    ensures
        ({
            let before = st.round.buffer;
            let after = take_event(st, ev).0.round.buffer;
            let first = before[i].oi == index_key(ev) && forall|j: int|
                0 <= j < i ==> (#[trigger] before[j]).oi != index_key(ev);
            &&& after.len() == before.len()
            &&& first ==> after[i].events == before[i].events.push(ev) && after[i].oi
                == before[i].oi && after[i].itype == before[i].itype
            &&& !first ==> after[i] == before[i]
        }),
{
    law_types(ev);
    lemma_entry_place(st.round.buffer, index_key(ev));
}

} // verus!
