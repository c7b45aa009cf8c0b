//! The events of a stream: their types, and the numbers that they carry.
use vstd::prelude::*;

use crate::json::{lemma_views_push, opt_str, opt_view, views, Json, JsonView};
use crate::text::same_text;
use crate::value::json_text;

verus! {

/// The type of an event; empty, where it has none.
pub open spec fn type_of(ev: JsonView) -> Seq<char> {
    match opt_str(ev.get("type"@)) {
        Some(t) => t,
        None => ""@,
    }
}

pub fn ev_type(ev: &Json) -> (r: &str)
    ensures
        r@ == type_of(ev@),
{
    match ev.get("type") {
        Some(t) => match t.as_str() {
            Some(s) => s,
            None => "",
        },
        None => "",
    }
}

/// Whether events of this type end a response.
pub open spec fn ends_response(t: Seq<char>) -> bool {
    t == "response.completed"@ || t == "response.failed"@ || t == "response.incomplete"@
}

pub fn is_terminal(t: &str) -> (r: bool)
    ensures
        r == ends_response(t@),
{
    same_text(t, "response.completed") || same_text(t, "response.failed") || same_text(
        t,
        "response.incomplete",
    )
}

/// Whether events of this type open a response.
pub open spec fn opens_response(t: Seq<char>) -> bool {
    t == "response.created"@ || t == "response.in_progress"@
}

/// What an upstream tells the items of one response apart by: the text of the output index.
pub open spec fn index_key(ev: JsonView) -> Seq<char> {
    match ev.get("output_index"@) {
        Some(v) => json_text(v),
        None => ""@,
    }
}

pub fn output_key(ev: &Json) -> (r: String)
    ensures
        r@ == index_key(ev@),
{
    match ev.get("output_index") {
        Some(v) => v.print(),
        None => "".to_owned(),
    }
}

/// Sets a number in an event, where the event is an object.
pub fn set_i64(ev: &mut Json, key: &str, value: i64)
    ensures
        final(ev)@ == old(ev)@.set(key@, JsonView::Int(value as int)),
{
    ev.set(key, Json::Int(value));
}

/// The `k`-th number after `n`; after the last one the numbers wrap around.
pub open spec fn nth_after(n: i64, k: nat) -> i64
    decreases k,
{
    if k == 0 {
        n
    } else {
        nth_after(n, (k - 1) as nat).wrapping_add(1)
    }
}

/// Numbers that do not wrap around count up one by one.
pub proof fn lemma_counts_up(n: i64, k: nat)
    requires
        n + k <= i64::MAX,
    ensures
        nth_after(n, k) == n + k,
    decreases k,
{
    if k > 0 {
        lemma_counts_up(n, (k - 1) as nat);
    }
}

pub proof fn lemma_nth_after_add(n: i64, a: nat, b: nat)
    ensures
        nth_after(nth_after(n, a), b) == nth_after(n, a + b),
    decreases b,
{
    if b > 0 {
        lemma_nth_after_add(n, a, (b - 1) as nat);
        assert((a + b - 1) as nat == a + (b - 1) as nat);
    }
}

/// An event with its place in the stream.
pub open spec fn with_number(ev: JsonView, n: i64) -> JsonView {
    ev.set("sequence_number"@, JsonView::Int(n as int))
}

/// Events with their places in a stream, counted from `n`.
pub open spec fn numbered(evs: Seq<JsonView>, n: i64) -> Seq<JsonView> {
    Seq::new(evs.len(), |k: int| with_number(evs[k], nth_after(n, k as nat)))
}

pub proof fn lemma_numbered_push(evs: Seq<JsonView>, ev: JsonView, n: i64)
    ensures
        numbered(evs.push(ev), n) == numbered(evs, n).push(
            with_number(ev, nth_after(n, evs.len())),
        ),
{
    assert(numbered(evs.push(ev), n) =~= numbered(evs, n).push(
        with_number(ev, nth_after(n, evs.len())),
    ));
}

pub proof fn lemma_numbered_concat(a: Seq<JsonView>, b: Seq<JsonView>, n: i64)
    ensures
        numbered(a + b, n) == numbered(a, n) + numbered(b, nth_after(n, a.len())),
{
    let left = numbered(a + b, n);
    let right = numbered(a, n) + numbered(b, nth_after(n, a.len()));
    assert forall|k: int| 0 <= k < left.len() implies left[k] == right[k] by {
        if k >= a.len() {
            lemma_nth_after_add(n, a.len(), (k - a.len()) as nat);
        }
    }
    assert(left =~= right);
}

/// The next number of a stream.
pub struct Counter {
    pub n: i64,
}

impl Counter {
    /// Gives the number and counts on; after the last one it wraps around.
    pub fn next(&mut self) -> (r: i64)
        ensures
            r == old(self).n,
            final(self).n == nth_after(old(self).n, 1),
    {
        let n = self.n;
        self.n = n.wrapping_add(1);
        assert(nth_after(n, 1) == nth_after(n, 0).wrapping_add(1));
        n
    }
}

impl Default for Counter {
    fn default() -> (r: Self)
        ensures
            r.n == 0,
    {
        Counter { n: 0 }
    }
}

/// An event that stands at the output index `oi` of the response, where it has one at all.
pub open spec fn placed(ev: JsonView, oi: i64) -> JsonView {
    if ev.get("output_index"@) is Some {
        ev.set("output_index"@, JsonView::Int(oi as int))
    } else {
        ev
    }
}

/// Appends an event with the next number of the stream.
pub fn push_numbered(out: &mut Vec<Json>, ev: Json, seq: &mut Counter)
    ensures
        views(final(out)@) == views(old(out)@) + numbered(seq![ev@], old(seq).n),
        final(seq).n == nth_after(old(seq).n, 1),
{
    let mut ev = ev;
    let ghost first = ev@;
    let ghost before = out@;
    set_i64(&mut ev, "sequence_number", seq.next());
    proof {
        lemma_views_push(before, ev);
        assert(numbered(seq![first], old(seq).n) =~= seq![ev@]);
        assert(views(before.push(ev)) =~= views(before) + seq![ev@]);
    }
    out.push(ev);
}

/// A copy of an event that stands at the output index `oi`.
pub fn place(ev: &Json, oi: i64) -> (r: Json)
    ensures
        r@ == placed(ev@, oi),
{
    let mut ev = ev.clone();
    if ev.get("output_index").is_some() {
        set_i64(&mut ev, "output_index", oi);
    }
    ev
}

/// A field of an event, or an empty object.
pub open spec fn field_or_empty(v: JsonView, key: Seq<char>) -> JsonView {
    match v.get(key) {
        Some(f) => f,
        None => JsonView::Object(Map::empty()),
    }
}

pub fn clone_or_empty(v: Option<&Json>) -> (r: Json)
    ensures
        r@ == (match opt_view(v) {
            Some(f) => f,
            None => JsonView::Object(Map::empty()),
        }),
{
    match v {
        Some(f) => f.clone(),
        None => Json::object(),
    }
}

/// An event that is placed keeps all its fields but its output index; that becomes the place,
/// where the event has one.
pub proof fn law_placed(ev: JsonView, oi: i64, key: Seq<char>)
    ensures
        key != "output_index"@ ==> placed(ev, oi).get(key) == ev.get(key),
        placed(ev, oi).get("output_index"@) == if ev.get("output_index"@) is Some {
            Some(JsonView::Int(oi as int))
        } else {
            None
        },
{
}

/// The events that are sent keep all their fields but the sequence number, which counts up by one
/// from event to event.
pub proof fn law_numbered(evs: Seq<JsonView>, n: i64, k: int, key: Seq<char>)
    requires
        0 <= k < evs.len(),
        evs[k] is Object,
        n + k <= i64::MAX,
    ensures
        numbered(evs, n).len() == evs.len(),
        key != "sequence_number"@ ==> numbered(evs, n)[k].get(key) == evs[k].get(key),
        numbered(evs, n)[k].get("sequence_number"@) == Some(JsonView::Int(n + k)),
{
    lemma_counts_up(n, k as nat);
}

/// The key of an output item is the text of its index.
pub proof fn law_index_key(ev: JsonView)
    ensures
        ev.get("output_index"@) matches Some(v) ==> index_key(ev) == json_text(v),
        ev.get("output_index"@) is None ==> index_key(ev).len() == 0,
{
    reveal_strlit("");
    assert(""@.len() == 0);
}

/// The number after a number is the next one; after the last one comes the first one.
pub proof fn law_next_number(n: i64, k: nat)
    ensures
        nth_after(n, 0) == n,
        nth_after(n, k) < i64::MAX ==> nth_after(n, k + 1) == nth_after(n, k) + 1,
        nth_after(n, k) == i64::MAX ==> nth_after(n, k + 1) == i64::MIN,
{
}

} // verus!
