//! Output that is held back until a round has proved to be the last one, and how it is released.
use vstd::prelude::*;
use vstd::string::*;

use crate::codex::output_text;
use crate::config::{Config, StreamCfg};
use crate::events::{
    ev_type, lemma_nth_after_add, lemma_numbered_concat, nth_after, numbered, place, placed,
    push_numbered, type_of, Counter,
};
use crate::json::{lemma_views, opt_str, views, Json, JsonView};
use crate::text::{chars_of, same_text, text_between, texts};

verus! {

/// A text cut into pieces of `size` characters; only the last one may be shorter. A size of zero
/// does not cut.
pub open spec fn chunks(s: Seq<char>, size: nat) -> Seq<Seq<char>>
    decreases s.len(),
{
    if s.len() == 0 {
        Seq::empty()
    } else if size == 0 || s.len() <= size {
        seq![s]
    } else {
        seq![s.take(size as int)] + chunks(s.skip(size as int), size)
    }
}

pub fn char_chunks(s: &str, size: usize) -> (r: Vec<String>)
    ensures
        texts(r@) == chunks(s@, size as nat),
{
    let cs = chars_of(s);
    let n: usize = cs.len();
    let mut out: Vec<String> = Vec::new();
    let mut i: usize = 0;
    proof {
        assert(s@.skip(0) =~= s@);
        assert(texts(out@) + chunks(s@, size as nat) =~= chunks(s@, size as nat));
    }
    while i < n
        invariant
            i <= n,
            n == cs.len(),
            cs@ == s@,
            texts(out@) + chunks(s@.skip(i as int), size as nat) == chunks(s@, size as nat),
        decreases n - i,
    {
        let end: usize = if size == 0 || n - i <= size {
            n
        } else {
            i + size
        };
        let piece = text_between(&cs, i, end);
        let ghost before = out@;
        proof {
            let rest = s@.skip(i as int);
            assert(texts(before.push(piece)) =~= texts(before).push(piece@));
            if end == n {
                assert(piece@ =~= rest);
                assert(s@.skip(end as int) =~= Seq::empty());
                assert(texts(before.push(piece)) + Seq::<Seq<char>>::empty() =~= texts(before)
                    + seq![rest]);
            } else {
                assert(piece@ =~= rest.take(size as int));
                assert(s@.skip(end as int) =~= rest.skip(size as int));
                assert(texts(before.push(piece)) + chunks(rest.skip(size as int), size as nat)
                    =~= texts(before) + (seq![rest.take(size as int)] + chunks(
                    rest.skip(size as int),
                    size as nat,
                )));
            }
        }
        out.push(piece);
        i = end;
    }
    proof {
        assert(s@.skip(n as int) =~= Seq::empty());
        assert(texts(out@) + Seq::<Seq<char>>::empty() =~= texts(out@));
    }
    out
}

/// An output item whose events are held back.
pub struct BufferEntry {
    pub oi: String,
    pub itype: String,
    pub events: Vec<Json>,
    pub item: Json,
}

/// What a [`BufferEntry`] stands for: the key of its output index, its type, its events so far,
/// and the item as it was last told.
#[verifier::ext_equal]
pub struct EntryView {
    pub oi: Seq<char>,
    pub itype: Seq<char>,
    pub events: Seq<JsonView>,
    pub item: JsonView,
}

impl BufferEntry {
    pub open spec fn view(&self) -> EntryView {
        EntryView {
            oi: self.oi@,
            itype: self.itype@,
            events: views(self.events@),
            item: self.item@,
        }
    }
}

/// Whether an event carries a piece of the answer's text.
pub open spec fn is_delta(ev: JsonView) -> bool {
    type_of(ev) == "response.output_text.delta"@
}

/// The piece of the answer's text that an event carries.
pub open spec fn delta_text(ev: JsonView) -> Seq<char> {
    if is_delta(ev) {
        match opt_str(ev.get("delta"@)) {
            Some(d) => d,
            None => Seq::empty(),
        }
    } else {
        Seq::empty()
    }
}

/// The answer's text that events carry together.
pub open spec fn answer_text(evs: Seq<JsonView>) -> Seq<char>
    decreases evs.len(),
{
    if evs.len() == 0 {
        Seq::empty()
    } else {
        answer_text(evs.drop_last()) + delta_text(evs.last())
    }
}

/// Whether some of the events carry a piece of the answer's text.
pub open spec fn has_delta(evs: Seq<JsonView>) -> bool {
    exists|i: int| 0 <= i < evs.len() && #[trigger] is_delta(evs[i])
}

/// An event for one piece of the answer's text, in place of the event `ev`.
pub open spec fn piece_event(ev: JsonView, oi: i64, piece: Seq<char>) -> JsonView {
    JsonView::Object(
        map![
            "type"@ => JsonView::Text("response.output_text.delta"@),
            "item_id"@ => match ev.get("item_id"@) {
                Some(id) => id,
                None => JsonView::Null,
            },
            "output_index"@ => JsonView::Int(oi as int),
            "content_index"@ => match ev.get("content_index"@) {
                Some(i) => i,
                None => JsonView::Int(0),
            },
            "delta"@ => JsonView::Text(piece),
        ],
    )
}

/// Events for all pieces of a text, in place of the event `ev`.
pub open spec fn piece_events(ev: JsonView, oi: i64, pieces: Seq<Seq<char>>) -> Seq<JsonView> {
    Seq::new(pieces.len(), |k: int| piece_event(ev, oi, pieces[k]))
}

/// Events whose text is cut anew: the pieces stand where the first piece stood, and the other
/// events stay, at the output index `oi`.
pub open spec fn rechunked(
    evs: Seq<JsonView>,
    oi: i64,
    pieces: Seq<Seq<char>>,
) -> Seq<JsonView>
    decreases evs.len(),
{
    if evs.len() == 0 {
        Seq::empty()
    } else {
        let front = evs.drop_last();
        let ev = evs.last();
        rechunked(front, oi, pieces) + if !is_delta(ev) {
            seq![placed(ev, oi)]
        } else if has_delta(front) {
            Seq::empty()
        } else {
            piece_events(ev, oi, pieces)
        }
    }
}

/// The size of the pieces into which an answer is cut.
pub open spec fn piece_size(cfg: StreamCfg) -> nat {
    if cfg.rechunk_size == 0 {
        1
    } else {
        cfg.rechunk_size as nat
    }
}

/// The events with which an entry is released at the output index `oi`: as they came, or with
/// the text of a message cut anew.
pub open spec fn released(e: EntryView, oi: i64, cfg: StreamCfg) -> Seq<JsonView> {
    if cfg.rechunk_final_answer && e.itype == "message"@ {
        rechunked(e.events, oi, chunks(answer_text(e.events), piece_size(cfg)))
    } else {
        Seq::new(e.events.len(), |k: int| placed(e.events[k], oi))
    }
}

fn full_text(events: &Vec<Json>) -> (r: String)
    ensures
        r@ == answer_text(views(events@)),
{
    let mut out = String::new();
    proof {
        lemma_views(events@);
        assert(views(events@).take(0) =~= Seq::empty());
    }
    for i in 0..events.len()
        invariant
            views(events@).len() == events.len(),
            forall|j: int|
                0 <= j < events.len() ==> #[trigger] views(events@)[j] == events@[j].view(),
            out@ == answer_text(views(events@).take(i as int)),
    {
        let ev = &events[i];
        let ghost evs = views(events@);
        proof {
            assert(evs.take(i + 1).drop_last() =~= evs.take(i as int));
            assert(evs.take(i + 1).last() == evs[i as int]);
            assert(out@ + Seq::<char>::empty() =~= out@);
        }
        if same_text(ev_type(ev), "response.output_text.delta") {
            if let Some(d) = ev.get("delta") {
                if let Some(s) = d.as_str() {
                    out.append(s);
                }
            }
        }
    }
    assert(views(events@).take(events.len() as int) =~= views(events@));
    out
}

fn piece(ev: &Json, oi: i64, text: &str) -> (r: Json)
    ensures
        r@ == piece_event(ev@, oi, text@),
{
    let item_id = match ev.get("item_id") {
        Some(id) => id.clone(),
        None => Json::Null,
    };
    let content_index = match ev.get("content_index") {
        Some(i) => i.clone(),
        None => Json::Int(0),
    };
    Json::object().with("type", Json::text("response.output_text.delta")).with(
        "item_id",
        item_id,
    ).with("output_index", Json::Int(oi)).with("content_index", content_index).with(
        "delta",
        Json::text(text),
    )
}

/// Appends the events for all pieces of a text.
fn push_pieces(
    out: &mut Vec<Json>,
    ev: &Json,
    oi: i64,
    pieces: &Vec<String>,
    seq: &mut Counter,
)
    ensures
        views(final(out)@) == views(old(out)@) + numbered(
            piece_events(ev@, oi, texts(pieces@)),
            old(seq).n,
        ),
        final(seq).n == nth_after(old(seq).n, pieces@.len()),
{
    let ghost all = piece_events(ev@, oi, texts(pieces@));
    let ghost before = views(out@);
    let ghost start = seq.n;
    proof {
        assert(before + numbered(all.take(0), start) =~= before);
    }
    for i in 0..pieces.len()
        invariant
            all == piece_events(ev@, oi, texts(pieces@)),
            views(out@) == before + numbered(all.take(i as int), start),
            seq.n == nth_after(start, i as nat),
    {
        let one = piece(ev, oi, pieces[i].as_str());
        proof {
            assert(all.take(i + 1) =~= all.take(i as int) + seq![one@]);
            lemma_numbered_concat(all.take(i as int), seq![one@], start);
            lemma_nth_after_add(start, i as nat, 1);
            assert(before + numbered(all.take(i + 1), start) =~= before + numbered(
                all.take(i as int),
                start,
            ) + numbered(seq![one@], nth_after(start, i as nat)));
        }
        push_numbered(out, one, seq);
    }
    assert(all.take(all.len() as int) =~= all);
}

pub fn flush_entry(entry: &BufferEntry, ds_oi: i64, seq: &mut Counter, cfg: &Config) -> (r: Vec<
    Json,
>)
    ensures
        views(r@) == numbered(released(entry@, ds_oi, cfg.stream), old(seq).n),
        final(seq).n == nth_after(
            old(seq).n,
            released(entry@, ds_oi, cfg.stream).len(),
        ),
{
    let mut out: Vec<Json> = Vec::new();
    let ghost evs = views(entry.events@);
    let ghost start = seq.n;
    proof {
        lemma_views(entry.events@);
        assert(evs.take(entry.events@.len() as int) =~= evs);
    }
    let rechunk = cfg.stream.rechunk_final_answer && same_text(entry.itype.as_str(), "message");
    if !rechunk {
        let ghost all = released(entry@, ds_oi, cfg.stream);
        proof {
            assert(numbered(all.take(0), start) =~= Seq::empty());
        }
        for i in 0..entry.events.len()
            invariant
                evs == views(entry.events@),
                evs.len() == entry.events.len(),
                forall|j: int|
                    0 <= j < entry.events.len() ==> #[trigger] evs[j] == entry.events@[j].view(),
                all == Seq::new(evs.len(), |k: int| placed(evs[k], ds_oi)),
                views(out@) == numbered(all.take(i as int), start),
                seq.n == nth_after(start, i as nat),
        {
            let ev = place(&entry.events[i], ds_oi);
            proof {
                assert(all.take(i + 1) =~= all.take(i as int) + seq![ev@]);
                lemma_numbered_concat(all.take(i as int), seq![ev@], start);
                lemma_nth_after_add(start, i as nat, 1);
            }
            push_numbered(&mut out, ev, seq);
        }
        assert(all.take(all.len() as int) =~= all);
        return out;
    }
    let text = full_text(&entry.events);
    let size: usize = if cfg.stream.rechunk_size == 0 {
        1
    } else {
        cfg.stream.rechunk_size
    };
    let pieces = char_chunks(text.as_str(), size);
    let ghost cut = texts(pieces@);
    let mut emitted = false;
    proof {
        assert(evs.take(0) =~= Seq::empty());
        assert(numbered(rechunked(evs.take(0), ds_oi, cut), start) =~= Seq::empty());
        assert(nth_after(start, 0) == start);
    }
    for i in 0..entry.events.len()
        invariant
            evs == views(entry.events@),
            evs.len() == entry.events.len(),
            forall|j: int|
                0 <= j < entry.events.len() ==> #[trigger] evs[j] == entry.events@[j].view(),
            cut == texts(pieces@),
            emitted == has_delta(evs.take(i as int)),
            views(out@) == numbered(rechunked(evs.take(i as int), ds_oi, cut), start),
            seq.n == nth_after(start, rechunked(evs.take(i as int), ds_oi, cut).len()),
    {
        let ev = &entry.events[i];
        let ghost front = evs.take(i as int);
        let ghost done = rechunked(front, ds_oi, cut);
        proof {
            assert(evs.take(i + 1).drop_last() =~= front);
            assert(evs.take(i + 1).last() == evs[i as int]);
        }
        if same_text(ev_type(ev), "response.output_text.delta") {
            if !emitted {
                proof {
                    let more = piece_events(ev@, ds_oi, cut);
                    lemma_numbered_concat(done, more, start);
                    lemma_nth_after_add(start, done.len(), more.len());
                }
                push_pieces(&mut out, ev, ds_oi, &pieces, seq);
            } else {
                assert(done + Seq::<JsonView>::empty() =~= done);
            }
            assert(is_delta(evs.take(i + 1)[i as int]));
            emitted = true;
        } else {
            let ev = place(ev, ds_oi);
            proof {
                lemma_numbered_concat(done, seq![ev@], start);
                lemma_nth_after_add(start, done.len(), 1);
                if has_delta(evs.take(i + 1)) {
                    let j = choose|j: int|
                        0 <= j < i + 1 && #[trigger] is_delta(evs.take(i + 1)[j]);
                    assert(is_delta(front[j]));
                }
                if has_delta(front) {
                    let j = choose|j: int| 0 <= j < i && #[trigger] is_delta(front[j]);
                    assert(is_delta(evs.take(i + 1)[j]));
                }
            }
            push_numbered(&mut out, ev, seq);
        }
    }
    out
}

/// The events that tell the client of a commentary item at the output index `oi`.
pub open spec fn commentary_events_of(item: JsonView, oi: i64) -> Seq<JsonView> {
    let id = match item.get("id"@) {
        Some(id) => id,
        None => JsonView::Null,
    };
    let text = first_text(item);
    let at = JsonView::Int(oi as int);
    let head = JsonView::Object(
        map![
            "id"@ => id,
            "type"@ => JsonView::Text("message"@),
            "role"@ => JsonView::Text("assistant"@),
            "phase"@ => JsonView::Text("commentary"@),
        ],
    );
    seq![
        JsonView::Object(
            map![
                "type"@ => JsonView::Text("response.output_item.added"@),
                "output_index"@ => at,
                "item"@ => head,
            ],
        ),
        JsonView::Object(
            map![
                "type"@ => JsonView::Text("response.content_part.added"@),
                "output_index"@ => at,
                "item_id"@ => id,
                "content_index"@ => JsonView::Int(0),
                "part"@ => output_text(""@),
            ],
        ),
        JsonView::Object(
            map![
                "type"@ => JsonView::Text("response.output_text.delta"@),
                "output_index"@ => at,
                "item_id"@ => id,
                "content_index"@ => JsonView::Int(0),
                "delta"@ => JsonView::Text(text),
            ],
        ),
        JsonView::Object(
            map![
                "type"@ => JsonView::Text("response.output_text.done"@),
                "output_index"@ => at,
                "item_id"@ => id,
                "content_index"@ => JsonView::Int(0),
                "text"@ => JsonView::Text(text),
            ],
        ),
        JsonView::Object(
            map![
                "type"@ => JsonView::Text("response.content_part.done"@),
                "output_index"@ => at,
                "item_id"@ => id,
                "content_index"@ => JsonView::Int(0),
                "part"@ => output_text(text),
            ],
        ),
        JsonView::Object(
            map![
                "type"@ => JsonView::Text("response.output_item.done"@),
                "output_index"@ => at,
                "item"@ => item,
            ],
        ),
    ]
}

/// The text of the first part of an item; empty, where there is none.
pub open spec fn first_text(item: JsonView) -> Seq<char> {
    match item.get("content"@) {
        Some(JsonView::Array(parts)) => if parts.len() > 0 {
            match opt_str(parts[0].get("text"@)) {
                Some(t) => t,
                None => ""@,
            }
        } else {
            ""@
        },
        _ => ""@,
    }
}

fn text_of_first(item: &Json) -> (r: &str)
    ensures
        r@ == first_text(item@),
{
    if let Some(content) = item.get("content") {
        if let Some(parts) = content.as_array() {
            proof {
                lemma_views(parts@);
            }
            if parts.len() > 0 {
                if let Some(t) = parts[0].get("text") {
                    if let Some(s) = t.as_str() {
                        return s;
                    }
                }
            }
        }
    }
    ""
}

fn text_part(text: &str) -> (r: Json)
    ensures
        r@ == output_text(text@),
{
    Json::object().with("type", Json::text("output_text")).with("text", Json::text(text))
}

/// The fields that the events of one part of an item share.
fn part_event(name: &str, oi: i64, id: &Json) -> (r: Json)
    ensures
        r@ == JsonView::Object(
            map![
                "type"@ => JsonView::Text(name@),
                "output_index"@ => JsonView::Int(oi as int),
                "item_id"@ => id@,
                "content_index"@ => JsonView::Int(0),
            ],
        ),
{
    Json::object().with("type", Json::text(name)).with("output_index", Json::Int(oi)).with(
        "item_id",
        id.clone(),
    ).with("content_index", Json::Int(0))
}

/// The fields that the events of a whole item share.
fn item_event(name: &str, oi: i64, item: Json) -> (r: Json)
    ensures
        r@ == JsonView::Object(
            map![
                "type"@ => JsonView::Text(name@),
                "output_index"@ => JsonView::Int(oi as int),
                "item"@ => item@,
            ],
        ),
{
    Json::object().with("type", Json::text(name)).with("output_index", Json::Int(oi)).with(
        "item",
        item,
    )
}

pub fn commentary_events(item: &Json, ds_oi: i64, seq: &mut Counter) -> (r: Vec<Json>)
    ensures
        views(r@) == numbered(commentary_events_of(item@, ds_oi), old(seq).n),
        final(seq).n == nth_after(old(seq).n, 6),
{
    let id = match item.get("id") {
        Some(id) => id.clone(),
        None => Json::Null,
    };
    let text = text_of_first(item);
    let head = Json::object().with("id", id.clone()).with("type", Json::text("message")).with(
        "role",
        Json::text("assistant"),
    ).with("phase", Json::text("commentary"));
    let e0 = item_event("response.output_item.added", ds_oi, head);
    let e1 = part_event("response.content_part.added", ds_oi, &id).with("part", text_part(""));
    let e2 = part_event("response.output_text.delta", ds_oi, &id).with("delta", Json::text(text));
    let e3 = part_event("response.output_text.done", ds_oi, &id).with("text", Json::text(text));
    let e4 = part_event("response.content_part.done", ds_oi, &id).with("part", text_part(text));
    let e5 = item_event("response.output_item.done", ds_oi, item.clone());
    let ghost all = seq![e0@, e1@, e2@, e3@, e4@, e5@];
    let ghost start = seq.n;
    let mut out: Vec<Json> = Vec::new();
    proof {
        assert(all =~= commentary_events_of(item@, ds_oi));
        reveal_with_fuel(nth_after, 7);
    }
    push_numbered(&mut out, e0, seq);
    push_numbered(&mut out, e1, seq);
    push_numbered(&mut out, e2, seq);
    push_numbered(&mut out, e3, seq);
    push_numbered(&mut out, e4, seq);
    push_numbered(&mut out, e5, seq);
    assert(views(out@) =~= numbered(all, start));
    out
}

/// The pieces of a text make up the text again; none is empty or longer than the size, and only
/// the last one is shorter.
pub proof fn law_chunks(s: Seq<char>, size: nat)
    requires
        size > 0,
    ensures
        chunks(s, size).flatten() == s,
        forall|i: int|
            0 <= i < chunks(s, size).len() ==> 0 < (#[trigger] chunks(s, size)[i]).len() <= size,
        forall|i: int|
            0 <= i < chunks(s, size).len() - 1 ==> (#[trigger] chunks(s, size)[i]).len() == size,
    decreases s.len(),
{
    let all = chunks(s, size);
    if s.len() == 0 {
    } else if s.len() <= size {
        seq![s].lemma_flatten_one_element();
    } else {
        let rest = s.skip(size as int);
        law_chunks(rest, size);
        assert(all.drop_first() =~= chunks(rest, size));
        assert(s.take(size as int) + rest =~= s);
        assert forall|i: int| 0 <= i < all.len() implies 0 < (#[trigger] all[i]).len() <= size by {
            if i > 0 {
                assert(all[i] == chunks(rest, size)[i - 1]);
            }
        }
        assert forall|i: int| 0 <= i < all.len() - 1 implies (#[trigger] all[i]).len() == size by {
            if i > 0 {
                assert(all[i] == chunks(rest, size)[i - 1]);
            }
        }
    }
}

pub proof fn lemma_answer_concat(a: Seq<JsonView>, b: Seq<JsonView>)
    ensures
        answer_text(a + b) == answer_text(a) + answer_text(b),
    decreases b.len(),
{
    if b.len() == 0 {
        assert(a + b =~= a);
        assert(answer_text(a) + answer_text(b) =~= answer_text(a));
    } else {
        lemma_answer_concat(a, b.drop_last());
        assert((a + b).drop_last() =~= a + b.drop_last());
        assert(answer_text(a + b) =~= answer_text(a) + answer_text(b));
    }
}

/// Placing an event changes neither its type nor its text.
pub proof fn lemma_placed_text(ev: JsonView, oi: i64)
    ensures
        type_of(placed(ev, oi)) == type_of(ev),
        delta_text(placed(ev, oi)) == delta_text(ev),
{
    reveal_strlit("type");
    reveal_strlit("delta");
    reveal_strlit("output_index");
    assert("type"@.len() == 4);
    assert("delta"@.len() == 5);
    assert("output_index"@.len() == 12);
}

proof fn lemma_pieces_text(ev: JsonView, oi: i64, pieces: Seq<Seq<char>>)
    ensures
        answer_text(piece_events(ev, oi, pieces)) == pieces.flatten(),
    decreases pieces.len(),
{
    pieces.lemma_flatten_and_flatten_alt_are_equivalent();
    if pieces.len() > 0 {
        let front = pieces.drop_last();
        lemma_pieces_text(ev, oi, front);
        front.lemma_flatten_and_flatten_alt_are_equivalent();
        assert(piece_events(ev, oi, pieces).drop_last() =~= piece_events(ev, oi, front));
        reveal_strlit("type");
        reveal_strlit("delta");
        reveal_strlit("item_id");
        reveal_strlit("output_index");
        reveal_strlit("content_index");
        assert("type"@.len() == 4);
        assert("delta"@.len() == 5);
        assert("item_id"@.len() == 7);
        assert("output_index"@.len() == 12);
        assert("content_index"@.len() == 13);
    }
}

proof fn lemma_no_text(evs: Seq<JsonView>)
    requires
        !has_delta(evs),
    ensures
        answer_text(evs) == Seq::<char>::empty(),
    decreases evs.len(),
{
    if evs.len() > 0 {
        let front = evs.drop_last();
        assert forall|i: int| 0 <= i < front.len() implies !#[trigger] is_delta(front[i]) by {
            assert(front[i] == evs[i]);
        }
        lemma_no_text(front);
        assert(!is_delta(evs[evs.len() - 1]));
        assert(Seq::<char>::empty() + Seq::<char>::empty() =~= Seq::<char>::empty());
    }
}

proof fn lemma_rechunked_text(evs: Seq<JsonView>, oi: i64, pieces: Seq<Seq<char>>)
    ensures
        answer_text(rechunked(evs, oi, pieces)) == if has_delta(evs) {
            pieces.flatten()
        } else {
            Seq::empty()
        },
    decreases evs.len(),
{
    if evs.len() > 0 {
        let front = evs.drop_last();
        let ev = evs.last();
        let done = rechunked(front, oi, pieces);
        lemma_rechunked_text(front, oi, pieces);
        if has_delta(front) {
            let j = choose|j: int| 0 <= j < front.len() && #[trigger] is_delta(front[j]);
            assert(is_delta(evs[j]));
        }
        if !is_delta(ev) {
            lemma_placed_text(ev, oi);
            lemma_answer_concat(done, seq![placed(ev, oi)]);
            reveal_with_fuel(answer_text, 2);
            assert(answer_text(seq![placed(ev, oi)]) =~= Seq::empty());
            assert(answer_text(done) + Seq::<char>::empty() =~= answer_text(done));
            if has_delta(evs) {
                let j = choose|j: int| 0 <= j < evs.len() && #[trigger] is_delta(evs[j]);
                assert(is_delta(front[j]));
            }
        } else {
            assert(is_delta(evs[evs.len() - 1]));
            if has_delta(front) {
                assert(done + Seq::<JsonView>::empty() =~= done);
            } else {
                lemma_pieces_text(ev, oi, pieces);
                lemma_answer_concat(done, piece_events(ev, oi, pieces));
                assert(Seq::<char>::empty() + pieces.flatten() =~= pieces.flatten());
            }
        }
    }
}

/// However its events are released, an entry's text is the text that was held back.
pub proof fn law_released_text(e: EntryView, oi: i64, cfg: StreamCfg)
    ensures
        answer_text(released(e, oi, cfg)) == answer_text(e.events),
{
    if cfg.rechunk_final_answer && e.itype == "message"@ {
        let text = answer_text(e.events);
        law_chunks(text, piece_size(cfg));
        lemma_rechunked_text(e.events, oi, chunks(text, piece_size(cfg)));
        if !has_delta(e.events) {
            lemma_no_text(e.events);
        }
    } else {
        lemma_placed_all_text(e.events, oi);
    }
}

proof fn lemma_placed_all_text(evs: Seq<JsonView>, oi: i64)
    ensures
        answer_text(Seq::new(evs.len(), |k: int| placed(evs[k], oi))) == answer_text(evs),
    decreases evs.len(),
{
    if evs.len() > 0 {
        let front = evs.drop_last();
        let all = Seq::new(evs.len(), |k: int| placed(evs[k], oi));
        lemma_placed_all_text(front, oi);
        lemma_placed_text(evs.last(), oi);
        assert(all.drop_last() =~= Seq::new(front.len(), |k: int| placed(front[k], oi)));
    }
}

/// The events that carry no piece of the answer's text, in their order.
pub open spec fn others(evs: Seq<JsonView>) -> Seq<JsonView>
    decreases evs.len(),
{
    if evs.len() == 0 {
        Seq::empty()
    } else if is_delta(evs.last()) {
        others(evs.drop_last())
    } else {
        others(evs.drop_last()).push(evs.last())
    }
}

/// Events that are placed one by one.
pub open spec fn all_placed(evs: Seq<JsonView>, oi: i64) -> Seq<JsonView> {
    Seq::new(evs.len(), |k: int| placed(evs[k], oi))
}

/// Whether the first piece of the answer's text is carried by the event at `p`.
pub open spec fn first_delta(evs: Seq<JsonView>, p: int) -> bool {
    &&& 0 <= p < evs.len()
    &&& is_delta(evs[p])
    &&& forall|j: int| 0 <= j < p ==> !is_delta(#[trigger] evs[j])
}

/// An event carries a piece of the answer's text where its type says so, and the piece is the
/// text of its field `delta`.
pub proof fn law_delta(ev: JsonView)
    ensures
        is_delta(ev) <==> ev.get("type"@) == Some(JsonView::Text("response.output_text.delta"@)),
        is_delta(ev) && ev.get("delta"@) is Some && ev.get("delta"@)->Some_0 is Text ==> delta_text(
            ev,
        ) == ev.get("delta"@)->Some_0->Text_0,
        !is_delta(ev) || ev.get("delta"@) is None || !(ev.get("delta"@)->Some_0 is Text)
            ==> delta_text(ev).len() == 0,
{
    reveal_strlit("");
    reveal_strlit("response.output_text.delta");
    assert(""@.len() == 0);
    assert("response.output_text.delta"@.len() == 26);
}

proof fn lemma_uncut(evs: Seq<JsonView>, oi: i64, pieces: Seq<Seq<char>>)
    requires
        !has_delta(evs),
    ensures
        rechunked(evs, oi, pieces) == all_placed(evs, oi),
        others(evs) == evs,
    decreases evs.len(),
{
    if evs.len() > 0 {
        let front = evs.drop_last();
        assert forall|i: int| 0 <= i < front.len() implies !#[trigger] is_delta(front[i]) by {
            assert(front[i] == evs[i]);
        }
        lemma_uncut(front, oi, pieces);
        assert(!is_delta(evs[evs.len() - 1]));
        assert(rechunked(evs, oi, pieces) =~= all_placed(evs, oi));
        assert(others(evs) =~= evs);
    } else {
        assert(rechunked(evs, oi, pieces) =~= all_placed(evs, oi));
        assert(others(evs) =~= evs);
    }
}

proof fn lemma_cut(evs: Seq<JsonView>, oi: i64, pieces: Seq<Seq<char>>, p: int)
    requires
        first_delta(evs, p),
    ensures
        rechunked(evs, oi, pieces) == all_placed(evs.take(p), oi) + piece_events(
            evs[p],
            oi,
            pieces,
        ) + all_placed(others(evs.skip(p + 1)), oi),
        others(evs) == evs.take(p) + others(evs.skip(p + 1)),
    decreases evs.len(),
{
    let front = evs.drop_last();
    let ev = evs.last();
    let cut = piece_events(evs[p], oi, pieces);
    if p == evs.len() - 1 {
        assert forall|i: int| 0 <= i < front.len() implies !#[trigger] is_delta(front[i]) by {
            assert(front[i] == evs[i]);
        }
        lemma_uncut(front, oi, pieces);
        assert(evs.take(p) =~= front);
        assert(evs.skip(p + 1) =~= Seq::empty());
        assert(all_placed(front, oi) + cut + all_placed(others(evs.skip(p + 1)), oi)
            =~= all_placed(front, oi) + cut);
        assert(others(evs) =~= evs.take(p) + others(evs.skip(p + 1)));
    } else {
        assert forall|j: int| 0 <= j < p implies !is_delta(#[trigger] front[j]) by {
            assert(front[j] == evs[j]);
        }
        assert(is_delta(front[p]));
        lemma_cut(front, oi, pieces, p);
        assert(front.take(p) =~= evs.take(p));
        assert(evs.skip(p + 1).drop_last() =~= front.skip(p + 1));
        assert(evs.skip(p + 1).last() == ev);
        if is_delta(ev) {
            assert(rechunked(evs, oi, pieces) =~= rechunked(front, oi, pieces));
        } else {
            assert(all_placed(others(evs.skip(p + 1)), oi) =~= all_placed(
                others(front.skip(p + 1)),
                oi,
            ).push(placed(ev, oi)));
            assert(rechunked(evs, oi, pieces) =~= all_placed(evs.take(p), oi) + cut + all_placed(
                others(evs.skip(p + 1)),
                oi,
            ));
            assert(others(evs) =~= evs.take(p) + others(evs.skip(p + 1)));
        }
    }
}

/// The field names of an event for a piece of the answer's text are different names.
proof fn lemma_piece_names()
    ensures
        "type"@.len() == 4,
        "delta"@.len() == 5,
        "item_id"@.len() == 7,
        "output_index"@.len() == 12,
        "content_index"@.len() == 13,
{
    reveal_strlit("type");
    reveal_strlit("delta");
    reveal_strlit("item_id");
    reveal_strlit("output_index");
    reveal_strlit("content_index");
}

/// Every event with which an item is released stands at the item's output index: where it
/// carries an output index at all, it carries that one.
pub proof fn law_released_index(e: EntryView, oi: i64, cfg: StreamCfg, k: int)
    requires
        0 <= k < released(e, oi, cfg).len(),
    ensures
        released(e, oi, cfg)[k].get("output_index"@) is None || released(e, oi, cfg)[k].get(
            "output_index"@,
        ) == Some(JsonView::Int(oi as int)),
        is_delta(released(e, oi, cfg)[k]) && cfg.rechunk_final_answer && e.itype == "message"@
            ==> released(e, oi, cfg)[k].get("output_index"@) == Some(JsonView::Int(oi as int)),
{
    lemma_piece_names();
    if cfg.rechunk_final_answer && e.itype == "message"@ {
        let pieces = chunks(answer_text(e.events), piece_size(cfg));
        if has_delta(e.events) {
            let p = lemma_some_first(e.events);
            lemma_cut(e.events, oi, pieces, p);
            assert forall|j: int| 0 <= j < p implies !is_delta(
                #[trigger] all_placed(e.events.take(p), oi)[j],
            ) by {
                lemma_placed_text(e.events[j], oi);
            }
            let tail = others(e.events.skip(p + 1));
            assert forall|j: int| 0 <= j < tail.len() implies !is_delta(
                #[trigger] all_placed(tail, oi)[j],
            ) by {
                lemma_others(e.events.skip(p + 1), j);
                lemma_placed_text(tail[j], oi);
            }
        } else {
            lemma_uncut(e.events, oi, pieces);
            lemma_placed_text(e.events[k], oi);
            assert(!is_delta(e.events[k]));
        }
    }
}

proof fn lemma_others(evs: Seq<JsonView>, k: int)
    requires
        0 <= k < others(evs).len(),
    ensures
        !is_delta(others(evs)[k]),
    decreases evs.len(),
{
    if evs.len() > 0 && k < others(evs.drop_last()).len() {
        lemma_others(evs.drop_last(), k);
    }
}

proof fn lemma_some_first(evs: Seq<JsonView>) -> (p: int)
    requires
        has_delta(evs),
    ensures
        first_delta(evs, p),
    decreases evs.len(),
{
    let front = evs.drop_last();
    if has_delta(front) {
        let p = lemma_some_first(front);
        assert forall|j: int| 0 <= j < p implies !is_delta(#[trigger] evs[j]) by {
            assert(front[j] == evs[j]);
        }
        p
    } else {
        let i = choose|i: int| 0 <= i < evs.len() && #[trigger] is_delta(evs[i]);
        if i < front.len() {
            assert(is_delta(front[i]));
        }
        assert forall|j: int| 0 <= j < evs.len() - 1 implies !is_delta(#[trigger] evs[j]) by {
            assert(!is_delta(front[j]));
        }
        evs.len() - 1
    }
}

/// An item that is not cut anew is released with its events as they came, one for one.
pub proof fn law_released_whole(e: EntryView, oi: i64, cfg: StreamCfg, k: int, key: Seq<char>)
    requires
        !cfg.rechunk_final_answer || e.itype != "message"@,
        0 <= k < e.events.len(),
    ensures
        released(e, oi, cfg).len() == e.events.len(),
        key != "output_index"@ ==> released(e, oi, cfg)[k].get(key) == e.events[k].get(key),
{
}

/// A message whose text is cut anew is released with its other events as they came, and with the
/// pieces of the text where the first piece stood. The pieces belong to the item and to the part
/// of it that the first piece named. All but the last have the configured size, and none is
/// empty.
pub proof fn law_released_cut(e: EntryView, oi: i64, cfg: StreamCfg, p: int, k: int)
    requires
        cfg.rechunk_final_answer,
        e.itype == "message"@,
        first_delta(e.events, p),
    ensures
        ({
            let out = released(e, oi, cfg);
            let rest = others(e.events);
            let n = out.len() - rest.len();
            let size = if cfg.rechunk_size == 0 {
                1
            } else {
                cfg.rechunk_size as int
            };
            &&& n >= 0
            &&& 0 <= k < p ==> out[k] == placed(e.events[k], oi)
            &&& p <= k < p + n ==> {
                &&& is_delta(out[k])
                &&& out[k].get("item_id"@) == Some(
                    if e.events[p].get("item_id"@) is Some {
                        e.events[p].get("item_id"@)->Some_0
                    } else {
                        JsonView::Null
                    },
                )
                &&& out[k].get("content_index"@) == Some(
                    if e.events[p].get("content_index"@) is Some {
                        e.events[p].get("content_index"@)->Some_0
                    } else {
                        JsonView::Int(0)
                    },
                )
                &&& out[k].get("output_index"@) == Some(JsonView::Int(oi as int))
                &&& 0 < delta_text(out[k]).len() <= size
                &&& k < p + n - 1 ==> delta_text(out[k]).len() == size
            }
            &&& p + n <= k < out.len() ==> out[k] == placed(rest[k - n], oi)
        }),
{
    lemma_piece_names();
    let text = answer_text(e.events);
    let size = piece_size(cfg);
    let pieces = chunks(text, size);
    law_chunks(text, size);
    lemma_cut(e.events, oi, pieces, p);
    let out = released(e, oi, cfg);
    let n = out.len() - others(e.events).len();
    assert(n == pieces.len());
    if p <= k < p + n {
        assert(out[k] == piece_event(e.events[p], oi, pieces[k - p]));
    }
    if p + n <= k < out.len() {
        assert(others(e.events)[k - n] == others(e.events.skip(p + 1))[k - n - p]);
    }
}

/// A message without text is released with its events as they came, though its text is cut.
pub proof fn law_released_without_text(e: EntryView, oi: i64, cfg: StreamCfg)
    requires
        !has_delta(e.events),
    ensures
        released(e, oi, cfg) == all_placed(e.events, oi),
{
    lemma_uncut(e.events, oi, chunks(answer_text(e.events), piece_size(cfg)));
    assert(released(e, oi, cfg) =~= all_placed(e.events, oi));
}

/// The client is told of a commentary item by six events at one output index: the item begins and
/// is complete, and between that its one part does; the part's text is the item's.
pub proof fn law_commentary_events(item: JsonView, oi: i64, part: JsonView, text: Seq<char>)
    requires
        item.get("content"@) == Some(JsonView::Array(seq![part])),
        part.get("text"@) == Some(JsonView::Text(text)),
        item.get("id"@) is Some,
    ensures
        ({
            let evs = commentary_events_of(item, oi);
            let at = Some(JsonView::Int(oi as int));
            let id = item.get("id"@);
            &&& evs.len() == 6
            &&& forall|k: int|
                0 <= k < 6 ==> (#[trigger] evs[k]) is Object && evs[k].get("output_index"@) == at
            &&& forall|k: int|
                1 <= k < 5 ==> (#[trigger] evs[k]).get("item_id"@) == id && evs[k].get(
                    "content_index"@,
                ) == Some(JsonView::Int(0))
            &&& evs[0].get("type"@) == Some(JsonView::Text("response.output_item.added"@))
            &&& evs[1].get("type"@) == Some(JsonView::Text("response.content_part.added"@))
            &&& evs[2].get("type"@) == Some(JsonView::Text("response.output_text.delta"@))
            &&& evs[3].get("type"@) == Some(JsonView::Text("response.output_text.done"@))
            &&& evs[4].get("type"@) == Some(JsonView::Text("response.content_part.done"@))
            &&& evs[5].get("type"@) == Some(JsonView::Text("response.output_item.done"@))
            &&& evs[0].get("item"@) is Some
            &&& evs[0].get("item"@)->Some_0.get("id"@) == id
            &&& evs[0].get("item"@)->Some_0.get("type"@) == Some(JsonView::Text("message"@))
            &&& evs[0].get("item"@)->Some_0.get("role"@) == Some(JsonView::Text("assistant"@))
            &&& evs[0].get("item"@)->Some_0.get("phase"@) == Some(JsonView::Text("commentary"@))
            &&& evs[0].get("item"@)->Some_0.get("content"@) is None
            &&& evs[1].get("part"@) is Some
            &&& evs[1].get("part"@)->Some_0.get("text"@) == Some(JsonView::Text(""@))
            &&& evs[2].get("delta"@) == Some(JsonView::Text(text))
            &&& evs[3].get("text"@) == Some(JsonView::Text(text))
            &&& evs[4].get("part"@) is Some
            &&& evs[4].get("part"@)->Some_0.get("text"@) == Some(JsonView::Text(text))
            &&& evs[4].get("part"@)->Some_0.get("type"@) == Some(JsonView::Text("output_text"@))
            &&& evs[5].get("item"@) == Some(item)
        }),
{
    lemma_piece_names();
    reveal_strlit("type");
    reveal_strlit("delta");
    reveal_strlit("item_id");
    reveal_strlit("item");
    reveal_strlit("part");
    reveal_strlit("text");
    reveal_strlit("id");
    reveal_strlit("role");
    reveal_strlit("phase");
    reveal_strlit("content");
    assert("item"@.len() == 4);
    assert("part"@.len() == 4);
    assert("text"@.len() == 4);
    assert("role"@.len() == 4);
    assert("id"@.len() == 2);
    assert("phase"@.len() == 5);
    assert("content"@.len() == 7);
    assert("type"@[0] == 't');
    assert("type"@[1] == 'y');
    assert("item"@[0] == 'i');
    assert("part"@[0] == 'p');
    assert("text"@[0] == 't');
    assert("text"@[1] == 'e');
    assert("role"@[0] == 'r');
    assert("item_id"@[0] == 'i');
    assert("content"@[0] == 'c');
    assert("delta"@[0] == 'd');
    assert("phase"@[0] == 'p');
    let evs = commentary_events_of(item, oi);
    assert(first_text(item) == text);
    assert(evs[0] is Object && evs[1] is Object && evs[2] is Object && evs[3] is Object && evs[4]
        is Object && evs[5] is Object);
}

} // verus!
