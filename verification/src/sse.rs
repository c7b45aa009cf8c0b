//! Server-sent events: an incremental reader and the writer.
use vstd::prelude::*;
use vstd::string::*;
use vstd::utf8::*;

use crate::json::{opt_str, Json, JsonView};
use crate::text::{
    after_prefix, has_suffix, law_prefix, law_suffix, law_trim_end, lemma_encode_concat,
    lemma_encode_no_line_feed, lemma_trim_end_keeps, same_text, strip_prefix, texts,
    trim_end_matches, trim_end_of,
};
use crate::value::{is_text_of, json_text, parsed_text, plain, MAX_DEPTH};

verus! {

/// The payload that marks the end of a stream.
pub const DONE: &'static str = "[DONE]";

/// What a stream of events consists of.
pub enum SseItem {
    Event(Json),
    Done,
}

/// What an [`SseItem`] stands for.
pub enum ItemView {
    Event(JsonView),
    Done,
}

impl SseItem {
    pub open spec fn view(&self) -> ItemView {
        match self {
            SseItem::Event(ev) => ItemView::Event(ev@),
            SseItem::Done => ItemView::Done,
        }
    }
}

/// What a list of items stands for.
pub open spec fn item_views(items: Seq<SseItem>) -> Seq<ItemView> {
    items.map_values(|i: SseItem| i@)
}

/// The text that bytes which are no UTF-8 stand for, with replacement characters.
pub uninterp spec fn repaired_text(bytes: Seq<u8>) -> Seq<char>;

/// The text that bytes stand for.
pub open spec fn lossy_text(bytes: Seq<u8>) -> Seq<char> {
    if valid_utf8(bytes) {
        decode_utf8(bytes)
    } else {
        repaired_text(bytes)
    }
}

/// `String::from_utf8_lossy` reads bytes as text. Bytes that are UTF-8 are read as they are;
/// for others the text depends on the bytes alone.
#[verifier::external_body]
fn from_utf8_lossy(bytes: &[u8]) -> (r: String)
    ensures
        valid_utf8(bytes@) ==> r@ == decode_utf8(bytes@),
        !valid_utf8(bytes@) ==> r@ == repaired_text(bytes@),
{
    String::from_utf8_lossy(bytes).into_owned()
}

/// The text of a line, without the carriage returns at its end.
pub open spec fn line_text(raw: Seq<u8>) -> Seq<char> {
    trim_end_of(lossy_text(raw), '\r')
}

pub fn decode_line(raw: &[u8]) -> (r: String)
    ensures
        r@ == line_text(raw@),
{
    let text = from_utf8_lossy(raw);
    trim_end_matches(text.as_str(), '\r')
}

/// Lines put together, one below the other.
pub open spec fn joined(lines: Seq<Seq<char>>) -> Seq<char>
    decreases lines.len(),
{
    if lines.len() == 0 {
        Seq::empty()
    } else if lines.len() == 1 {
        lines[0]
    } else {
        joined(lines.drop_last()) + "\n"@ + lines.last()
    }
}

/// What the data lines of an event come to: the end mark, a JSON value, or nothing.
pub open spec fn flushed(data: Seq<Seq<char>>) -> Option<ItemView> {
    if data.len() == 0 {
        None
    } else if joined(data) == DONE@ {
        Some(ItemView::Done)
    } else {
        match parsed_text(joined(data)) {
            Some(v) => Some(ItemView::Event(v)),
            None => None,
        }
    }
}

/// At most one item, as a sequence.
pub open spec fn at_most_one(item: Option<ItemView>) -> Seq<ItemView> {
    match item {
        Some(i) => seq![i],
        None => Seq::empty(),
    }
}

/// The data that a line carries, if it is a data line.
pub open spec fn line_data(line: Seq<char>) -> Option<Seq<char>> {
    match after_prefix(line, "data:"@) {
        Some(rest) => match after_prefix(rest, " "@) {
            Some(tail) => Some(tail),
            None => Some(rest),
        },
        None => None,
    }
}

/// How far a reader has come: the line that is not complete yet, and the data lines of the
/// event that is not complete yet.
pub struct SseState {
    pub line: Seq<u8>,
    pub data: Seq<Seq<char>>,
}

/// Where a reader starts.
pub open spec fn sse_start() -> SseState {
    SseState { line: Seq::empty(), data: Seq::empty() }
}

/// What a complete line does: an empty one ends the event, a data line adds to it, a comment
/// and any other line do nothing.
pub open spec fn line_step(data: Seq<Seq<char>>, line: Seq<char>) -> (
    Seq<Seq<char>>,
    Seq<ItemView>,
) {
    if line.len() == 0 {
        (Seq::empty(), at_most_one(flushed(data)))
    } else {
        match line_data(line) {
            Some(d) => (data.push(d), Seq::empty()),
            None => (data, Seq::empty()),
        }
    }
}

/// What one byte does: a line feed completes the line.
pub open spec fn byte_step(st: SseState, b: u8) -> (SseState, Seq<ItemView>) {
    if b == 10 {
        let (data, items) = line_step(st.data, line_text(st.line));
        (SseState { line: Seq::empty(), data }, items)
    } else {
        (SseState { line: st.line.push(b), data: st.data }, Seq::empty())
    }
}

/// What a run of bytes does, and the items that it completes.
pub open spec fn sse_run(st: SseState, bytes: Seq<u8>) -> (SseState, Seq<ItemView>)
    decreases bytes.len(),
{
    if bytes.len() == 0 {
        (st, Seq::empty())
    } else {
        let (mid, front) = sse_run(st, bytes.drop_last());
        let (end, back) = byte_step(mid, bytes.last());
        (end, front + back)
    }
}

/// A reader gets the same items however the bytes are cut into chunks.
pub proof fn law_chunking(st: SseState, a: Seq<u8>, b: Seq<u8>)
    ensures
        sse_run(st, a + b).0 == sse_run(sse_run(st, a).0, b).0,
        sse_run(st, a + b).1 == sse_run(st, a).1 + sse_run(sse_run(st, a).0, b).1,
    decreases b.len(),
{
    if b.len() == 0 {
        assert(a + b =~= a);
        assert(sse_run(st, a).1 + Seq::<ItemView>::empty() =~= sse_run(st, a).1);
    } else {
        law_chunking(st, a, b.drop_last());
        assert((a + b).drop_last() =~= a + b.drop_last());
        assert((a + b).last() == b.last());
        assert(sse_run(st, a + b).1 =~= sse_run(st, a).1 + sse_run(sse_run(st, a).0, b).1);
    }
}

fn join_lines(lines: &Vec<String>) -> (r: String)
    ensures
        r@ == joined(texts(lines@)),
{
    let mut out = String::new();
    for i in 0..lines.len()
        invariant
            out@ == joined(texts(lines@.take(i as int))),
    {
        proof {
            let now = texts(lines@.take(i + 1));
            assert(now.drop_last() =~= texts(lines@.take(i as int)));
            assert(now.last() == lines@[i as int]@);
            if i == 0 {
                assert(Seq::<char>::empty() + lines@[0]@ =~= lines@[0]@);
            }
        }
        if i > 0 {
            out.append("\n");
        }
        out.append(lines[i].as_str());
    }
    assert(lines@.take(lines@.len() as int) =~= lines@);
    out
}

/// Completes the event that the data lines make up, and starts the next one.
pub fn flush_event(data_lines: &mut Vec<String>) -> (r: Option<SseItem>)
    ensures
        texts(final(data_lines)@) == Seq::<Seq<char>>::empty(),
        match r {
            Some(item) => flushed(texts(old(data_lines)@)) == Some(item@),
            None => flushed(texts(old(data_lines)@)) is None,
        },
{
    if data_lines.len() == 0 {
        assert(texts(data_lines@) =~= Seq::<Seq<char>>::empty());
        return None;
    }
    let payload = join_lines(data_lines);
    data_lines.clear();
    assert(texts(data_lines@) =~= Seq::<Seq<char>>::empty());
    if same_text(payload.as_str(), DONE) {
        return Some(SseItem::Done);
    }
    match Json::parse(payload.as_str()) {
        Some(ev) => Some(SseItem::Event(ev)),
        None => None,
    }
}

/// A reader of a stream of events that comes in chunks.
pub struct SseParser {
    line: Vec<u8>,
    data: Vec<String>,
}

impl SseParser {
    pub closed spec fn view(&self) -> SseState {
        SseState { line: self.line@, data: texts(self.data@) }
    }

    pub fn new() -> (r: SseParser)
        ensures
            r@ == sse_start(),
    {
        let r = SseParser { line: Vec::new(), data: Vec::new() };
        assert(r@.data =~= Seq::<Seq<char>>::empty());
        r
    }

    /// Takes one byte and appends the item that it completes, if it completes one.
    fn take(&mut self, b: u8, out: &mut Vec<SseItem>)
        ensures
            final(self)@ == byte_step(old(self)@, b).0,
            item_views(final(out)@) == item_views(old(out)@) + byte_step(old(self)@, b).1,
    {
        let ghost before = out@;
        if b != 10 {
            self.line.push(b);
            assert(item_views(out@) =~= item_views(before) + Seq::<ItemView>::empty());
            return;
        }
        let line = decode_line(self.line.as_slice());
        self.line.clear();
        assert(self.line@ =~= Seq::<u8>::empty());
        if line.as_str().is_empty() {
            match flush_event(&mut self.data) {
                Some(item) => {
                    out.push(item);
                    assert(item_views(out@) =~= item_views(before) + seq![item@]);
                },
                None => {
                    assert(item_views(out@) =~= item_views(before) + Seq::<ItemView>::empty());
                },
            }
            return;
        }
        assert(item_views(out@) =~= item_views(before) + Seq::<ItemView>::empty());
        if let Some(rest) = strip_prefix(line.as_str(), "data:") {
            let ghost had = self.data@;
            let d = match strip_prefix(rest.as_str(), " ") {
                Some(tail) => tail,
                None => rest,
            };
            self.data.push(d);
            assert(texts(self.data@) =~= texts(had).push(d@));
        }
    }

    /// Takes the next chunk and gives the items that it completes.
    pub fn push(&mut self, chunk: &[u8]) -> (r: Vec<SseItem>)
        ensures
            final(self)@ == sse_run(old(self)@, chunk@).0,
            item_views(r@) == sse_run(old(self)@, chunk@).1,
    {
        let mut out: Vec<SseItem> = Vec::new();
        assert(item_views(out@) =~= Seq::<ItemView>::empty());
        for i in 0..chunk.len()
            invariant
                self@ == sse_run(old(self)@, chunk@.take(i as int)).0,
                item_views(out@) == sse_run(old(self)@, chunk@.take(i as int)).1,
        {
            assert(chunk@.take(i + 1).drop_last() =~= chunk@.take(i as int));
            self.take(chunk[i], &mut out);
        }
        assert(chunk@.take(chunk@.len() as int) =~= chunk@);
        out
    }

    /// Ends the stream: what is left of an event counts as one, a line that was not completed
    /// does not.
    pub fn finish(&mut self) -> (r: Option<SseItem>)
        ensures
            final(self)@ == (SseState { line: old(self)@.line, data: Seq::empty() }),
            match r {
                Some(item) => flushed(old(self)@.data) == Some(item@),
                None => flushed(old(self)@.data) is None,
            },
    {
        flush_event(&mut self.data)
    }
}

/// Items that were read without an error.
pub open spec fn all_read(items: Seq<ItemView>) -> Seq<Result<ItemView, Seq<char>>> {
    items.map_values(|i: ItemView| Ok::<ItemView, Seq<char>>(i))
}

/// What a list of results stands for.
pub open spec fn result_views(items: Seq<Result<SseItem, String>>) -> Seq<
    Result<ItemView, Seq<char>>,
> {
    items.map_values(
        |r: Result<SseItem, String>|
            match r {
                Ok(i) => Ok::<ItemView, Seq<char>>(i@),
                Err(e) => Err::<ItemView, Seq<char>>(e@),
            },
    )
}

/// What comes of the chunks of a stream: their items, up to the first chunk that could not be
/// received, whose error is the last thing reported.
pub open spec fn received(st: SseState, chunks: Seq<Result<Vec<u8>, String>>) -> Seq<
    Result<ItemView, Seq<char>>,
>
    decreases chunks.len(),
{
    if chunks.len() == 0 {
        all_read(at_most_one(flushed(st.data)))
    } else {
        match chunks[0] {
            Ok(bytes) => all_read(sse_run(st, bytes@).1) + received(
                sse_run(st, bytes@).0,
                chunks.drop_first(),
            ),
            Err(e) => seq![Err::<ItemView, Seq<char>>(e@)],
        }
    }
}

/// The bytes of a list of chunks.
pub open spec fn all_bytes(chunks: Seq<Result<Vec<u8>, String>>) -> Seq<u8>
    decreases chunks.len(),
{
    if chunks.len() == 0 {
        Seq::empty()
    } else {
        chunks[0]->Ok_0@ + all_bytes(chunks.drop_first())
    }
}

/// Of a stream that is received without an error only the bytes matter, not how they were cut
/// into chunks.
pub proof fn law_received(st: SseState, chunks: Seq<Result<Vec<u8>, String>>)
    requires
        forall|i: int| 0 <= i < chunks.len() ==> #[trigger] chunks[i] is Ok,
    ensures
        received(st, chunks) == all_read(
            sse_run(st, all_bytes(chunks)).1 + at_most_one(
                flushed(sse_run(st, all_bytes(chunks)).0.data),
            ),
        ),
    decreases chunks.len(),
{
    if chunks.len() == 0 {
        assert(Seq::<ItemView>::empty() + at_most_one(flushed(st.data)) =~= at_most_one(
            flushed(st.data),
        ));
    } else {
        let first = chunks[0]->Ok_0@;
        let rest = all_bytes(chunks.drop_first());
        assert(chunks[0] is Ok);
        assert forall|i: int| 0 <= i < chunks.drop_first().len() implies #[trigger]
            chunks.drop_first()[i] is Ok by {
            assert(chunks[i + 1] is Ok);
        }
        law_received(sse_run(st, first).0, chunks.drop_first());
        law_chunking(st, first, rest);
        assert(received(st, chunks) =~= all_read(
            sse_run(st, all_bytes(chunks)).1 + at_most_one(
                flushed(sse_run(st, all_bytes(chunks)).0.data),
            ),
        ));
    }
}

/// Reads a stream that came in chunks.
pub fn incremental_sse(chunks: &Vec<Result<Vec<u8>, String>>) -> (r: Vec<Result<SseItem, String>>)
    ensures
        result_views(r@) == received(sse_start(), chunks@),
{
    let mut parser = SseParser::new();
    let mut out: Vec<Result<SseItem, String>> = Vec::new();
    assert(chunks@.skip(0) =~= chunks@);
    assert(result_views(out@) + received(sse_start(), chunks@) =~= received(
        sse_start(),
        chunks@,
    ));
    for i in 0..chunks.len()
        invariant
            result_views(out@) + received(parser@, chunks@.skip(i as int)) == received(
                sse_start(),
                chunks@,
            ),
    {
        let ghost st = parser@;
        let ghost before = out@;
        let ghost rest = chunks@.skip(i + 1);
        assert(chunks@.skip(i as int).drop_first() =~= rest);
        match &chunks[i] {
            Ok(bytes) => {
                let items = parser.push(bytes.as_slice());
                let ghost views = item_views(items@);
                for item in it: items
                    invariant
                        it.seq() == items@,
                        views == item_views(items@),
                        result_views(out@) == result_views(before) + all_read(
                            views.take(it.index() as int),
                        ),
                {
                    let ghost had = out@;
                    out.push(Ok(item));
                    proof {
                        assert(views.take(it.index() + 1) =~= views.take(it.index() as int).push(
                            item@,
                        ));
                        assert(result_views(out@) =~= result_views(had).push(
                            Ok::<ItemView, Seq<char>>(item@),
                        ));
                        assert(result_views(out@) =~= result_views(before) + all_read(
                            views.take(it.index() + 1),
                        ));
                    }
                }
                proof {
                    assert(views.take(views.len() as int) =~= views);
                    assert(result_views(out@) + received(parser@, rest) =~= result_views(before)
                        + received(st, chunks@.skip(i as int)));
                }
            },
            Err(e) => {
                out.push(Err(e.clone()));
                assert(result_views(out@) =~= result_views(before) + seq![
                    Err::<ItemView, Seq<char>>(e@),
                ]);
                return out;
            },
        }
    }
    let ghost before = out@;
    assert(chunks@.skip(chunks@.len() as int).len() == 0);
    match parser.finish() {
        Some(item) => {
            out.push(Ok(item));
            assert(result_views(out@) =~= result_views(before) + all_read(seq![item@]));
        },
        None => {
            assert(result_views(out@) =~= result_views(before) + all_read(Seq::empty()));
        },
    }
    out
}

/// The name of an event: the text of its `type` field.
pub open spec fn event_name(ev: JsonView) -> Seq<char> {
    match opt_str(ev.get("type"@)) {
        Some(t) => t,
        None => "message"@,
    }
}

/// The text of a frame that carries `data` under an event name.
pub open spec fn frame_text(name: Seq<char>, data: Seq<char>) -> Seq<char> {
    "event: "@ + name + "\ndata: "@ + data + "\n\n"@
}

/// The bytes of the frame that carries an event.
pub open spec fn event_bytes(ev: JsonView) -> Seq<u8> {
    encode_utf8(frame_text(event_name(ev), json_text(ev)))
}

/// Whether an event can be read back from its frame: it is a value that JSON can carry, and its
/// name is one line.
pub open spec fn readable(ev: JsonView) -> bool {
    &&& plain(ev, MAX_DEPTH as nat)
    &&& forall|i: int| 0 <= i < event_name(ev).len() ==> #[trigger] event_name(ev)[i] != '\n'
}

/// A run of bytes without a line feed only lengthens the line.
proof fn lemma_run_within_line(st: SseState, bytes: Seq<u8>)
    requires
        forall|i: int| 0 <= i < bytes.len() ==> #[trigger] bytes[i] != 10,
    ensures
        sse_run(st, bytes).0 == (SseState { line: st.line + bytes, data: st.data }),
        sse_run(st, bytes).1 == Seq::<ItemView>::empty(),
    decreases bytes.len(),
{
    if bytes.len() == 0 {
        assert(st.line + bytes =~= st.line);
    } else {
        lemma_run_within_line(st, bytes.drop_last());
        assert((st.line + bytes.drop_last()).push(bytes.last()) =~= st.line + bytes);
        assert(Seq::<ItemView>::empty() + Seq::<ItemView>::empty() =~= Seq::<ItemView>::empty());
    }
}

/// A line of text followed by a line feed is taken as that line.
proof fn lemma_run_line(data: Seq<Seq<char>>, line: Seq<char>)
    requires
        forall|i: int| 0 <= i < line.len() ==> #[trigger] line[i] != '\n',
    ensures
        ({
            let st = SseState { line: Seq::empty(), data };
            let after = line_step(data, trim_end_of(line, '\r'));
            &&& sse_run(st, encode_utf8(line + seq!['\n'])).0 == (SseState {
                line: Seq::empty(),
                data: after.0,
            })
            &&& sse_run(st, encode_utf8(line + seq!['\n'])).1 == after.1
        }),
{
    broadcast use {encode_utf8_decode_utf8, encode_utf8_valid_utf8};

    let st = SseState { line: Seq::empty(), data };
    let bytes = encode_utf8(line);
    lemma_encode_concat(line, seq!['\n']);
    lemma_encode_no_line_feed(line);
    lemma_run_within_line(st, bytes);
    assert(st.line + bytes =~= bytes);
    assert(encode_utf8(seq!['\n']) =~= seq![10u8]) by {
        assert(is_ascii_chars(seq!['\n']));
        is_ascii_chars_encode_utf8(seq!['\n']);
    }
    assert((bytes + seq![10u8]).drop_last() =~= bytes);
    assert((bytes + seq![10u8]).last() == 10);
    let after = line_step(data, trim_end_of(line, '\r'));
    assert(Seq::<ItemView>::empty() + after.1 =~= after.1);
}

/// Reading the frame of an event gives the event back, and nothing else.
proof fn lemma_read_back(ev: JsonView, text: Seq<char>)
    requires
        readable(ev),
        is_text_of(text, ev),
    ensures
        sse_run(sse_start(), event_bytes(ev)).0 == sse_start(),
        sse_run(sse_start(), event_bytes(ev)).1 == seq![ItemView::Event(ev)],
{
    reveal_strlit("event: ");
    reveal_strlit("\ndata: ");
    reveal_strlit("\n\n");
    reveal_strlit("data:");
    reveal_strlit(" ");
    reveal_strlit("[DONE]");
    let name = event_name(ev);
    let nl = seq!['\n'];
    let l1 = "event: "@ + name;
    let l2 = "data: "@ + text;
    reveal_strlit("data: ");
    let none = Seq::<char>::empty();
    let whole = frame_text(name, text);
    assert(whole =~= (l1 + nl) + ((l2 + nl) + (none + nl)));
    let b1 = encode_utf8(l1 + nl);
    let b2 = encode_utf8(l2 + nl);
    let b3 = encode_utf8(none + nl);
    lemma_encode_concat(l1 + nl, (l2 + nl) + (none + nl));
    lemma_encode_concat(l2 + nl, none + nl);
    assert(event_bytes(ev) == b1 + (b2 + b3));
    let s0 = sse_start();
    law_chunking(s0, b1, b2 + b3);
    // the name line does nothing
    assert forall|i: int| 0 <= i < l1.len() implies #[trigger] l1[i] != '\n' by {
        if i >= 7 {
            assert(l1[i] == name[i - 7]);
        }
    }
    lemma_run_line(Seq::empty(), l1);
    let t1 = trim_end_of(l1, '\r');
    lemma_trim_end_keeps(l1, '\r', 7);
    assert(t1.take(7)[0] == t1[0]);
    assert(l1.take(7)[0] == 'e');
    assert(t1[0] == 'e');
    assert(after_prefix(t1, "data:"@) is None) by {
        if t1.len() >= 5 {
            assert(t1.subrange(0, 5)[0] == t1[0]);
        }
    }
    assert(sse_run(s0, b1).0 == s0);
    assert(sse_run(s0, b1).1 =~= Seq::<ItemView>::empty());
    // the data line adds the text
    law_chunking(s0, b2, b3);
    assert forall|i: int| 0 <= i < l2.len() implies #[trigger] l2[i] != '\n' by {
        if i >= 6 {
            assert(l2[i] == text[i - 6]);
        }
    }
    lemma_run_line(Seq::empty(), l2);
    if text.len() > 0 {
        assert(l2.last() == text.last());
        assert(text[text.len() - 1] != '\r');
    }
    assert(trim_end_of(l2, '\r') == l2);
    let rest = l2.subrange(5, l2.len() as int);
    assert(l2.subrange(0, 5) =~= "data:"@);
    assert(after_prefix(l2, "data:"@) == Some(rest));
    assert(rest.subrange(0, 1) =~= " "@);
    assert(rest.subrange(1, rest.len() as int) =~= text);
    assert(line_data(l2) == Some(text));
    let s2 = SseState { line: Seq::empty(), data: seq![text] };
    assert(Seq::<Seq<char>>::empty().push(text) =~= seq![text]);
    assert(sse_run(s0, b2).0 == s2);
    // the empty line completes the event
    lemma_run_line(seq![text], none);
    assert(joined(seq![text]) == text);
    assert(sse_run(s2, b3).0 == s0);
    assert(sse_run(s2, b3).1 == seq![ItemView::Event(ev)]);
    assert(sse_run(s0, event_bytes(ev)).1 =~= seq![ItemView::Event(ev)]);
}

/// The frame that carries an event.
///
/// Reading the frame gives the event back, where the event can be read back at all.
pub fn serialize_event(event: &Json) -> (r: Vec<u8>)
    ensures
        r@ == event_bytes(event@),
        readable(event@) ==> sse_run(sse_start(), r@) == (
            sse_start(),
            seq![ItemView::Event(event@)],
        ),
{
    let name = match event.get("type") {
        Some(t) => match t.as_str() {
            Some(s) => s,
            None => "message",
        },
        None => "message",
    };
    let data = event.print();
    let mut out = "event: ".to_owned();
    out.append(name);
    out.append("\ndata: ");
    out.append(data.as_str());
    out.append("\n\n");
    proof {
        if readable(event@) {
            lemma_read_back(event@, data@);
        }
    }
    out.as_str().as_bytes_vec()
}

/// The bytes of the frame that ends a stream.
pub open spec fn done_bytes() -> Seq<u8> {
    encode_utf8("data: [DONE]\n\n"@)
}

/// The frame that ends a stream. Reading it gives the end mark back.
pub fn serialize_done() -> (r: Vec<u8>)
    ensures
        r@ == done_bytes(),
        sse_run(sse_start(), r@) == (sse_start(), seq![ItemView::Done]),
{
    proof {
        lemma_done_read_back();
    }
    "data: [DONE]\n\n".as_bytes_vec()
}

proof fn lemma_done_read_back()
    ensures
        sse_run(sse_start(), done_bytes()) == (sse_start(), seq![ItemView::Done]),
{
    reveal_strlit("data: [DONE]\n\n");
    reveal_strlit("data: [DONE]");
    reveal_strlit("data:");
    reveal_strlit(" ");
    reveal_strlit("[DONE]");
    let nl = seq!['\n'];
    let line = "data: [DONE]"@;
    let none = Seq::<char>::empty();
    assert("data: [DONE]\n\n"@ =~= (line + nl) + (none + nl));
    lemma_encode_concat(line + nl, none + nl);
    let s0 = sse_start();
    law_chunking(s0, encode_utf8(line + nl), encode_utf8(none + nl));
    lemma_run_line(Seq::empty(), line);
    assert(trim_end_of(line, '\r') == line);
    let rest = line.subrange(5, line.len() as int);
    assert(line.subrange(0, 5) =~= "data:"@);
    assert(after_prefix(line, "data:"@) == Some(rest));
    assert(rest.subrange(0, 1) =~= " "@);
    assert(rest.subrange(1, rest.len() as int) =~= DONE@);
    assert(line_data(line) == Some(DONE@));
    assert(Seq::<Seq<char>>::empty().push(DONE@) =~= seq![DONE@]);
    lemma_run_line(seq![DONE@], none);
    assert(joined(seq![DONE@]) == DONE@);
    assert(sse_run(s0, done_bytes()).1 =~= seq![ItemView::Done]);
}

/// Frames that are read on their own are read one after the other.
proof fn lemma_frames_in_a_row(frames: Seq<Seq<u8>>, items: Seq<ItemView>)
    requires
        frames.len() == items.len(),
        forall|i: int|
            0 <= i < frames.len() ==> sse_run(sse_start(), #[trigger] frames[i]) == (
                sse_start(),
                seq![items[i]],
            ),
    ensures
        sse_run(sse_start(), frames.flatten()) == (sse_start(), items),
    decreases frames.len(),
{
    if frames.len() == 0 {
        assert(items =~= Seq::empty());
    } else {
        let rest = frames.drop_first();
        assert forall|i: int| 0 <= i < rest.len() implies sse_run(
            sse_start(),
            #[trigger] rest[i],
        ) == (sse_start(), seq![items.drop_first()[i]]) by {
            assert(rest[i] == frames[i + 1]);
        }
        lemma_frames_in_a_row(rest, items.drop_first());
        assert(sse_run(sse_start(), frames[0]) == (sse_start(), seq![items[0]]));
        law_chunking(sse_start(), frames[0], rest.flatten());
        assert(seq![items[0]] + items.drop_first() =~= items);
    }
}

/// Frames that are each read as one item are read as these items and nothing else, however their
/// bytes are cut into chunks. The frames that [`serialize_event`] and [`serialize_done`] write are
/// such frames.
pub proof fn law_read_back(
    frames: Seq<Seq<u8>>,
    items: Seq<ItemView>,
    chunks: Seq<Result<Vec<u8>, String>>,
)
    requires
        frames.len() == items.len(),
        forall|i: int|
            0 <= i < frames.len() ==> sse_run(sse_start(), #[trigger] frames[i]) == (
                sse_start(),
                seq![items[i]],
            ),
        forall|i: int| 0 <= i < chunks.len() ==> #[trigger] chunks[i] is Ok,
        all_bytes(chunks) == frames.flatten(),
    ensures
        received(sse_start(), chunks) == all_read(items),
{
    lemma_frames_in_a_row(frames, items);
    law_received(sse_start(), chunks);
    assert(items + at_most_one(flushed(sse_start().data)) =~= items);
}

/// A data line carries what stands behind its name, without one space before it; any other line
/// carries nothing.
pub proof fn law_data_line(data: Seq<Seq<char>>, rest: Seq<char>, line: Seq<char>)
    ensures
        rest.len() == 0 || rest[0] != ' ' ==> line_step(data, "data:"@ + rest) == (
            data.push(rest),
            Seq::<ItemView>::empty(),
        ),
        line_step(data, "data: "@ + rest) == (data.push(rest), Seq::<ItemView>::empty()),
        line.len() > 0 && (line.len() < 5 || line.take(5) != "data:"@) ==> line_step(data, line)
            == (data, Seq::<ItemView>::empty()),
{
    reveal_strlit("data:");
    reveal_strlit("data: ");
    reveal_strlit(" ");
    assert("data:"@.len() == 5);
    assert(" "@.len() == 1);
    assert(" "@[0] == ' ');
    assert("data: "@ =~= "data:"@ + " "@);
    law_prefix("data:"@ + rest, "data:"@, rest);
    assert("data: "@ + rest =~= "data:"@ + (" "@ + rest));
    law_prefix("data:"@ + (" "@ + rest), "data:"@, " "@ + rest);
    law_prefix(" "@ + rest, " "@, rest);
    if after_prefix(rest, " "@) is Some {
        assert(rest.subrange(0, 1)[0] == ' ');
    }
    if after_prefix(line, "data:"@) is Some {
        assert(line.take(5) =~= line.subrange(0, 5));
    }
}

/// An empty line ends an event: its data lines, put together, are the end mark, or a value, or
/// nothing that counts; and the next event begins without data.
pub proof fn law_empty_line(data: Seq<Seq<char>>, value: JsonView)
    ensures
        ({
            let (rest, items) = line_step(data, Seq::empty());
            &&& rest.len() == 0
            &&& data.len() == 0 ==> items.len() == 0
            &&& data.len() > 0 && joined(data) == "[DONE]"@ ==> items == seq![ItemView::Done]
            &&& data.len() > 0 && joined(data) != "[DONE]"@ && parsed_text(joined(data)) == Some(
                value,
            ) ==> items == seq![ItemView::Event(value)]
            &&& data.len() > 0 && joined(data) != "[DONE]"@ && parsed_text(joined(data)) is None
                ==> items.len() == 0
        }),
{
}

/// Lines that are put together stand one below the other.
pub proof fn law_joined(lines: Seq<Seq<char>>, line: Seq<char>)
    ensures
        joined(seq![line]) == line,
        lines.len() > 0 ==> joined(lines.push(line)) == joined(lines).push('\n') + line,
{
    assert(lines.push(line).drop_last() =~= lines);
    reveal_strlit("\n");
    assert("\n"@ =~= seq!['\n']);
    if lines.len() > 0 {
        assert(joined(lines.push(line)) =~= joined(lines).push('\n') + line);
    }
}

/// A line of text does the same whether it ends in a line feed, or in a carriage return and a line
/// feed; and it does what its text does.
pub proof fn law_line_ends(data: Seq<Seq<char>>, line: Seq<char>)
    requires
        forall|i: int| 0 <= i < line.len() ==> #[trigger] line[i] != '\n' && line[i] != '\r',
    ensures
        ({
            let st = SseState { line: Seq::empty(), data };
            let (rest, items) = line_step(data, line);
            &&& sse_run(st, encode_utf8(line.push('\n'))) == (
                SseState { line: Seq::empty(), data: rest },
                items,
            )
            &&& sse_run(st, encode_utf8(line.push('\r').push('\n'))) == sse_run(
                st,
                encode_utf8(line.push('\n')),
            )
        }),
{
    law_trim_end(line, '\r');
    law_trim_end(line.push('\r'), '\r');
    let with = line.push('\r');
    assert(trim_end_of(line, '\r') =~= line);
    assert(with.drop_last() =~= line);
    assert(trim_end_of(with, '\r') == line);
    lemma_run_line(data, line);
    lemma_run_line(data, with);
    assert(line + seq!['\n'] =~= line.push('\n'));
    assert(with + seq!['\n'] =~= with.push('\n'));
}

/// A frame names the type of its event; an event without one is a message.
pub proof fn law_frame_name(ev: JsonView, t: Seq<char>)
    requires
        ev.get("type"@) == Some(JsonView::Text(t)) || (t == "message"@ && !(ev.get("type"@) is Some
            && ev.get("type"@)->Some_0 is Text)),
    ensures
        ({
            let text = decode_utf8(event_bytes(ev));
            &&& after_prefix(text, "event: "@ + t + "\n"@) is Some
            &&& has_suffix(text, "data: "@ + json_text(ev) + "\n\n"@)
        }),
{
    broadcast use encode_utf8_decode_utf8;

    let text = frame_text(t, json_text(ev));
    reveal_strlit("\ndata: ");
    reveal_strlit("\n");
    reveal_strlit("data: ");
    assert("\ndata: "@ =~= "\n"@ + "data: "@);
    let head = "event: "@ + t + "\n"@;
    let tail = "data: "@ + json_text(ev) + "\n\n"@;
    assert(text =~= head + tail);
    law_prefix(text, head, tail);
    law_suffix(head, tail);
}

/// A chunk that could not be received ends what is received: what came before it has been
/// reported, its error comes last, and what follows it does not count.
pub proof fn law_received_error(
    st: SseState,
    good: Seq<Result<Vec<u8>, String>>,
    bad: Result<Vec<u8>, String>,
    rest: Seq<Result<Vec<u8>, String>>,
)
    requires
        forall|i: int| 0 <= i < good.len() ==> #[trigger] good[i] is Ok,
        bad is Err,
    ensures
        received(st, good + seq![bad] + rest) == all_read(sse_run(st, all_bytes(good)).1).push(
            Err(bad->Err_0@),
        ),
    decreases good.len(),
{
    let all = good + seq![bad] + rest;
    if good.len() == 0 {
        assert(all[0] == bad);
        assert(received(st, all) =~= all_read(sse_run(st, all_bytes(good)).1).push(
            Err(bad->Err_0@),
        ));
    } else {
        let first = good[0]->Ok_0@;
        let tail = good.drop_first();
        assert(good[0] is Ok);
        assert(all[0] == good[0]);
        assert(all.drop_first() =~= tail + seq![bad] + rest);
        assert forall|i: int| 0 <= i < tail.len() implies #[trigger] tail[i] is Ok by {
            assert(good[i + 1] is Ok);
        }
        let mid = sse_run(st, first).0;
        law_received_error(mid, tail, bad, rest);
        law_chunking(st, first, all_bytes(tail));
        assert(received(st, all) =~= all_read(sse_run(st, all_bytes(good)).1).push(
            Err(bad->Err_0@),
        ));
    }
}

/// The bytes up to a line feed are one line, whatever they are: bytes that are UTF-8 are read as
/// they are, others with what stands for them, and carriage returns at the end do not count.
pub proof fn law_raw_line(data: Seq<Seq<char>>, raw: Seq<u8>)
    requires
        forall|i: int| 0 <= i < raw.len() ==> #[trigger] raw[i] != 10,
    ensures
        ({
            let st = SseState { line: Seq::empty(), data };
            let text = if valid_utf8(raw) {
                decode_utf8(raw)
            } else {
                repaired_text(raw)
            };
            let (rest, items) = line_step(data, trim_end_of(text, '\r'));
            &&& sse_run(st, raw).0.data == data
            &&& sse_run(st, raw).1.len() == 0
            &&& sse_run(st, raw.push(10)) == (SseState { line: Seq::empty(), data: rest }, items)
        }),
{
    let st = SseState { line: Seq::empty(), data };
    lemma_run_within_line(st, raw);
    assert(st.line + raw =~= raw);
    assert(raw.push(10).drop_last() =~= raw);
    let items = line_step(data, line_text(raw)).1;
    assert(Seq::<ItemView>::empty() + items =~= items);
}

} // verus!
