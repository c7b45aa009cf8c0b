//! Folding the streams of several upstream rounds into one response.
use vstd::prelude::*;
use vstd::string::*;

use crate::answer::{
    commentary_events, commentary_events_of, flush_entry, released, BufferEntry, EntryView,
};
use crate::codex::{
    build_round_payload, commentary_message, continue_pair, is_countable, is_truncation_pattern,
    output_text_list, reasoning_tokens, should_continue, tier_n,
};
use crate::config::Config;
use crate::events::{
    clone_or_empty, ev_type, is_terminal, lemma_nth_after_add, lemma_numbered_concat, nth_after,
    numbered, output_key, push_numbered, set_i64, Counter,
};
use crate::json::{
    copies, lemma_views, lemma_views_concat, lemma_views_push, opt_view, owned_view, views, Json,
    JsonView,
};
use crate::lines::{
    log_continue, log_eof, log_open_failed, log_opened, log_refused, log_round, log_stopped,
    log_stream_error, open_failed_line, refused_line, round_line, stream_error_line, tag_of,
};
use crate::logging::Level;
use crate::model::{
    after_events, broken, buffered_event, continued, counted, ended, entry_place, final_events,
    finish_round, fold_start, fold_step, goes_on, has_encrypted, item_added, items_of, last_id,
    marker, opening_event, opt_int, opt_json, reasoning_event, released_all, request_input,
    round_log, round_start, round_tier, round_tokens, round_usage, sends, stop_reason, take_chunk,
    take_end, take_event, take_item, take_items, take_opened, told_comment, with_event, FoldView,
    InputView, Kind, Phase, RoundView, StepView,
};
use crate::response::{opt_text, reconstruct_terminal, synthetic_incomplete};
use crate::sse::{
    all_bytes, at_most_one, done_bytes, event_bytes, flushed, item_views, law_chunking, readable,
    serialize_done, serialize_event, sse_run, sse_start, ItemView, SseItem, SseParser, SseState,
};
use crate::text::{decimal_u64, same_text};
use crate::usage::{agent_usage, number, sum_usage};

verus! {

/// What a list of items and their kinds stands for: a later one takes the place of an earlier one.
pub open spec fn kind_map(es: Seq<(String, Kind)>) -> Map<Seq<char>, Kind>
    decreases es.len(),
{
    if es.len() == 0 {
        Map::empty()
    } else {
        kind_map(es.drop_last()).insert(es.last().0@, es.last().1)
    }
}

/// The entries that a list of [`BufferEntry`] stands for.
pub open spec fn entry_views(es: Seq<BufferEntry>) -> Seq<EntryView> {
    es.map_values(|e: BufferEntry| e.view())
}

/// The kind of the item under a key.
fn kind_of(es: &Vec<(String, Kind)>, key: &str) -> (r: Option<Kind>)
    ensures
        match r {
            Some(k) => kind_map(es@).contains_key(key@) && kind_map(es@)[key@] == k,
            None => !kind_map(es@).contains_key(key@),
        },
{
    let mut i: usize = es.len();
    assert(es@.take(es@.len() as int) =~= es@);
    while i > 0
        invariant
            i <= es.len(),
            kind_map(es@).contains_key(key@) == kind_map(es@.take(i as int)).contains_key(key@),
            kind_map(es@).contains_key(key@) ==> kind_map(es@)[key@] == kind_map(
                es@.take(i as int),
            )[key@],
        decreases i,
    {
        let ghost now = es@.take(i as int);
        i = i - 1;
        proof {
            assert(now.drop_last() =~= es@.take(i as int));
            assert(now.last() == es@[i as int]);
        }
        if same_text(es[i].0.as_str(), key) {
            return Some(es[i].1);
        }
    }
    assert(es@.take(0) =~= Seq::empty());
    None
}

/// The current round of a fold.
pub struct Round {
    kinds: Vec<(String, Kind)>,
    buffer: Vec<BufferEntry>,
    reasoning: Vec<Json>,
    terminal: Option<Json>,
    parser: SseParser,
}

impl Round {
    pub closed spec fn view(&self) -> RoundView {
        RoundView {
            kinds: kind_map(self.kinds@),
            buffer: entry_views(self.buffer@),
            reasoning: views(self.reasoning@),
            terminal: owned_view(self.terminal),
            parser: self.parser@,
        }
    }

    fn new() -> (r: Round)
        ensures
            r@ == round_start(),
    {
        let r = Round {
            kinds: Vec::new(),
            buffer: Vec::new(),
            reasoning: Vec::new(),
            terminal: None,
            parser: SseParser::new(),
        };
        assert(r@ =~= round_start());
        r
    }
}

/// A fold of upstream rounds into one response.
pub struct Fold {
    body: Json,
    rid: String,
    phase: Phase,
    round_no: usize,
    seq: Counter,
    ds_oi: i64,
    base: Option<Json>,
    saw_done: bool,
    output: Vec<Json>,
    total: Json,
    first: Option<Json>,
    replay: Vec<Json>,
    rounds: Vec<Json>,
    round: Round,
}

/// What a fold asks for: messages to log, a reasoning id to remember, events to send, the end
/// mark to send after them, and the request that opens the next round.
pub struct Step {
    pub logs: Vec<(Level, String)>,
    pub remember: Option<String>,
    pub events: Vec<Json>,
    pub done: bool,
    pub open: Option<Json>,
}

/// Messages for the log.
pub open spec fn log_views(logs: Seq<(Level, String)>) -> Seq<(Level, Seq<char>)> {
    logs.map_values(|l: (Level, String)| (l.0, l.1@))
}

impl Step {
    pub open spec fn view(&self) -> StepView {
        StepView {
            logs: log_views(self.logs@),
            remember: match self.remember {
                Some(id) => Some(id@),
                None => None,
            },
            events: views(self.events@),
            done: self.done,
            open: owned_view(self.open),
        }
    }
}

/// What happens upstream.
pub enum Input {
    Chunk(Vec<u8>),
    EndOfBody,
    BodyFailed,
    Opened(u16),
    OpenFailed(String),
}

impl Input {
    pub open spec fn view(&self) -> InputView {
        match self {
            Input::Chunk(bytes) => InputView::Chunk(bytes@),
            Input::EndOfBody => InputView::EndOfBody,
            Input::BodyFailed => InputView::BodyFailed,
            Input::Opened(status) => InputView::Opened(*status),
            Input::OpenFailed(error) => InputView::OpenFailed(error@),
        }
    }
}

/// A copy of the input list of a request.
pub fn array_clone(v: Option<&Json>) -> (r: Vec<Json>)
    ensures
        views(r@) == (match opt_view(v) {
            Some(JsonView::Array(xs)) => xs,
            _ => Seq::empty(),
        }),
{
    if let Some(j) = v {
        if let Some(xs) = j.as_array() {
            return copies(xs);
        }
    }
    Vec::new()
}

/// Appends values.
fn append_all(out: &mut Vec<Json>, more: Vec<Json>)
    ensures
        views(final(out)@) == views(old(out)@) + views(more@),
{
    let mut more = more;
    proof {
        lemma_views_concat(out@, more@);
    }
    out.append(&mut more);
}

impl Fold {
    pub closed spec fn view(&self) -> FoldView {
        FoldView {
            body: self.body@,
            rid: self.rid@,
            phase: self.phase,
            round_no: self.round_no,
            seq: self.seq.n,
            ds_oi: self.ds_oi,
            base: owned_view(self.base),
            saw_done: self.saw_done,
            output: views(self.output@),
            total: self.total@,
            first: owned_view(self.first),
            replay: views(self.replay@),
            rounds: views(self.rounds@),
            round: self.round@,
        }
    }

    /// A fold whose first round is open.
    pub fn new(body: Json, request_id: Option<u64>) -> (r: Fold)
        ensures
            r@ == fold_start(body@, request_id),
    {
        let r = Fold {
            body,
            rid: tag_of(request_id),
            phase: Phase::Reading,
            round_no: 1,
            seq: Counter { n: 0 },
            ds_oi: 0,
            base: None,
            saw_done: false,
            output: Vec::new(),
            total: Json::object(),
            first: None,
            replay: Vec::new(),
            rounds: Vec::new(),
            round: Round::new(),
        };
        assert(r@ =~= fold_start(body@, request_id));
        r
    }

    /// What the fold waits for.
    pub fn phase(&self) -> (r: Phase)
        ensures
            r == self@.phase,
    {
        self.phase
    }

    /// The number of the current round.
    pub fn round_no(&self) -> (r: usize)
        ensures
            r == self@.round_no,
    {
        self.round_no
    }

    fn next_oi(&mut self) -> (r: i64)
        ensures
            r == old(self)@.ds_oi,
            final(self)@ == (FoldView { ds_oi: nth_after(old(self)@.ds_oi, 1), ..old(self)@ }),
    {
        let oi = self.ds_oi;
        self.ds_oi = oi.wrapping_add(1);
        assert(nth_after(oi, 1) == nth_after(oi, 0).wrapping_add(1));
        oi
    }

    fn on_opening(&mut self, ev: Json, out: &mut Vec<Json>)
        ensures
            final(self)@ == opening_event(old(self)@, ev@).0,
            views(final(out)@) == views(old(out)@) + opening_event(old(self)@, ev@).1,
    {
        if self.round_no == 1 {
            if same_text(ev_type(&ev), "response.created") {
                self.base = Some(clone_or_empty(ev.get("response")));
            }
            push_numbered(out, ev, &mut self.seq);
        } else {
            assert(views(out@) + Seq::<JsonView>::empty() =~= views(out@));
        }
    }

    fn on_added(&mut self, ev: Json, out: &mut Vec<Json>)
        ensures
            final(self)@ == item_added(old(self)@, ev@).0,
            views(final(out)@) == views(old(out)@) + item_added(old(self)@, ev@).1,
    {
        let key = output_key(&ev);
        let item = clone_or_empty(ev.get("item"));
        let itype = match item.get("type") {
            Some(t) => t.as_str(),
            None => None,
        };
        let reasoning = match itype {
            Some(t) => same_text(t, "reasoning"),
            None => false,
        };
        if reasoning {
            let mut ev = ev;
            let oi = self.next_oi();
            let ghost kinds = self.round.kinds@;
            set_i64(&mut ev, "output_index", oi);
            self.round.kinds.push((key, Kind::Reasoning(oi)));
            assert(self.round.kinds@.drop_last() =~= kinds);
            push_numbered(out, ev, &mut self.seq);
        } else {
            let itype = match itype {
                Some(t) => t.to_owned(),
                None => "".to_owned(),
            };
            let ghost kinds = self.round.kinds@;
            self.round.kinds.push((key.clone(), Kind::Buffered));
            assert(self.round.kinds@.drop_last() =~= kinds);
            let ghost buffer = self.round.buffer@;
            let ghost first = ev@;
            let events = vec![ev];
            proof {
                lemma_views(events@);
                assert(views(events@) =~= seq![first]);
            }
            let entry = BufferEntry { oi: key, itype, events, item };
            self.round.buffer.push(entry);
            proof {
                assert(entry_views(self.round.buffer@) =~= entry_views(buffer).push(entry@));
                assert(views(out@) + Seq::<JsonView>::empty() =~= views(out@));
            }
        }
    }

    fn on_reasoning(&mut self, ev: Json, oi: i64, out: &mut Vec<Json>)
        ensures
            final(self)@ == reasoning_event(old(self)@, ev@, oi).0,
            views(final(out)@) == views(old(out)@) + reasoning_event(old(self)@, ev@, oi).1,
    {
        let mut ev = ev;
        if same_text(ev_type(&ev), "response.output_item.done") {
            let item = clone_or_empty(ev.get("item"));
            let copy = item.clone();
            proof {
                lemma_views_push(self.round.reasoning@, item);
                lemma_views_push(self.output@, copy);
            }
            self.round.reasoning.push(item);
            self.output.push(copy);
        }
        set_i64(&mut ev, "output_index", oi);
        push_numbered(out, ev, &mut self.seq);
    }

    fn on_buffered(&mut self, ev: Json, key: &str)
        requires
            key@ == crate::events::index_key(ev@),
        ensures
            final(self)@ == buffered_event(old(self)@, ev@),
    {
        let ghost all = entry_views(self.round.buffer@);
        let n: usize = self.round.buffer.len();
        let mut i: usize = 0;
        assert(all.skip(0) =~= all);
        while i < n && !same_text(self.round.buffer[i].oi.as_str(), key)
            invariant
                i <= n,
                n == self.round.buffer.len(),
                all == entry_views(self.round.buffer@),
                entry_place(all, key@) == i + entry_place(all.skip(i as int), key@),
            decreases n - i,
        {
            assert(all.skip(i as int)[0] == all[i as int]);
            assert(all.skip(i as int).drop_first() =~= all.skip(i + 1));
            i = i + 1;
        }
        if i < n {
            assert(all.skip(i as int)[0] == all[i as int]);
            if same_text(ev_type(&ev), "response.output_item.done") {
                if let Some(item) = ev.get("item") {
                    self.round.buffer[i].item = item.clone();
                }
            }
            proof {
                lemma_views_push(self.round.buffer@[i as int].events@, ev);
            }
            self.round.buffer[i].events.push(ev);
            assert(entry_views(self.round.buffer@) =~= all.update(
                i as int,
                with_event(all[i as int], ev@),
            ));
        } else {
            assert(all.skip(n as int) =~= Seq::empty());
        }
    }

    fn on_event(&mut self, ev: Json, out: &mut Vec<Json>)
        ensures
            final(self)@ == take_event(old(self)@, ev@).0,
            views(final(out)@) == views(old(out)@) + take_event(old(self)@, ev@).1,
    {
        assert(views(out@) + Seq::<JsonView>::empty() =~= views(out@));
        let t = ev_type(&ev);
        if same_text(t, "response.created") || same_text(t, "response.in_progress") {
            self.on_opening(ev, out);
        } else if is_terminal(t) {
            self.round.terminal = Some(ev);
        } else if same_text(t, "response.output_item.added") {
            self.on_added(ev, out);
        } else {
            let key = output_key(&ev);
            match kind_of(&self.round.kinds, key.as_str()) {
                Some(Kind::Reasoning(oi)) => self.on_reasoning(ev, oi, out),
                Some(Kind::Buffered) => self.on_buffered(ev, key.as_str()),
                None => push_numbered(out, ev, &mut self.seq),
            }
        }
    }

    fn on_item(&mut self, item: SseItem, out: &mut Vec<Json>)
        ensures
            final(self)@ == take_item(old(self)@, item@).0,
            views(final(out)@) == views(old(out)@) + take_item(old(self)@, item@).1,
    {
        assert(views(out@) + Seq::<JsonView>::empty() =~= views(out@));
        if self.round.terminal.is_some() {
            return;
        }
        match item {
            SseItem::Done => {
                self.saw_done = true;
            },
            SseItem::Event(ev) => self.on_event(ev, out),
        }
    }

    fn on_items(&mut self, items: Vec<SseItem>) -> (r: Vec<Json>)
        ensures
            final(self)@ == take_items(old(self)@, item_views(items@)).0,
            views(r@) == take_items(old(self)@, item_views(items@)).1,
    {
        let mut out: Vec<Json> = Vec::new();
        let ghost all = item_views(items@);
        assert(all.take(0) =~= Seq::empty());
        for item in it: items
            invariant
                it.seq() == items@,
                all == item_views(items@),
                self@ == take_items(old(self)@, all.take(it.index() as int)).0,
                views(out@) == take_items(old(self)@, all.take(it.index() as int)).1,
        {
            proof {
                let i = it.index() as int;
                assert(all.take(i + 1).drop_last() =~= all.take(i));
                assert(all.take(i + 1).last() == item@);
            }
            self.on_item(item, &mut out);
        }
        assert(all.take(all.len() as int) =~= all);
        out
    }

    fn usage_of_round(&self) -> (r: Option<Json>)
        ensures
            owned_view(r) == round_usage(self@),
    {
        if let Some(t) = &self.round.terminal {
            if let Some(resp) = t.get("response") {
                if let Some(u) = resp.get("usage") {
                    return Some(u.clone());
                }
            }
        }
        None
    }

    fn encrypted(&self) -> (r: bool)
        ensures
            r == has_encrypted(self@),
    {
        proof {
            lemma_views(self.round.reasoning@);
        }
        let n: usize = self.round.reasoning.len();
        if n > 0 {
            if let Some(v) = self.round.reasoning[n - 1].get("encrypted_content") {
                return v.truthy();
            }
        }
        false
    }

    fn last_reasoning_id(&self) -> (r: &str)
        ensures
            r@ == last_id(self@),
    {
        proof {
            lemma_views(self.round.reasoning@);
        }
        let n: usize = self.round.reasoning.len();
        if n > 0 {
            if let Some(v) = self.round.reasoning[n - 1].get("id") {
                if let Some(id) = v.as_str() {
                    return id;
                }
            }
        }
        ""
    }

    /// Counts the usage of a round that ended, and judges whether another round follows.
    fn count_round(&mut self, cfg: &Config) -> (r: Verdict)
        ensures
            final(self)@ == counted(*cfg, old(self)@),
            r.is_of(*cfg, old(self)@),
    {
        let usage = self.usage_of_round();
        sum_usage(&mut self.total, usage.as_ref());
        let tokens = reasoning_tokens(usage.as_ref());
        if self.round_no == 1 {
            self.first = usage;
        }
        let step = cfg.cont.truncation_step;
        let can_count = is_countable(tokens, step);
        let pattern = can_count && is_truncation_pattern(tokens, step);
        let n = if can_count {
            tier_n(tokens, step)
        } else {
            None
        };
        let info = Json::object().with("round", Json::Uint(self.round_no as u64)).with(
            "reasoning_tokens",
            json_count(tokens),
        ).with("n", json_count(n));
        proof {
            lemma_views_push(self.rounds@, info);
        }
        self.rounds.push(info);
        let encrypted = self.encrypted();
        let within = cfg.cont.max_total_output_tokens == 0 || number(
            self.total.get("output_tokens"),
        ) < cfg.cont.max_total_output_tokens;
        let go_on = cfg.cont.enabled && self.round.terminal.is_some() && can_count
            && should_continue(tokens, cfg.cont.min_n, cfg.cont.max_n, step) && encrypted
            && self.round_no <= cfg.cont.max_continue && within;
        let reason = if go_on || !pattern {
            None
        } else if !encrypted {
            Some("no_encrypted_content")
        } else if self.round_no > cfg.cont.max_continue {
            Some("max_continue")
        } else if !within {
            Some("max_total_output_tokens")
        } else {
            Some("tier_out_of_window")
        };
        self.round.parser = SseParser::new();
        Verdict { tokens, n, go_on, reason }
    }
}

impl Fold {
    fn round_message(&self, v: &Verdict) -> (r: (Level, String))
        ensures
            r.0 == Level::Info,
            r.1@ == round_line(self@.rid, self@.round_no, v.tokens, v.n, v.go_on),
    {
        (Level::Info, log_round(self.rid.as_str(), self.round_no, v.tokens, v.n, v.go_on))
    }

    /// What asks the upstream to go on.
    fn marker_items(&self, cfg: &Config, Ghost(st): Ghost<FoldView>) -> (r: Vec<Json>)
        requires
            self@ == counted(*cfg, st),
        ensures
            views(r@) == marker(*cfg, st),
    {
        if same_text(cfg.cont.method.as_str(), "commentary") {
            let items = vec![commentary_message(cfg.cont.marker_text.as_str())];
            proof {
                lemma_views(items@);
                assert(views(items@) =~= marker(*cfg, st));
            }
            items
        } else {
            let (call, output) = continue_pair(
                self.last_reasoning_id(),
                cfg.cont.continue_tool_name.as_str(),
                cfg.cont.continue_output_text.as_str(),
            );
            let items = vec![call, output];
            proof {
                lemma_views(items@);
                assert(views(items@) =~= marker(*cfg, st));
            }
            items
        }
    }

    /// Tells the client of the comment that asks the upstream to go on.
    fn forward_comment(&mut self, cfg: &Config, Ghost(st): Ghost<FoldView>) -> (r: Vec<Json>)
        requires
            old(self)@.round_no == st.round_no,
        ensures
            final(self)@ == (FoldView {
                seq: nth_after(old(self)@.seq, 6),
                ds_oi: nth_after(old(self)@.ds_oi, 1),
                output: old(self)@.output.push(told_comment(*cfg, st)),
                ..old(self)@
            }),
            views(r@) == numbered(
                commentary_events_of(told_comment(*cfg, st), old(self)@.ds_oi),
                old(self)@.seq,
            ),
    {
        let mut id = "msg_continue_".to_owned();
        id.append(decimal_u64(self.round_no as u64).as_str());
        let item = Json::object().with("id", Json::text(id.as_str())).with(
            "type",
            Json::text("message"),
        ).with("status", Json::text("completed")).with("role", Json::text("assistant")).with(
            "content",
            output_text_list(cfg.cont.marker_text.as_str()),
        ).with("phase", Json::text("commentary"));
        assert(item@ == told_comment(*cfg, st));
        let oi = self.next_oi();
        let events = commentary_events(&item, oi, &mut self.seq);
        proof {
            lemma_views_push(self.output@, item);
        }
        self.output.push(item);
        events
    }

    /// Asks for another round.
    fn go_on(&mut self, cfg: &Config, v: &Verdict, Ghost(st): Ghost<FoldView>) -> (r: Step)
        requires
            old(self)@ == counted(*cfg, st),
            v.is_of(*cfg, st),
        ensures
            final(self)@ == continued(*cfg, st).0,
            r@ == continued(*cfg, st).1,
    {
        let next: usize = self.round_no.wrapping_add(1);
        let logs = vec![
            self.round_message(v),
            (Level::Info, log_continue(self.rid.as_str(), next)),
        ];
        let stateful = !same_text(cfg.cont.method.as_str(), "commentary") && same_text(
            cfg.cont.repair_followup.as_str(),
            "stateful",
        );
        let id = self.last_reasoning_id();
        let remember = if stateful && !id.is_empty() {
            Some(id.to_owned())
        } else {
            None
        };
        let marker_items = self.marker_items(cfg, Ghost(st));
        append_all(&mut self.replay, copies(&self.round.reasoning));
        append_all(&mut self.replay, marker_items);
        let events = if same_text(cfg.cont.method.as_str(), "commentary")
            && cfg.cont.forward_marker {
            self.forward_comment(cfg, Ghost(st))
        } else {
            Vec::new()
        };
        let mut input_items = array_clone(self.body.get("input"));
        append_all(&mut input_items, copies(&self.replay));
        let payload = build_round_payload(
            &self.body,
            input_items,
            cfg.stream.force_include_encrypted,
            true,
        );
        self.phase = Phase::Opening;
        let step = Step { logs, remember, events, done: false, open: Some(payload) };
        proof {
            assert(step@ =~= continued(*cfg, st).1);
            assert(self@ =~= continued(*cfg, st).0);
        }
        step
    }

    /// Ends with a response that the upstream did not end.
    fn break_off(
        &mut self,
        usage: Option<&Json>,
        reason: &str,
        logs: Vec<(Level, String)>,
    ) -> (r: Step)
        ensures
            final(self)@ == broken(
                old(self)@,
                opt_view(usage),
                reason@,
                log_views(logs@),
            ).0,
            r@ == broken(old(self)@, opt_view(usage), reason@, log_views(logs@)).1,
    {
        let told = agent_usage(self.first.as_ref(), Some(&self.total), usage, false);
        let n = self.seq.next();
        let ev = synthetic_incomplete(
            self.base.as_ref(),
            &self.output,
            &told,
            n,
            reason,
            &self.rounds,
            Some(&self.total),
        );
        self.phase = Phase::Finished;
        let events = vec![ev];
        proof {
            lemma_views(events@);
            assert(views(events@) =~= broken(
                old(self)@,
                opt_view(usage),
                reason@,
                log_views(logs@),
            ).1.events);
        }
        Step { logs, remember: None, events, done: false, open: None }
    }

    /// Releases all output that was held back.
    fn flush_all(&mut self, cfg: &Config) -> (r: Vec<Json>)
        ensures
            ({
                let st = old(self)@;
                let evs = released_all(st.round.buffer, st.ds_oi, cfg.stream);
                &&& views(r@) == numbered(evs, st.seq)
                &&& final(self)@ == (FoldView {
                    seq: nth_after(st.seq, evs.len()),
                    ds_oi: nth_after(st.ds_oi, st.round.buffer.len()),
                    output: st.output + items_of(st.round.buffer),
                    ..st
                })
            }),
    {
        let ghost st = self@;
        let ghost all = st.round.buffer;
        let mut out: Vec<Json> = Vec::new();
        let n: usize = self.round.buffer.len();
        let mut i: usize = 0;
        proof {
            assert(all.take(0) =~= Seq::empty());
            assert(numbered(released_all(all.take(0), st.ds_oi, cfg.stream), st.seq)
                =~= Seq::empty());
            assert(st.output + items_of(all.take(0)) =~= st.output);
        }
        while i < n
            invariant
                i <= n,
                n == self.round.buffer.len(),
                all == st.round.buffer,
                all == entry_views(self.round.buffer@),
                views(out@) == numbered(
                    released_all(all.take(i as int), st.ds_oi, cfg.stream),
                    st.seq,
                ),
                self@ == (FoldView {
                    seq: nth_after(
                        st.seq,
                        released_all(all.take(i as int), st.ds_oi, cfg.stream).len(),
                    ),
                    ds_oi: nth_after(st.ds_oi, i as nat),
                    output: st.output + items_of(all.take(i as int)),
                    ..st
                }),
            decreases n - i,
        {
            let ghost done = released_all(all.take(i as int), st.ds_oi, cfg.stream);
            let ghost more = released(all[i as int], self.ds_oi, cfg.stream);
            proof {
                assert(all.take(i + 1).drop_last() =~= all.take(i as int));
                assert(all.take(i + 1).last() == all[i as int]);
                lemma_numbered_concat(done, more, st.seq);
                lemma_nth_after_add(st.seq, done.len(), more.len());
                lemma_nth_after_add(st.ds_oi, i as nat, 1);
                assert(nth_after(self.ds_oi, 1) == nth_after(self.ds_oi, 0).wrapping_add(1));
                assert(st.output + items_of(all.take(i + 1)) =~= (st.output + items_of(
                    all.take(i as int),
                )).push(all[i as int].item));
            }
            let events = flush_entry(&self.round.buffer[i], self.ds_oi, &mut self.seq, cfg);
            append_all(&mut out, events);
            self.ds_oi = self.ds_oi.wrapping_add(1);
            let item = self.round.buffer[i].item.clone();
            proof {
                lemma_views_push(self.output@, item);
            }
            self.output.push(item);
            i = i + 1;
        }
        assert(all.take(n as int) =~= all);
        out
    }

    /// Ends with the whole response.
    fn end(&mut self, cfg: &Config, v: &Verdict, Ghost(st): Ghost<FoldView>) -> (r: Step)
        requires
            old(self)@ == counted(*cfg, st),
            v.is_of(*cfg, st),
        ensures
            final(self)@ == ended(*cfg, st).0,
            r@ == ended(*cfg, st).1,
    {
        let mut logs = vec![self.round_message(v)];
        if let Some(reason) = v.reason {
            logs.push((Level::Info, log_stopped(self.rid.as_str(), reason, self.round_no)));
        }
        let usage = self.usage_of_round();
        let told = agent_usage(self.first.as_ref(), Some(&self.total), usage.as_ref(), true);
        let mut events = self.flush_all(cfg);
        let ghost evs = released_all(st.round.buffer, st.ds_oi, cfg.stream);
        let n = self.seq.next();
        let last = reconstruct_terminal(
            self.round.terminal.as_ref(),
            self.base.as_ref(),
            &self.output,
            &told,
            n,
            &self.rounds,
            v.reason,
            Some(&self.total),
        );
        proof {
            lemma_views_push(events@, last);
            let terminal = final_events(*cfg, st).last();
            crate::events::lemma_numbered_push(evs, terminal, st.seq);
            lemma_nth_after_add(st.seq, evs.len(), 1);
        }
        events.push(last);
        self.phase = Phase::Finished;
        let step = Step { logs, remember: None, events, done: self.saw_done, open: None };
        proof {
            assert(step@ =~= ended(*cfg, st).1);
            assert(self@ =~= ended(*cfg, st).0);
        }
        step
    }

    /// A round has ended, or its stream has.
    fn finish(&mut self, cfg: &Config) -> (r: Step)
        ensures
            final(self)@ == finish_round(*cfg, old(self)@).0,
            r@ == finish_round(*cfg, old(self)@).1,
    {
        let ghost st = self@;
        let v = self.count_round(cfg);
        if v.go_on {
            self.go_on(cfg, &v, Ghost(st))
        } else if self.round.terminal.is_none() {
            let logs = vec![
                self.round_message(&v),
                (Level::Warn, log_eof(self.rid.as_str(), self.round_no)),
            ];
            let usage = self.usage_of_round();
            proof {
                assert(log_views(logs@) =~= seq![
                    round_log(*cfg, st),
                    (Level::Warn, crate::lines::eof_line(st.rid, st.round_no)),
                ]);
            }
            self.break_off(usage.as_ref(), "upstream_eof", logs)
        } else {
            self.end(cfg, &v, Ghost(st))
        }
    }
}

/// Puts events before everything else that a step asks for.
fn put_before(events: Vec<Json>, step: Step) -> (r: Step)
    ensures
        r@ == after_events(views(events@), step@),
{
    let mut events = events;
    append_all(&mut events, step.events);
    Step {
        logs: step.logs,
        remember: step.remember,
        events,
        done: step.done,
        open: step.open,
    }
}

/// A step that asks for nothing but to send events.
fn only_sends(events: Vec<Json>) -> (r: Step)
    ensures
        r@ == sends(views(events@)),
{
    let step = Step { logs: Vec::new(), remember: None, events, done: false, open: None };
    assert(step@ =~= sends(views(events@)));
    step
}

impl Fold {
    fn on_chunk(&mut self, cfg: &Config, chunk: &[u8]) -> (r: Step)
        ensures
            final(self)@ == take_chunk(*cfg, old(self)@, chunk@).0,
            r@ == take_chunk(*cfg, old(self)@, chunk@).1,
    {
        let items = self.round.parser.push(chunk);
        let events = self.on_items(items);
        if self.round.terminal.is_some() {
            let step = self.finish(cfg);
            put_before(events, step)
        } else {
            only_sends(events)
        }
    }

    fn on_end(&mut self, cfg: &Config) -> (r: Step)
        ensures
            final(self)@ == take_end(*cfg, old(self)@).0,
            r@ == take_end(*cfg, old(self)@).1,
    {
        let ghost st = self@;
        let items = match self.round.parser.finish() {
            Some(item) => vec![item],
            None => Vec::new(),
        };
        assert(item_views(items@) =~= at_most_one(flushed(st.round.parser.data)));
        proof {
            lemma_parser_last(
                st,
                self@.round.parser,
                item_views(items@),
            );
            lemma_parser_dropped(
                *cfg,
                take_items(st, item_views(items@)).0,
                take_items(self@, item_views(items@)).0,
            );
        }
        let events = self.on_items(items);
        let step = self.finish(cfg);
        put_before(events, step)
    }

    fn on_opened(&mut self, status: u16) -> (r: Step)
        ensures
            final(self)@ == take_opened(old(self)@, status).0,
            r@ == take_opened(old(self)@, status).1,
    {
        let next: usize = self.round_no.wrapping_add(1);
        if status < 400 {
            let logs = vec![(Level::Info, log_opened(self.rid.as_str(), status, next))];
            self.phase = Phase::Reading;
            self.round_no = next;
            self.round = Round::new();
            let step = Step { logs, remember: None, events: Vec::new(), done: false, open: None };
            assert(step@ =~= take_opened(old(self)@, status).1);
            step
        } else {
            let logs = vec![(Level::Error, log_refused(self.rid.as_str(), status, next))];
            let usage = self.usage_of_round();
            assert(log_views(logs@) =~= seq![
                (Level::Error, refused_line(self@.rid, status, next)),
            ]);
            self.break_off(usage.as_ref(), "upstream_error", logs)
        }
    }

    /// What the fold does when something happens upstream. What it does not wait for does
    /// nothing.
    pub fn step(&mut self, cfg: &Config, input: Input) -> (r: Step)
        ensures
            final(self)@ == fold_step(*cfg, old(self)@, input@).0,
            r@ == fold_step(*cfg, old(self)@, input@).1,
    {
        match (self.phase, input) {
            (Phase::Reading, Input::Chunk(bytes)) => self.on_chunk(cfg, bytes.as_slice()),
            (Phase::Reading, Input::EndOfBody) => self.on_end(cfg),
            (Phase::Reading, Input::BodyFailed) => {
                let logs = vec![
                    (Level::Error, log_stream_error(self.rid.as_str(), self.round_no)),
                ];
                assert(log_views(logs@) =~= seq![
                    (Level::Error, stream_error_line(self@.rid, self@.round_no)),
                ]);
                self.break_off(None, "upstream_error", logs)
            },
            (Phase::Opening, Input::Opened(status)) => self.on_opened(status),
            (Phase::Opening, Input::OpenFailed(error)) => {
                let next: usize = self.round_no.wrapping_add(1);
                let logs = vec![
                    (
                        Level::Error,
                        log_open_failed(self.rid.as_str(), next, error.as_str()),
                    ),
                ];
                let usage = self.usage_of_round();
                assert(log_views(logs@) =~= seq![
                    (Level::Error, open_failed_line(self@.rid, next, error@)),
                ]);
                self.break_off(usage.as_ref(), "upstream_error", logs)
            },
            _ => only_sends(Vec::new()),
        }
    }
}

/// A state with another reader.
pub open spec fn with_parser(st: FoldView, parser: SseState) -> FoldView {
    FoldView { round: RoundView { parser, ..st.round }, ..st }
}

/// What events do does not depend on the reader that they came from.
pub proof fn lemma_parser_last(st: FoldView, parser: SseState, items: Seq<ItemView>)
    ensures
        take_items(with_parser(st, parser), items).0 == with_parser(
            take_items(st, items).0,
            parser,
        ),
        take_items(with_parser(st, parser), items).1 == take_items(st, items).1,
        take_items(st, items).0.round.parser == st.round.parser,
    decreases items.len(),
{
    if items.len() > 0 {
        lemma_parser_last(st, parser, items.drop_last());
    }
}

/// The reader of a round that has ended is dropped.
pub proof fn lemma_parser_dropped(cfg: Config, a: FoldView, b: FoldView)
    requires
        with_parser(a, sse_start()) == with_parser(b, sse_start()),
    ensures
        finish_round(cfg, a) == finish_round(cfg, b),
{
    assert(counted(cfg, a) == counted(cfg, b));
}

/// The bytes of a list of frames.
pub open spec fn frame_views(frames: Seq<Vec<u8>>) -> Seq<Seq<u8>> {
    frames.map_values(|f: Vec<u8>| f@)
}

/// The frames that a step sends.
pub open spec fn frames_of(step: StepView) -> Seq<Seq<u8>> {
    let events = step.events.map_values(|ev: JsonView| event_bytes(ev));
    if step.done {
        events.push(done_bytes())
    } else {
        events
    }
}

/// What a step sends, as items of a stream.
pub open spec fn items_sent(step: StepView) -> Seq<ItemView> {
    let events = step.events.map_values(|ev: JsonView| ItemView::Event(ev));
    if step.done {
        events.push(ItemView::Done)
    } else {
        events
    }
}

/// The frames that a step sends.
///
/// Reading them one after the other gives the events back, where all of them can be read back.
pub fn frames(step: &Step) -> (r: Vec<Vec<u8>>)
    ensures
        frame_views(r@) == frames_of(step@),
        (forall|k: int|
            0 <= k < step@.events.len() ==> readable(#[trigger] step@.events[k])) ==> sse_run(
            sse_start(),
            frame_views(r@).flatten(),
        ) == (sse_start(), items_sent(step@)),
{
    let mut out: Vec<Vec<u8>> = Vec::new();
    let ghost evs = step@.events;
    let ghost all_readable = forall|k: int|
        0 <= k < evs.len() ==> readable(#[trigger] evs[k]);
    let ghost bytes = evs.map_values(|ev: JsonView| event_bytes(ev));
    let ghost items = evs.map_values(|ev: JsonView| ItemView::Event(ev));
    proof {
        lemma_views(step.events@);
        assert(bytes.take(0) =~= frame_views(out@));
        assert(items.take(0) =~= Seq::empty());
        assert(frame_views(out@).flatten() =~= Seq::empty());
    }
    for i in 0..step.events.len()
        invariant
            evs == views(step.events@),
            evs.len() == step.events.len(),
            forall|j: int| 0 <= j < evs.len() ==> #[trigger] evs[j] == step.events@[j].view(),
            all_readable == (forall|k: int| 0 <= k < evs.len() ==> readable(#[trigger] evs[k])),
            bytes == evs.map_values(|ev: JsonView| event_bytes(ev)),
            items == evs.map_values(|ev: JsonView| ItemView::Event(ev)),
            frame_views(out@) == bytes.take(i as int),
            all_readable ==> sse_run(sse_start(), frame_views(out@).flatten()) == (
                sse_start(),
                items.take(i as int),
            ),
    {
        let frame = serialize_event(&step.events[i]);
        let ghost before = frame_views(out@);
        out.push(frame);
        proof {
            assert(evs[i as int] == step.events@[i as int].view());
            assert(frame_views(out@) =~= before.push(frame@));
            assert(bytes.take(i + 1) =~= bytes.take(i as int).push(frame@));
            lemma_flatten_push(before, frame@);
            law_chunking(sse_start(), before.flatten(), frame@);
            assert(items.take(i + 1) =~= items.take(i as int) + seq![
                ItemView::Event(evs[i as int]),
            ]);
        }
    }
    proof {
        assert(bytes.take(bytes.len() as int) =~= bytes);
        assert(items.take(items.len() as int) =~= items);
    }
    if step.done {
        let frame = serialize_done();
        let ghost before = frame_views(out@);
        out.push(frame);
        proof {
            assert(frame_views(out@) =~= before.push(frame@));
            lemma_flatten_push(before, frame@);
            law_chunking(sse_start(), before.flatten(), frame@);
            assert(items.push(ItemView::Done) =~= items + seq![ItemView::Done]);
        }
    }
    out
}

proof fn lemma_flatten_push(xs: Seq<Seq<u8>>, x: Seq<u8>)
    ensures
        xs.push(x).flatten() == xs.flatten() + x,
{
    xs.lemma_flatten_and_flatten_alt_are_equivalent();
    xs.push(x).lemma_flatten_and_flatten_alt_are_equivalent();
    assert(xs.push(x).drop_last() =~= xs);
}

/// Bytes up to a limit, where there is one.
pub open spec fn limited(bytes: Seq<u8>, limit: Option<usize>) -> Seq<u8> {
    match limit {
        Some(n) => if bytes.len() >= n {
            bytes.take(n as int)
        } else {
            bytes
        },
        None => bytes,
    }
}

/// Appends a chunk to the body that is collected; tells whether the limit is reached.
pub fn collect_chunk(out: &mut Vec<u8>, chunk: &[u8], limit: Option<usize>) -> (r: bool)
    ensures
        final(out)@ == limited(old(out)@ + chunk@, limit),
        r == (limit matches Some(n) && (old(out)@ + chunk@).len() >= n),
{
    out.extend_from_slice(chunk);
    assert(out@ =~= old(out)@ + chunk@);
    match limit {
        Some(n) => {
            if out.len() >= n {
                out.truncate(n);
                true
            } else {
                false
            }
        },
        None => false,
    }
}

/// The bytes of a body that comes in chunks, up to the first failure.
pub open spec fn body_bytes(chunks: Seq<Result<Vec<u8>, String>>) -> Seq<u8>
    decreases chunks.len(),
{
    if chunks.len() == 0 || chunks[0] is Err {
        Seq::empty()
    } else {
        chunks[0]->Ok_0@ + body_bytes(chunks.drop_first())
    }
}

/// The bytes of a body that comes in chunks: all up to the first failure, and up to the limit.
pub fn collect_body(chunks: &Vec<Result<Vec<u8>, String>>, limit: Option<usize>) -> (r: Vec<u8>)
    ensures
        r@ == limited(body_bytes(chunks@), limit),
{
    let mut out: Vec<u8> = Vec::new();
    let mut i: usize = 0;
    let ghost whole = body_bytes(chunks@);
    proof {
        assert(chunks@.skip(0) =~= chunks@);
        assert(out@ + whole =~= whole);
    }
    while i < chunks.len()
        invariant
            i <= chunks.len(),
            whole == body_bytes(chunks@),
            out@ + body_bytes(chunks@.skip(i as int)) == whole,
            limit matches Some(n) ==> out@.len() < n || out@.len() == 0,
        decreases chunks.len() - i,
    {
        let ghost rest = chunks@.skip(i as int);
        let ghost before = out@;
        assert(rest.drop_first() =~= chunks@.skip(i + 1));
        match &chunks[i] {
            Ok(chunk) => {
                let full = collect_chunk(&mut out, chunk.as_slice(), limit);
                assert((before + chunk@) + body_bytes(chunks@.skip(i + 1)) =~= whole);
                if full {
                    assert(out@ =~= limited(whole, limit));
                    return out;
                }
            },
            Err(_) => {
                assert(out@ =~= limited(whole, limit));
                return out;
            },
        }
        i = i + 1;
    }
    assert(out@ =~= limited(whole, limit));
    out
}

/// A count as JSON.
fn json_count(n: Option<i64>) -> (r: Json)
    ensures
        r@ == opt_json(opt_int(n)),
{
    match n {
        Some(k) => Json::Int(k),
        None => Json::Null,
    }
}

/// What is made of a round that ended.
struct Verdict {
    tokens: Option<i64>,
    n: Option<i64>,
    go_on: bool,
    reason: Option<&'static str>,
}

impl Verdict {
    spec fn is_of(&self, cfg: Config, st: FoldView) -> bool {
        &&& self.tokens == round_tokens(st)
        &&& opt_int(self.n) == round_tier(cfg, st)
        &&& self.go_on == goes_on(cfg, st)
        &&& opt_text(self.reason) == stop_reason(cfg, st)
    }
}

/// The input list of a request is its input, where that is a list; else it is empty.
pub proof fn law_request_input(body: JsonView, xs: Seq<JsonView>)
    ensures
        body.get("input"@) == Some(JsonView::Array(xs)) ==> request_input(body) == xs,
        !(body.get("input"@) is Some && body.get("input"@)->Some_0 is Array) ==> request_input(
            body,
        ).len() == 0,
{
}

/// A step sends one frame for each event, in their order, and the end mark behind them where the
/// stream ends.
pub proof fn law_frames(step: StepView, k: int)
    ensures
        frames_of(step).len() == step.events.len() + if step.done {
            1int
        } else {
            0
        },
        0 <= k < step.events.len() ==> frames_of(step)[k] == event_bytes(step.events[k]),
        step.done ==> frames_of(step).last() == vstd::utf8::encode_utf8("data: [DONE]\n\n"@),
{
}

/// What is kept of a body is its beginning: all of it where the limit does not forbid, else as much
/// as the limit allows.
pub proof fn law_limited(bytes: Seq<u8>, n: usize)
    ensures
        limited(bytes, None) == bytes,
        bytes.len() <= n ==> limited(bytes, Some(n)) == bytes,
        bytes.len() > n ==> limited(bytes, Some(n)).len() == n && limited(bytes, Some(n))
            == bytes.subrange(0, n as int),
{
    assert(bytes.take(bytes.len() as int) =~= bytes);
    if bytes.len() > n {
        assert(bytes.take(n as int) =~= bytes.subrange(0, n as int));
    }
}

/// The bytes of a body are those of all chunks up to the first one that could not be received.
pub proof fn law_body_bytes(
    good: Seq<Result<Vec<u8>, String>>,
    bad: Result<Vec<u8>, String>,
    rest: Seq<Result<Vec<u8>, String>>,
)
    requires
        forall|i: int| 0 <= i < good.len() ==> #[trigger] good[i] is Ok,
        bad is Err,
    ensures
        body_bytes(good) == all_bytes(good),
        body_bytes(good + seq![bad] + rest) == body_bytes(good),
    decreases good.len(),
{
    let all = good + seq![bad] + rest;
    if good.len() == 0 {
        assert(all[0] == bad);
    } else {
        assert(good[0] is Ok);
        assert(all[0] == good[0]);
        let tail = good.drop_first();
        assert forall|i: int| 0 <= i < tail.len() implies #[trigger] tail[i] is Ok by {
            assert(good[i + 1] is Ok);
        }
        assert(all.drop_first() =~= tail + seq![bad] + rest);
        law_body_bytes(tail, bad, rest);
    }
}

} // verus!
