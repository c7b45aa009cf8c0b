//! A bounded store of identifiers that forgets what was used longest ago and what is too old.
use vstd::prelude::*;

use crate::text::same_text;

verus! {

/// How many identifiers a store holds where nothing is said.
pub const DEFAULT_MAXSIZE: usize = 10_000;

/// How long an identifier is held where nothing is said, in nanoseconds.
pub const DEFAULT_TTL: u128 = 3_600_000_000_000;

/// An identifier and the time up to which it is held.
pub struct HeldId {
    pub key: Seq<char>,
    pub expires: u128,
}

/// What is still held at a time.
pub open spec fn live(ids: Seq<HeldId>, now: u128) -> Seq<HeldId> {
    ids.filter(|e: HeldId| e.expires >= now)
}

/// What is still held at a time, but for one identifier.
pub open spec fn live_others(ids: Seq<HeldId>, key: Seq<char>, now: u128) -> Seq<HeldId> {
    ids.filter(|e: HeldId| e.key != key && e.expires >= now)
}

/// Whether an identifier is among those held.
pub open spec fn holds(ids: Seq<HeldId>, key: Seq<char>) -> bool {
    exists|i: int| 0 <= i < ids.len() && #[trigger] ids[i].key == key
}

/// The last `n` of those held.
pub open spec fn newest(ids: Seq<HeldId>, n: nat) -> Seq<HeldId> {
    if ids.len() > n {
        ids.skip(ids.len() - n)
    } else {
        ids
    }
}

/// The index of an identifier among those held; their number, where it is not among them.
pub open spec fn id_place(ids: Seq<HeldId>, key: Seq<char>) -> nat
    decreases ids.len(),
{
    if ids.len() == 0 {
        0
    } else if ids[0].key == key {
        0
    } else {
        1 + id_place(ids.drop_first(), key)
    }
}

/// What a store holds after it was asked for an identifier: what is too old goes, and the
/// identifier is the one that was used last.
pub open spec fn after_asking(ids: Seq<HeldId>, key: Seq<char>, now: u128) -> Seq<HeldId> {
    let alive = live(ids, now);
    let i = id_place(alive, key);
    if i < alive.len() {
        moved_to_end(alive, i as int)
    } else {
        alive
    }
}

proof fn lemma_id_place(ids: Seq<HeldId>, key: Seq<char>, i: int)
    requires
        0 <= i <= ids.len(),
        forall|j: int| 0 <= j < i ==> #[trigger] ids[j].key != key,
        i < ids.len() ==> ids[i].key == key,
    ensures
        id_place(ids, key) == i,
    decreases ids.len(),
{
    if ids.len() > 0 && i > 0 {
        assert(ids[0].key != key);
        let rest = ids.drop_first();
        assert forall|j: int| 0 <= j < i - 1 implies #[trigger] rest[j].key != key by {
            assert(rest[j] == ids[j + 1]);
        }
        if i < ids.len() {
            assert(rest[i - 1] == ids[i]);
        }
        lemma_id_place(rest, key, i - 1);
    }
}

/// Those held, with one of them moved to the end.
pub open spec fn moved_to_end(ids: Seq<HeldId>, i: int) -> Seq<HeldId> {
    ids.remove(i).push(ids[i])
}

/// Whether no identifier is held twice.
pub open spec fn distinct(ids: Seq<HeldId>) -> bool {
    forall|i: int, j: int|
        0 <= i < j < ids.len() ==> (#[trigger] ids[i]).key != (#[trigger] ids[j]).key
}

/// A store of identifiers. The one that was added or asked for last stands last.
pub struct IdStore {
    maxsize: usize,
    ttl: u128,
    entries: Vec<(String, u128)>,
}

pub open spec fn held_id(e: (String, u128)) -> HeldId {
    HeldId { key: e.0@, expires: e.1 }
}

pub open spec fn held_ids(es: Seq<(String, u128)>) -> Seq<HeldId> {
    es.map_values(|e: (String, u128)| held_id(e))
}

/// Appending an element to what is filtered.
proof fn lemma_filter_push(s: Seq<HeldId>, pred: spec_fn(HeldId) -> bool, e: HeldId)
    ensures
        s.push(e).filter(pred) == (if pred(e) {
            s.filter(pred).push(e)
        } else {
            s.filter(pred)
        }),
{
    reveal(Seq::filter);
    assert(s.push(e).drop_last() =~= s);
}

/// What is filtered out of a list is in the list and satisfies the condition; what is in the
/// list and satisfies it is not lost; and nothing is doubled.
proof fn lemma_filter(s: Seq<HeldId>, pred: spec_fn(HeldId) -> bool)
    ensures
        s.filter(pred).len() <= s.len(),
        forall|i: int|
            0 <= i < s.filter(pred).len() ==> pred(#[trigger] s.filter(pred)[i]) && s.contains(
                s.filter(pred)[i],
            ),
        forall|e: HeldId| s.contains(e) && #[trigger] pred(e) ==> s.filter(pred).contains(e),
        distinct(s) ==> distinct(s.filter(pred)),
    decreases s.len(),
{
    reveal(Seq::filter);
    if s.len() > 0 {
        let front = s.drop_last();
        lemma_filter(front, pred);
        let sub = front.filter(pred);
        let all = s.filter(pred);
        assert forall|i: int| 0 <= i < all.len() implies pred(#[trigger] all[i]) && s.contains(
            all[i],
        ) by {
            if i < sub.len() {
                assert(all[i] == sub[i]);
                assert(front.contains(sub[i]));
                let k = choose|k: int| 0 <= k < front.len() && front[k] == sub[i];
                assert(s[k] == all[i]);
            } else {
                assert(s[s.len() - 1] == all[i]);
            }
        }
        assert forall|e: HeldId| s.contains(e) && #[trigger] pred(e) implies all.contains(e) by {
            let k = choose|k: int| 0 <= k < s.len() && s[k] == e;
            if k < front.len() {
                assert(front[k] == e);
                assert(front.contains(e));
                assert(sub.contains(e));
                let m = choose|m: int| 0 <= m < sub.len() && sub[m] == e;
                assert(all[m] == e);
            } else {
                assert(all[all.len() - 1] == e);
            }
        }
        if distinct(s) {
            assert forall|i: int, j: int| 0 <= i < j < front.len() implies (
            #[trigger] front[i]).key != (#[trigger] front[j]).key by {
                assert(s[i].key != s[j].key);
            }
            assert(distinct(front));
            assert forall|i: int, j: int| 0 <= i < j < all.len() implies (#[trigger] all[i]).key
                != (#[trigger] all[j]).key by {
                if j < sub.len() {
                    assert(sub[i].key != sub[j].key);
                } else {
                    assert(all[i] == sub[i]);
                    assert(front.contains(sub[i]));
                    let k = choose|k: int| 0 <= k < front.len() && front[k] == sub[i];
                    assert(s[k].key != s[s.len() - 1].key);
                }
            }
        }
    }
}

/// Of what is alive everything stays alive, in whatever order it is held.
proof fn lemma_live_same(ids: Seq<HeldId>, after: Seq<HeldId>, now: u128)
    requires
        after.len() == live(ids, now).len(),
        forall|e: HeldId| after.contains(e) == live(ids, now).contains(e),
    ensures
        forall|k: Seq<char>| #[trigger] holds(live(after, now), k) == holds(live(ids, now), k),
{
    let pred = |e: HeldId| e.expires >= now;
    let alive = live(ids, now);
    lemma_filter(ids, pred);
    lemma_filter(after, pred);
    assert forall|k: Seq<char>| #[trigger] holds(live(after, now), k) == holds(alive, k) by {
        if holds(live(after, now), k) {
            let i = choose|i: int|
                0 <= i < live(after, now).len() && #[trigger] live(after, now)[i].key == k;
            let e = live(after, now)[i];
            assert(after.contains(e));
            assert(alive.contains(e));
            let j = choose|j: int| 0 <= j < alive.len() && alive[j] == e;
            assert(alive[j].key == k);
        }
        if holds(alive, k) {
            let i = choose|i: int| 0 <= i < alive.len() && #[trigger] alive[i].key == k;
            let e = alive[i];
            assert(pred(e));
            assert(alive.contains(e));
            assert(after.contains(e));
            assert(live(after, now).contains(e));
            let j = choose|j: int| 0 <= j < live(after, now).len() && live(after, now)[j] == e;
            assert(live(after, now)[j].key == k);
        }
    }
}

impl IdStore {
    /// How many identifiers the store holds at most.
    pub closed spec fn capacity(&self) -> nat {
        self.maxsize as nat
    }

    /// How long an identifier is held, in nanoseconds.
    pub closed spec fn lifetime(&self) -> u128 {
        self.ttl
    }

    /// The identifiers, the one that was added or asked for last at the end.
    pub closed spec fn view(&self) -> Seq<HeldId> {
        held_ids(self.entries@)
    }

    /// No identifier is held twice, and not more are held than there is room for.
    pub open spec fn wf(&self) -> bool {
        &&& distinct(self@)
        &&& self@.len() <= self.capacity()
    }

    /// A store for at most `maxsize` identifiers, each held for `ttl` nanoseconds.
    pub fn new(maxsize: usize, ttl: u128) -> (r: IdStore)
        ensures
            r.wf(),
            r.capacity() == maxsize,
            r.lifetime() == ttl,
            r@ == Seq::<HeldId>::empty(),
    {
        let r = IdStore { maxsize, ttl, entries: Vec::new() };
        assert(r@ =~= Seq::<HeldId>::empty());
        r
    }

    /// Takes up an identifier at the time `now`. What is too old goes, and so does what was used
    /// longest ago where there is no room.
    pub fn add(&mut self, key: &str, now: u128)
        requires
            old(self).wf(),
            now + old(self).lifetime() <= u128::MAX,
        ensures
            final(self).wf(),
            final(self).capacity() == old(self).capacity(),
            final(self).lifetime() == old(self).lifetime(),
            final(self)@ == after_add(
                old(self)@,
                old(self).capacity(),
                old(self).lifetime(),
                key@,
                now,
            ),
    {
        let ghost ids = self@;
        let ghost pred = |e: HeldId| e.key != key@ && e.expires >= now;
        let mut all: Vec<(String, u128)> = Vec::new();
        std::mem::swap(&mut all, &mut self.entries);
        let mut kept: Vec<(String, u128)> = Vec::new();
        assert(held_ids(kept@) =~= ids.take(0).filter(pred)) by {
            reveal(Seq::filter);
        }
        for entry in it: all
            invariant
                it.seq() == all@,
                ids == held_ids(all@),
                pred == (|e: HeldId| e.key != key@ && e.expires >= now),
                held_ids(kept@) == ids.take(it.index() as int).filter(pred),
        {
            proof {
                lemma_filter_push(ids.take(it.index() as int), pred, held_id(entry));
                assert(ids.take(it.index() + 1) =~= ids.take(it.index() as int).push(
                    held_id(entry),
                ));
            }
            if !same_text(entry.0.as_str(), key) && entry.1 >= now {
                let ghost before = kept@;
                kept.push(entry);
                assert(held_ids(kept@) =~= held_ids(before).push(held_id(entry)));
            }
        }
        let ghost others = live_others(ids, key@, now);
        proof {
            assert(ids.take(ids.len() as int) =~= ids);
            assert(held_ids(kept@) == others);
            lemma_filter(ids, pred);
        }
        let entry = (key.to_owned(), now + self.ttl);
        let ghost before = kept@;
        kept.push(entry);
        let ghost full = others.push(held_id(entry));
        assert(held_ids(kept@) =~= full);
        assert(held_ids(kept@).len() == kept@.len());
        assert(full.skip(0) =~= full);
        let ghost mut gone: int = 0;
        while kept.len() > self.maxsize
            invariant
                0 <= gone <= full.len(),
                held_ids(kept@) == full.skip(gone),
                kept@.len() == full.len() - gone,
                gone == 0 || kept@.len() >= self.maxsize,
            decreases kept.len(),
        {
            let ghost was = kept@;
            let _ = kept.remove(0);
            proof {
                assert forall|i: int| 0 <= i < kept@.len() implies #[trigger] held_ids(kept@)[i]
                    == full.skip(gone + 1)[i] by {
                    assert(held_ids(was)[i + 1] == full.skip(gone)[i + 1]);
                }
                assert(held_ids(kept@) =~= full.skip(gone + 1));
                gone = gone + 1;
            }
        }
        self.entries = kept;
        proof {
            assert(held_ids(kept@).len() == kept@.len());
            assert(self@ =~= newest(full, self.maxsize as nat));
            assert(distinct(full));
        }
    }

    /// Whether an identifier is held at the time `now`. What is too old goes; the identifier
    /// counts as used.
    pub fn contains(&mut self, key: &str, now: u128) -> (r: bool)
        requires
            old(self).wf(),
        ensures
            final(self).wf(),
            final(self).capacity() == old(self).capacity(),
            final(self).lifetime() == old(self).lifetime(),
            r == holds(live(old(self)@, now), key@),
            forall|k: Seq<char>| #[trigger]
                holds(live(final(self)@, now), k) == holds(live(old(self)@, now), k),
            final(self)@ == after_asking(old(self)@, key@, now),
    {
        let ghost ids = self@;
        let ghost pred = |e: HeldId| e.expires >= now;
        let mut all: Vec<(String, u128)> = Vec::new();
        std::mem::swap(&mut all, &mut self.entries);
        let mut kept: Vec<(String, u128)> = Vec::new();
        assert(held_ids(kept@) =~= ids.take(0).filter(pred)) by {
            reveal(Seq::filter);
        }
        for entry in it: all
            invariant
                it.seq() == all@,
                ids == held_ids(all@),
                pred == (|e: HeldId| e.expires >= now),
                held_ids(kept@) == ids.take(it.index() as int).filter(pred),
        {
            proof {
                lemma_filter_push(ids.take(it.index() as int), pred, held_id(entry));
                assert(ids.take(it.index() + 1) =~= ids.take(it.index() as int).push(
                    held_id(entry),
                ));
            }
            if entry.1 >= now {
                let ghost before = kept@;
                kept.push(entry);
                assert(held_ids(kept@) =~= held_ids(before).push(held_id(entry)));
            }
        }
        proof {
            assert(ids.take(ids.len() as int) =~= ids);
            lemma_filter(ids, pred);
        }
        let ghost alive = live(ids, now);
        assert(held_ids(kept@) == alive);
        assert(kept@.len() == alive.len());
        let mut pos: usize = 0;
        while pos < kept.len() && !same_text(kept[pos].0.as_str(), key)
            invariant
                pos <= kept.len(),
                held_ids(kept@) == alive,
                kept@.len() == alive.len(),
                forall|j: int| 0 <= j < pos ==> #[trigger] alive[j].key != key@,
            decreases kept.len() - pos,
        {
            assert(alive[pos as int].key == kept@[pos as int].0@);
            pos = pos + 1;
        }
        if pos == kept.len() {
            self.entries = kept;
            proof {
                lemma_live_same(ids, alive, now);
                lemma_id_place(alive, key@, pos as int);
            }
            return false;
        }
        assert(alive[pos as int].key == kept@[pos as int].0@);
        proof {
            lemma_id_place(alive, key@, pos as int);
        }
        let entry = kept.remove(pos);
        kept.push(entry);
        self.entries = kept;
        assert(self@ =~= moved_to_end(alive, pos as int));
        proof {
            let end = moved_to_end(alive, pos as int);
            assert forall|i: int, j: int| 0 <= i < j < end.len() implies (#[trigger] end[i]).key
                != (#[trigger] end[j]).key by {
                let a = if i < pos { i } else { i + 1 };
                let b = if j == end.len() - 1 { pos as int } else if j < pos { j } else { j + 1 };
                assert(end[i] == alive[a]);
                assert(end[j] == alive[b]);
            }
            assert forall|e: HeldId| end.contains(e) == alive.contains(e) by {
                if end.contains(e) {
                    let i = choose|i: int| 0 <= i < end.len() && end[i] == e;
                    let a = if i == end.len() - 1 {
                        pos as int
                    } else if i < pos {
                        i
                    } else {
                        i + 1
                    };
                    assert(alive[a] == e);
                }
                if alive.contains(e) {
                    let i = choose|i: int| 0 <= i < alive.len() && alive[i] == e;
                    let a = if i == pos { end.len() - 1 } else if i < pos { i } else { i - 1 };
                    assert(end[a] == e);
                }
            }
            lemma_live_same(ids, end, now);
        }
        true
    }
}

/// What a store with room for `capacity` identifiers holds after one was added.
pub open spec fn after_add(
    ids: Seq<HeldId>,
    capacity: nat,
    ttl: u128,
    key: Seq<char>,
    now: u128,
) -> Seq<HeldId> {
    newest(
        live_others(ids, key, now).push(HeldId { key, expires: (now + ttl) as u128 }),
        capacity,
    )
}

/// An identifier that was added is found until its time is over.
pub proof fn law_added_is_found(
    ids: Seq<HeldId>,
    capacity: nat,
    ttl: u128,
    key: Seq<char>,
    now: u128,
    later: u128,
)
    requires
        capacity > 0,
        now + ttl <= u128::MAX,
        later <= now + ttl,
    ensures
        holds(live(after_add(ids, capacity, ttl, key, now), later), key),
{
    let after = after_add(ids, capacity, ttl, key, now);
    let e = HeldId { key, expires: (now + ttl) as u128 };
    let pred = |e: HeldId| e.expires >= later;
    assert(after[after.len() - 1] == e);
    assert(after.contains(e));
    assert(pred(e));
    lemma_filter(after, pred);
    let k = choose|k: int| 0 <= k < live(after, later).len() && live(after, later)[k] == e;
    assert(live(after, later)[k].key == key);
}

/// An identifier whose time is over is not found.
pub proof fn law_expired_is_not_found(ids: Seq<HeldId>, key: Seq<char>, now: u128)
    requires
        forall|i: int| 0 <= i < ids.len() && (#[trigger] ids[i]).key == key ==> ids[i].expires
            < now,
    ensures
        !holds(live(ids, now), key),
{
    let pred = |e: HeldId| e.expires >= now;
    lemma_filter(ids, pred);
    let alive = live(ids, now);
    if holds(alive, key) {
        let i = choose|i: int| 0 <= i < alive.len() && #[trigger] alive[i].key == key;
        assert(pred(alive[i]));
        assert(ids.contains(alive[i]));
        let k = choose|k: int| 0 <= k < ids.len() && ids[k] == alive[i];
        assert(ids[k].key == key);
    }
}

/// The identifier that was asked for last is not the one that makes room for another.
pub proof fn law_used_last_is_kept(
    ids: Seq<HeldId>,
    i: int,
    capacity: nat,
    ttl: u128,
    other: Seq<char>,
    now: u128,
)
    requires
        0 <= i < ids.len(),
        capacity >= 2,
        other != ids[i].key,
        ids[i].expires >= now,
    ensures
        after_add(moved_to_end(ids, i), capacity, ttl, other, now).contains(ids[i]),
{
    let front = ids.remove(i);
    let pred = |e: HeldId| e.key != other && e.expires >= now;
    lemma_filter_push(front, pred, ids[i]);
    let kept = live_others(moved_to_end(ids, i), other, now);
    assert(kept == front.filter(pred).push(ids[i]));
    let after = after_add(moved_to_end(ids, i), capacity, ttl, other, now);
    assert(after[after.len() - 2] == ids[i]);
}

impl Default for IdStore {
    fn default() -> (r: IdStore)
        ensures
            r.wf(),
            r.capacity() == DEFAULT_MAXSIZE,
            r.lifetime() == DEFAULT_TTL,
            r@ == Seq::<HeldId>::empty(),
    {
        IdStore::new(DEFAULT_MAXSIZE, DEFAULT_TTL)
    }
}

/// What is held at a time is, one by one and in order, what does not expire before it.
pub proof fn law_live(ids: Seq<HeldId>, e: HeldId, now: u128)
    ensures
        live(Seq::empty(), now).len() == 0,
        e.expires >= now ==> live(ids.push(e), now) == live(ids, now).push(e),
        e.expires < now ==> live(ids.push(e), now) == live(ids, now),
{
    let pred = |e: HeldId| e.expires >= now;
    lemma_filter(Seq::empty(), pred);
    lemma_filter_push(ids, pred, e);
}

/// An identifier is held where one of the identifiers is it.
pub proof fn law_holds(ids: Seq<HeldId>, e: HeldId, key: Seq<char>)
    ensures
        !holds(Seq::empty(), key),
        holds(ids.push(e), key) <==> holds(ids, key) || e.key == key,
{
    let all = ids.push(e);
    if holds(ids, key) {
        let i = choose|i: int| 0 <= i < ids.len() && #[trigger] ids[i].key == key;
        assert(all[i].key == key);
    }
    if e.key == key {
        assert(all[ids.len() as int].key == key);
    }
    if holds(all, key) {
        let i = choose|i: int| 0 <= i < all.len() && #[trigger] all[i].key == key;
        if i < ids.len() {
            assert(ids[i].key == key);
        }
    }
}

/// Where there is room for all, adding an identifier keeps all others that have not expired, in
/// their order, and puts it behind them with its full time.
pub proof fn law_added_with_room(
    ids: Seq<HeldId>,
    capacity: nat,
    ttl: u128,
    key: Seq<char>,
    now: u128,
)
    requires
        now + ttl <= u128::MAX,
        ids.len() < capacity,
        !holds(ids, key),
    ensures
        ({
            let after = after_add(ids, capacity, ttl, key, now);
            &&& after.drop_last() == live(ids, now)
            &&& after.last().key == key
            &&& after.last().expires == now + ttl
        }),
{
    let others = |e: HeldId| e.key != key && e.expires >= now;
    lemma_filter(ids, others);
    lemma_same_filter(ids, key, now);
    assert(after_add(ids, capacity, ttl, key, now).drop_last() =~= live(ids, now));
}

proof fn lemma_same_filter(ids: Seq<HeldId>, key: Seq<char>, now: u128)
    requires
        !holds(ids, key),
    ensures
        live_others(ids, key, now) == live(ids, now),
    decreases ids.len(),
{
    reveal(Seq::filter);
    if ids.len() > 0 {
        let front = ids.drop_last();
        assert forall|i: int| 0 <= i < front.len() implies #[trigger] front[i].key != key by {
            assert(front[i] == ids[i]);
        }
        lemma_same_filter(front, key, now);
        assert(ids[ids.len() - 1].key != key);
    }
}

/// Where there is no room, what was used longest ago makes room: what stays is the last of what
/// is held, in its order, with the identifier that was added at its end.
pub proof fn law_added_without_room(
    ids: Seq<HeldId>,
    capacity: nat,
    ttl: u128,
    key: Seq<char>,
    now: u128,
)
    requires
        now + ttl <= u128::MAX,
        0 < capacity <= live(ids, now).len(),
        !holds(ids, key),
    ensures
        ({
            let after = after_add(ids, capacity, ttl, key, now);
            let alive = live(ids, now);
            &&& after.len() == capacity
            &&& after.drop_last() == alive.skip(alive.len() - capacity + 1)
            &&& after.last().key == key
            &&& after.last().expires == now + ttl
        }),
{
    lemma_same_filter(ids, key, now);
    let alive = live(ids, now);
    assert(after_add(ids, capacity, ttl, key, now).drop_last() =~= alive.skip(
        alive.len() - capacity + 1,
    ));
}

/// An identifier that is added again is held once, at the end and with its full time; the others
/// stay as they were.
pub proof fn law_added_again(
    ids: Seq<HeldId>,
    capacity: nat,
    ttl: u128,
    key: Seq<char>,
    now: u128,
    i: int,
)
    requires
        now + ttl <= u128::MAX,
        distinct(ids),
        0 <= i < ids.len() <= capacity,
        ids[i].key == key,
    ensures
        after_add(ids, capacity, ttl, key, now) == after_add(
            ids.remove(i),
            capacity,
            ttl,
            key,
            now,
        ),
        !holds(ids.remove(i), key),
{
    let rest = ids.remove(i);
    assert forall|j: int| 0 <= j < rest.len() implies #[trigger] rest[j].key != key by {
        if j < i {
            assert(rest[j] == ids[j]);
        } else {
            assert(rest[j] == ids[j + 1]);
        }
    }
    lemma_without(ids, i, now);
}

proof fn lemma_without(ids: Seq<HeldId>, i: int, now: u128)
    requires
        0 <= i < ids.len(),
    ensures
        live_others(ids, ids[i].key, now) == live_others(ids.remove(i), ids[i].key, now),
    decreases ids.len(),
{
    reveal(Seq::filter);
    let key = ids[i].key;
    let front = ids.drop_last();
    if i == ids.len() - 1 {
        assert(ids.remove(i) =~= front);
    } else {
        assert(front[i] == ids[i]);
        lemma_without(front, i, now);
        assert(ids.remove(i).drop_last() =~= front.remove(i));
        assert(ids.remove(i).last() == ids.last());
    }
}

/// Asking for an identifier that is held moves it to the end and changes nothing else of what has
/// not expired; asking for one that is not held changes nothing of that.
pub proof fn law_asked(ids: Seq<HeldId>, key: Seq<char>, now: u128, i: int)
    requires
        distinct(ids),
    ensures
        ({
            let alive = live(ids, now);
            let after = after_asking(ids, key, now);
            &&& !holds(alive, key) ==> after == alive
            &&& 0 <= i < alive.len() && alive[i].key == key ==> after == alive.remove(i).push(
                alive[i],
            )
        }),
{
    let alive = live(ids, now);
    lemma_filter(ids, |e: HeldId| e.expires >= now);
    if !holds(alive, key) {
        lemma_id_place(alive, key, alive.len() as int);
    }
    if 0 <= i < alive.len() && alive[i].key == key {
        assert forall|j: int| 0 <= j < i implies #[trigger] alive[j].key != key by {
            assert(alive[j].key != alive[i].key);
        }
        lemma_id_place(alive, key, i);
    }
}

/// Where nothing is said, an identifier that is added is found for an hour and not longer, and ten
/// thousand of them are held.
pub proof fn law_default_store(ids: Seq<HeldId>, key: Seq<char>, now: u128, later: u128)
    requires
        now + 3_600_000_000_000 <= u128::MAX,
        !holds(ids, key),
    ensures
        holds(live(after_add(ids, DEFAULT_MAXSIZE as nat, DEFAULT_TTL, key, now), later), key)
            <==> later <= now + 3_600_000_000_000,
        DEFAULT_MAXSIZE == 10_000,
{
    let after = after_add(ids, DEFAULT_MAXSIZE as nat, DEFAULT_TTL, key, now);
    if later <= now + 3_600_000_000_000 {
        law_added_is_found(ids, DEFAULT_MAXSIZE as nat, DEFAULT_TTL, key, now, later);
    } else {
        lemma_filter(ids, |e: HeldId| e.key != key && e.expires >= now);
        let kept = live_others(ids, key, now);
        let all = kept.push(HeldId { key, expires: (now + DEFAULT_TTL) as u128 });
        assert forall|i: int|
            0 <= i < after.len() && (#[trigger] after[i]).key == key implies after[i].expires
            < later by {
            let shift = all.len() - after.len();
            assert(after[i] == all[i + shift]);
            if i + shift < kept.len() {
                assert(kept[i + shift].key != key);
            }
        }
        law_expired_is_not_found(after, key, later);
    }
}

} // verus!
