//! Token usage: what was billed over all rounds, and what the client is told.
use vstd::prelude::*;

use crate::codex::fields_of;
use crate::json::{opt_get, opt_i64, opt_view, Json, JsonView};

verus! {

/// The count in a field; zero, where it holds none.
pub open spec fn count(v: Option<JsonView>) -> i64 {
    match opt_i64(v) {
        Some(n) => n,
        None => 0,
    }
}

pub fn number(v: Option<&Json>) -> (r: i64)
    ensures
        r == count(opt_view(v)),
{
    match v {
        Some(j) => match j.as_i64() {
            Some(n) => n,
            None => 0,
        },
        None => 0,
    }
}

/// A record of counts with `delta` added to the count `key`. What is no record counts as an empty
/// one; a sum that leaves the range of a count wraps around.
pub open spec fn added(acc: JsonView, key: Seq<char>, delta: i64) -> JsonView {
    let rec = JsonView::Object(fields_of(acc));
    rec.set(key, JsonView::Int(count(rec.get(key)).wrapping_add(delta) as int))
}

/// A record of counts with `delta` added to the count `key` of its section `section`.
pub open spec fn added_nested(
    acc: JsonView,
    section: Seq<char>,
    key: Seq<char>,
    delta: i64,
) -> JsonView {
    let rec = JsonView::Object(fields_of(acc));
    let sec = match rec.get(section) {
        Some(s) => s,
        None => JsonView::Object(Map::empty()),
    };
    rec.set(section, added(sec, key, delta))
}

fn ensure_object(value: &mut Json)
    ensures
        final(value)@ == JsonView::Object(fields_of(old(value)@)),
{
    if !value.is_object() {
        *value = Json::object();
    }
}

pub fn add_number(acc: &mut Json, key: &str, delta: i64)
    ensures
        final(acc)@ == added(old(acc)@, key@, delta),
{
    ensure_object(acc);
    let next = number(acc.get(key)).wrapping_add(delta);
    acc.set(key, Json::Int(next));
}

pub fn add_nested(acc: &mut Json, section: &str, key: &str, delta: i64)
    ensures
        final(acc)@ == added_nested(old(acc)@, section@, key@, delta),
{
    ensure_object(acc);
    let mut sec = match acc.get(section) {
        Some(s) => s.clone(),
        None => Json::object(),
    };
    add_number(&mut sec, key, delta);
    acc.set(section, sec);
}

/// The counts of a usage report, one by one, where they are given.
pub open spec fn input_count(usage: JsonView) -> Option<i64> {
    opt_i64(usage.get("input_tokens"@))
}

pub open spec fn output_count(usage: JsonView) -> Option<i64> {
    opt_i64(usage.get("output_tokens"@))
}

pub open spec fn total_count(usage: JsonView) -> Option<i64> {
    opt_i64(usage.get("total_tokens"@))
}

pub open spec fn cached_count(usage: JsonView) -> Option<i64> {
    opt_i64(opt_get(usage.get("input_tokens_details"@), "cached_tokens"@))
}

pub open spec fn reasoning_count(usage: JsonView) -> Option<i64> {
    opt_i64(opt_get(usage.get("output_tokens_details"@), "reasoning_tokens"@))
}

/// A count added where it is given.
pub open spec fn added_if(acc: JsonView, key: Seq<char>, n: Option<i64>) -> JsonView {
    match n {
        Some(d) => added(acc, key, d),
        None => acc,
    }
}

/// A count of a section added where it is given.
pub open spec fn added_nested_if(
    acc: JsonView,
    section: Seq<char>,
    key: Seq<char>,
    n: Option<i64>,
) -> JsonView {
    match n {
        Some(d) => added_nested(acc, section, key, d),
        None => acc,
    }
}

/// The counts of `acc` and of a usage report together.
pub open spec fn summed(acc: JsonView, usage: Option<JsonView>) -> JsonView {
    match usage {
        Some(u) => {
            let acc = added_if(acc, "input_tokens"@, input_count(u));
            let acc = added_if(acc, "output_tokens"@, output_count(u));
            let acc = added_if(acc, "total_tokens"@, total_count(u));
            let acc = added_nested_if(
                acc,
                "input_tokens_details"@,
                "cached_tokens"@,
                cached_count(u),
            );
            added_nested_if(
                acc,
                "output_tokens_details"@,
                "reasoning_tokens"@,
                reasoning_count(u),
            )
        },
        None => acc,
    }
}

/// The count at `section.key` of a usage report, where it is given.
pub fn nested_count(usage: &Json, section: &str, key: &str) -> (r: Option<i64>)
    ensures
        r == opt_i64(opt_get(usage@.get(section@), key@)),
{
    match usage.get(section) {
        Some(d) => match d.get(key) {
            Some(n) => n.as_i64(),
            None => None,
        },
        None => None,
    }
}

fn flat_count(usage: &Json, key: &str) -> (r: Option<i64>)
    ensures
        r == opt_i64(usage@.get(key@)),
{
    match usage.get(key) {
        Some(n) => n.as_i64(),
        None => None,
    }
}

pub fn sum_usage(acc: &mut Json, usage: Option<&Json>)
    ensures
        final(acc)@ == summed(old(acc)@, opt_view(usage)),
{
    let u = match usage {
        Some(u) => u,
        None => {
            return;
        },
    };
    if let Some(n) = flat_count(u, "input_tokens") {
        add_number(acc, "input_tokens", n);
    }
    if let Some(n) = flat_count(u, "output_tokens") {
        add_number(acc, "output_tokens", n);
    }
    if let Some(n) = flat_count(u, "total_tokens") {
        add_number(acc, "total_tokens", n);
    }
    if let Some(n) = nested_count(u, "input_tokens_details", "cached_tokens") {
        add_nested(acc, "input_tokens_details", "cached_tokens", n);
    }
    if let Some(n) = nested_count(u, "output_tokens_details", "reasoning_tokens") {
        add_nested(acc, "output_tokens_details", "reasoning_tokens", n);
    }
}

/// The count at `section.key` of a usage report that may be missing.
pub open spec fn section_count(
    usage: Option<JsonView>,
    section: Seq<char>,
    key: Seq<char>,
) -> Option<i64> {
    opt_i64(opt_get(opt_get(usage, section), key))
}

/// The input that the client is told of: that of the first round.
pub open spec fn told_input(first: Option<JsonView>) -> i64 {
    count(opt_get(first, "input_tokens"@))
}

/// The reasoning that the client is told of: that of all rounds.
pub open spec fn told_reasoning(total: Option<JsonView>) -> i64 {
    count(opt_get(opt_get(total, "output_tokens_details"@), "reasoning_tokens"@))
}

/// The answer that the client is told of: what the last round put out beyond its reasoning, where
/// its output reaches the client.
pub open spec fn told_answer(last: Option<JsonView>, flushed: bool) -> i64 {
    if flushed {
        let rest = count(opt_get(last, "output_tokens"@)).wrapping_sub(
            count(opt_get(opt_get(last, "output_tokens_details"@), "reasoning_tokens"@)),
        );
        if rest > 0 {
            rest
        } else {
            0
        }
    } else {
        0
    }
}

/// The usage that the client is told: as of one response whose input is that of the first round,
/// whose reasoning is that of all rounds, and whose answer is that of the last one. Sums that
/// leave the range of a count wrap around.
pub open spec fn told_usage(
    first: Option<JsonView>,
    total: Option<JsonView>,
    last: Option<JsonView>,
    flushed: bool,
) -> JsonView {
    let input = told_input(first);
    let reasoning = told_reasoning(total);
    let output = reasoning.wrapping_add(told_answer(last, flushed));
    let usage = JsonView::Object(
        map![
            "input_tokens"@ => JsonView::Int(input as int),
            "output_tokens"@ => JsonView::Int(output as int),
            "total_tokens"@ => JsonView::Int(input.wrapping_add(output) as int),
            "output_tokens_details"@ => JsonView::Object(
                map!["reasoning_tokens"@ => JsonView::Int(reasoning as int)],
            ),
        ],
    );
    match section_count(first, "input_tokens_details"@, "cached_tokens"@) {
        Some(cached) => usage.set(
            "input_tokens_details"@,
            JsonView::Object(map!["cached_tokens"@ => JsonView::Int(cached as int)]),
        ),
        None => usage,
    }
}

fn opt_nested(usage: Option<&Json>, section: &str, key: &str) -> (r: Option<i64>)
    ensures
        r == section_count(opt_view(usage), section@, key@),
{
    match usage {
        Some(u) => nested_count(u, section, key),
        None => None,
    }
}

fn or_zero(n: Option<i64>) -> (r: i64)
    ensures
        r == (match n {
            Some(k) => k,
            None => 0,
        }),
{
    match n {
        Some(k) => k,
        None => 0,
    }
}

pub fn agent_usage(
    first: Option<&Json>,
    total: Option<&Json>,
    final_round: Option<&Json>,
    flushed_final: bool,
) -> (r: Json)
    ensures
        r@ == told_usage(
            opt_view(first),
            opt_view(total),
            opt_view(final_round),
            flushed_final,
        ),
{
    let in_tok = match first {
        Some(u) => number(u.get("input_tokens")),
        None => 0,
    };
    let cached = opt_nested(first, "input_tokens_details", "cached_tokens");
    let reasoning = or_zero(opt_nested(total, "output_tokens_details", "reasoning_tokens"));
    let answer: i64 = if flushed_final {
        let fo = match final_round {
            Some(u) => number(u.get("output_tokens")),
            None => 0,
        };
        let fr = or_zero(opt_nested(final_round, "output_tokens_details", "reasoning_tokens"));
        let rest = fo.wrapping_sub(fr);
        if rest > 0 {
            rest
        } else {
            0
        }
    } else {
        0
    };
    let out_tok = reasoning.wrapping_add(answer);
    let usage = Json::object().with("input_tokens", Json::Int(in_tok)).with(
        "output_tokens",
        Json::Int(out_tok),
    ).with("total_tokens", Json::Int(in_tok.wrapping_add(out_tok))).with(
        "output_tokens_details",
        Json::object().with("reasoning_tokens", Json::Int(reasoning)),
    );
    match cached {
        Some(n) => usage.with(
            "input_tokens_details",
            Json::object().with("cached_tokens", Json::Int(n)),
        ),
        None => usage,
    }
}

proof fn lemma_names()
    ensures
        "input_tokens"@ != "output_tokens"@,
        "input_tokens"@ != "total_tokens"@,
        "input_tokens"@ != "input_tokens_details"@,
        "input_tokens"@ != "output_tokens_details"@,
        "output_tokens"@ != "total_tokens"@,
        "output_tokens"@ != "input_tokens_details"@,
        "output_tokens"@ != "output_tokens_details"@,
        "total_tokens"@ != "input_tokens_details"@,
        "total_tokens"@ != "output_tokens_details"@,
        "input_tokens_details"@ != "output_tokens_details"@,
{
    reveal_strlit("input_tokens");
    reveal_strlit("output_tokens");
    reveal_strlit("total_tokens");
    reveal_strlit("input_tokens_details");
    reveal_strlit("output_tokens_details");
    assert("input_tokens"@.len() == 12 && "input_tokens"@[0] == 'i');
    assert("output_tokens"@.len() == 13);
    assert("total_tokens"@.len() == 12 && "total_tokens"@[0] == 't');
    assert("input_tokens_details"@.len() == 20);
    assert("output_tokens_details"@.len() == 21);
}

/// A count of a usage report, zero where it is not given.
pub open spec fn given(n: Option<i64>) -> int {
    match n {
        Some(k) => k as int,
        None => 0,
    }
}

/// Whether two counts can be summed up.
pub open spec fn summable(a: Option<i64>, b: Option<i64>) -> bool {
    i64::MIN <= given(a) + given(b) <= i64::MAX
}

/// The usage of rounds is the sum of what the rounds report, count by count.
#[verifier::spinoff_prover]
#[verifier::rlimit(40)]
pub proof fn law_usage_sums(acc: JsonView, usage: JsonView)
    requires
        summable(input_count(acc), input_count(usage)),
        summable(output_count(acc), output_count(usage)),
        summable(total_count(acc), total_count(usage)),
        summable(cached_count(acc), cached_count(usage)),
        summable(reasoning_count(acc), reasoning_count(usage)),
    ensures
        ({
            let sum = summed(acc, Some(usage));
            &&& given(input_count(sum)) == given(input_count(acc)) + given(input_count(usage))
            &&& given(output_count(sum)) == given(output_count(acc)) + given(output_count(usage))
            &&& given(total_count(sum)) == given(total_count(acc)) + given(total_count(usage))
            &&& given(cached_count(sum)) == given(cached_count(acc)) + given(cached_count(usage))
            &&& given(reasoning_count(sum)) == given(reasoning_count(acc)) + given(
                reasoning_count(usage),
            )
        }),
{
    lemma_names();
    let s1 = added_if(acc, "input_tokens"@, input_count(usage));
    let s2 = added_if(s1, "output_tokens"@, output_count(usage));
    let s3 = added_if(s2, "total_tokens"@, total_count(usage));
    let s4 = added_nested_if(
        s3,
        "input_tokens_details"@,
        "cached_tokens"@,
        cached_count(usage),
    );
    assert(given(input_count(s1)) == given(input_count(acc)) + given(input_count(usage)));
    assert(s1.get("output_tokens"@) == acc.get("output_tokens"@));
    assert(s1.get("total_tokens"@) == acc.get("total_tokens"@));
    assert(s1.get("input_tokens_details"@) == acc.get("input_tokens_details"@));
    assert(s1.get("output_tokens_details"@) == acc.get("output_tokens_details"@));
    assert(given(output_count(s2)) == given(output_count(acc)) + given(output_count(usage)));
    assert(s2.get("input_tokens"@) == s1.get("input_tokens"@));
    assert(given(total_count(s3)) == given(total_count(acc)) + given(total_count(usage)));
    assert(s3.get("input_tokens"@) == s1.get("input_tokens"@));
    assert(s3.get("output_tokens"@) == s2.get("output_tokens"@));
    assert(cached_count(s3) == cached_count(acc));
    assert(given(cached_count(s4)) == given(cached_count(acc)) + given(cached_count(usage)));
    assert(reasoning_count(s4) == reasoning_count(acc));
}

/// The client is told of one response: the input and the cached input of the first round, the
/// reasoning of all rounds, and what the last round put out beyond its reasoning.
pub proof fn law_told_usage(
    first: JsonView,
    total: JsonView,
    last: JsonView,
    flushed: bool,
)
    requires
        i64::MIN <= given(output_count(last)) - given(reasoning_count(last)) <= i64::MAX,
        i64::MIN <= given(reasoning_count(total)) + told_answer(Some(last), flushed) <= i64::MAX,
        i64::MIN <= given(input_count(first)) + given(reasoning_count(total)) + told_answer(
            Some(last),
            flushed,
        ) <= i64::MAX,
    ensures
        ({
            let told = told_usage(Some(first), Some(total), Some(last), flushed);
            let beyond = given(output_count(last)) - given(reasoning_count(last));
            let answer = if flushed && beyond > 0 {
                beyond
            } else {
                0
            };
            &&& given(input_count(told)) == given(input_count(first))
            &&& cached_count(told) == cached_count(first)
            &&& given(reasoning_count(told)) == given(reasoning_count(total))
            &&& given(output_count(told)) == given(reasoning_count(total)) + answer
            &&& given(total_count(told)) == given(input_count(told)) + given(output_count(told))
        }),
{
    lemma_names();
}

/// A count is the number in its place, where that is a number that fits; else it is zero.
pub proof fn law_count(n: i64, v: JsonView)
    ensures
        count(Some(JsonView::Int(n as int))) == n,
        count(None) == 0,
        !(v is Int) ==> count(Some(v)) == 0,
{
}

/// Summing up changes no field but the counts, and no count that a report does not give.
#[verifier::spinoff_prover]
#[verifier::rlimit(40)]
pub proof fn law_usage_keeps_rest(acc: JsonView, usage: JsonView, key: Seq<char>)
    requires
        acc is Object,
    ensures
        ({
            let sum = summed(acc, Some(usage));
            &&& sum is Object
            &&& key != "input_tokens"@ && key != "output_tokens"@ && key != "total_tokens"@ && key
                != "input_tokens_details"@ && key != "output_tokens_details"@ ==> sum.get(key)
                == acc.get(key)
            &&& input_count(usage) is None ==> sum.get("input_tokens"@) == acc.get(
                "input_tokens"@,
            )
            &&& output_count(usage) is None ==> sum.get("output_tokens"@) == acc.get(
                "output_tokens"@,
            )
            &&& total_count(usage) is None ==> sum.get("total_tokens"@) == acc.get(
                "total_tokens"@,
            )
            &&& cached_count(usage) is None ==> sum.get("input_tokens_details"@) == acc.get(
                "input_tokens_details"@,
            )
            &&& reasoning_count(usage) is None ==> sum.get("output_tokens_details"@) == acc.get(
                "output_tokens_details"@,
            )
            &&& key != "cached_tokens"@ ==> opt_get(sum.get("input_tokens_details"@), key)
                == opt_get(acc.get("input_tokens_details"@), key)
            &&& key != "reasoning_tokens"@ ==> opt_get(sum.get("output_tokens_details"@), key)
                == opt_get(acc.get("output_tokens_details"@), key)
        }),
        summed(acc, None) == acc,
{
    lemma_names();
}

/// The counts are told in their fields.
pub proof fn law_usage_fields(usage: JsonView, n: i64)
    ensures
        input_count(usage) == Some(n) <==> usage.get("input_tokens"@) == Some(
            JsonView::Int(n as int),
        ),
        output_count(usage) == Some(n) <==> usage.get("output_tokens"@) == Some(
            JsonView::Int(n as int),
        ),
        total_count(usage) == Some(n) <==> usage.get("total_tokens"@) == Some(
            JsonView::Int(n as int),
        ),
        cached_count(usage) == Some(n) <==> usage.get("input_tokens_details"@) is Some
            && usage.get("input_tokens_details"@)->Some_0.get("cached_tokens"@) == Some(
            JsonView::Int(n as int),
        ),
        reasoning_count(usage) == Some(n) <==> usage.get("output_tokens_details"@) is Some
            && usage.get("output_tokens_details"@)->Some_0.get("reasoning_tokens"@) == Some(
            JsonView::Int(n as int),
        ),
{
}

/// A report that is missing counts as an empty one, and the cached input is told only where the
/// first round told it.
pub proof fn law_told_of_nothing(
    first: Option<JsonView>,
    total: Option<JsonView>,
    last: Option<JsonView>,
    flushed: bool,
)
    ensures
        ({
            let none = Some(JsonView::Object(Map::empty()));
            &&& told_usage(None, total, last, flushed) == told_usage(none, total, last, flushed)
            &&& told_usage(first, None, last, flushed) == told_usage(first, none, last, flushed)
            &&& told_usage(first, total, None, flushed) == told_usage(first, total, none, flushed)
            &&& told_usage(first, total, last, false) == told_usage(first, total, None, false)
            &&& first is None || cached_count(first->Some_0) is None ==> told_usage(
                first,
                total,
                last,
                flushed,
            ).get("input_tokens_details"@) is None
        }),
{
    lemma_names();
}

/// A sum of counts as it is told: one that leaves the range of a count comes back at its other end.
pub open spec fn wrapped(n: int) -> int {
    if n > i64::MAX {
        n - 0x1_0000_0000_0000_0000
    } else if n < i64::MIN {
        n + 0x1_0000_0000_0000_0000
    } else {
        n
    }
}

/// Adding to a count adds to it and to nothing else, though the sum leave its range.
pub proof fn law_added(acc: JsonView, key: Seq<char>, delta: i64, other: Seq<char>)
    ensures
        added(acc, key, delta).get(key) == Some(
            JsonView::Int(wrapped(count(acc.get(key)) + delta)),
        ),
        other != key ==> added(acc, key, delta).get(other) == acc.get(other),
        added(acc, key, delta) is Object,
{
}

/// The usage that the client is told is made of the counts of the rounds, though sums leave their
/// range.
pub proof fn law_told_counts(first: JsonView, total: JsonView, last: JsonView)
    ensures
        ({
            let told = told_usage(Some(first), Some(total), Some(last), true);
            let none = told_usage(Some(first), Some(total), Some(last), false);
            let beyond = wrapped(given(output_count(last)) - given(reasoning_count(last)));
            let answer = if beyond > 0 {
                beyond
            } else {
                0
            };
            let output = wrapped(given(reasoning_count(total)) + answer);
            &&& told.get("input_tokens"@) == Some(JsonView::Int(given(input_count(first))))
            &&& told.get("output_tokens"@) == Some(JsonView::Int(output))
            &&& told.get("total_tokens"@) == Some(
                JsonView::Int(wrapped(given(input_count(first)) + output)),
            )
            &&& reasoning_count(told) == Some(given(reasoning_count(total)) as i64)
            &&& none.get("output_tokens"@) == Some(
                JsonView::Int(given(reasoning_count(total))),
            )
            &&& none.get("total_tokens"@) == Some(
                JsonView::Int(wrapped(given(input_count(first)) + given(reasoning_count(total)))),
            )
        }),
{
    lemma_names();
}

} // verus!
