//! Detecting truncated reasoning, and the payloads that continue it.
use sha1::Digest;
use vstd::arithmetic::div_mod::*;
use vstd::arithmetic::mul::*;
use vstd::prelude::*;
use vstd::string::*;
use vstd::utf8::*;

use crate::json::{
    lemma_views, lemma_views_push, opt_get, opt_i64, opt_str, opt_view, views, Json, JsonView,
};
use crate::store::{after_asking, holds, live, HeldId, IdStore};
use crate::text::same_text;
use crate::value::json_text;

verus! {

/// The step between two token counts at which reasoning is cut off.
pub const DEFAULT_TRUNCATION_STEP: i64 = 518;

/// What a request includes to get encrypted reasoning.
pub const ENCRYPTED_INCLUDE: &'static str = "reasoning.encrypted_content";

/// Whether a token count can be held against a step at all: the numbers involved fit, and the
/// step is not zero where it has to divide.
pub open spec fn countable(tokens: Option<i64>, step: i64) -> bool {
    tokens matches Some(t) ==> {
        &&& step - 2 >= i64::MIN
        &&& t >= step - 2 ==> step != 0 && t + 2 <= i64::MAX
    }
}

/// Whether a token count is one at which reasoning is cut off: two below a multiple of the step,
/// and not below the first one.
pub open spec fn truncation_pattern(tokens: Option<i64>, step: i64) -> bool {
    tokens matches Some(t) && t >= step - 2 && (t + 2) % (step as int) == 0
}

/// Which multiple of the step a token count at which reasoning is cut off belongs to.
pub open spec fn tier(tokens: Option<i64>, step: i64) -> Option<int> {
    if truncation_pattern(tokens, step) {
        Some((tokens->Some_0 + 2) / (step as int))
    } else {
        None
    }
}

/// Whether a token count is cut off in the window from `min_n` to `max_n`; a `max_n` of zero
/// leaves the window open.
pub open spec fn in_window(tokens: Option<i64>, min_n: i64, max_n: i64, step: i64) -> bool {
    tier(tokens, step) matches Some(n) && n >= min_n && (max_n == 0 || n <= max_n)
}

/// The counts at which reasoning is cut off are `step * n - 2` for a positive `n`, and `n` is
/// their tier.
pub proof fn law_truncation_counts(t: i64, step: i64, n: int)
    requires
        step > 0,
    ensures
        truncation_pattern(Some(t), step) <==> exists|k: int|
            k >= 1 && t == #[trigger] (step * k) - 2,
        n >= 1 && t == step * n - 2 ==> tier(Some(t), step) == Some(n),
{
    let s = step as int;
    if truncation_pattern(Some(t), step) {
        let k = (t + 2) / s;
        lemma_fundamental_div_mod(t + 2, s);
        assert(t + 2 == s * k);
        assert(k >= 1) by (nonlinear_arith)
            requires
                s * k >= s,
                s > 0,
        ;
        assert(t == step * k - 2);
    }
    if exists|k: int| k >= 1 && t == #[trigger] (step * k) - 2 {
        let k = choose|k: int| k >= 1 && t == #[trigger] (step * k) - 2;
        assert(s * k >= s) by (nonlinear_arith)
            requires
                k >= 1,
                s > 0,
        ;
        lemma_mod_multiples_basic(k, s);
        lemma_mul_is_commutative(k, s);
    }
    if n >= 1 && t == step * n - 2 {
        assert(s * n >= s) by (nonlinear_arith)
            requires
                n >= 1,
                s > 0,
        ;
        lemma_mod_multiples_basic(n, s);
        lemma_mul_is_commutative(n, s);
        lemma_div_multiples_vanish(n, s);
    }
}

/// Whether a token count can be held against a step at all.
pub fn is_countable(tokens: Option<i64>, step: i64) -> (r: bool)
    ensures
        r == countable(tokens, step),
{
    match tokens {
        Some(t) => step >= i64::MIN + 2 && (t < step - 2 || (step != 0 && t <= i64::MAX - 2)),
        None => true,
    }
}

/// A multiple is divided without a rest, and the quotient is not larger than the multiple.
proof fn lemma_exact(s: int, q: int)
    requires
        s != 0,
    ensures
        (s * q) % s == 0,
        (s * q) / s == q,
        s * q >= 0 ==> -(s * q) <= q <= s * q,
        s * q <= 0 ==> s * q <= q <= -(s * q),
{
    let x = s * q;
    let k = x / s;
    let r = x % s;
    let d = if s > 0 { s } else { -s };
    assert(x == s * k + r && 0 <= r < d) by (nonlinear_arith)
        requires
            s != 0,
            k == x / s,
            r == x % s,
            d == (if s > 0 { s } else { -s }),
    ;
    assert(r == s * (q - k)) by (nonlinear_arith)
        requires
            x == s * q,
            x == s * k + r,
    ;
    assert(q == k) by (nonlinear_arith)
        requires
            r == s * (q - k),
            0 <= r < d,
            d == (if s > 0 { s } else { -s }),
            s != 0,
    ;
    assert(r == 0) by (nonlinear_arith)
        requires
            r == s * (q - k),
            q == k,
    ;
    assert((x >= 0 ==> -x <= q <= x) && (x <= 0 ==> x <= q <= -x)) by (nonlinear_arith)
        requires
            x == s * q,
            s != 0,
    ;
}

/// A number and its opposite have the same divisors, and opposite quotients.
proof fn lemma_opposite(x: int, s: int)
    requires
        s != 0,
    ensures
        x % s == 0 <==> (-x) % s == 0,
        x % s == 0 ==> x / s == -((-x) / s),
        x % s == 0 && x >= 0 ==> -x <= x / s <= x,
        x % s == 0 && x <= 0 ==> x <= x / s <= -x,
{
    let q = x / s;
    let p = (-x) / s;
    if x % s == 0 {
        assert(x == s * q) by (nonlinear_arith)
            requires
                s != 0,
                x % s == 0,
                q == x / s,
        ;
        assert(-x == s * (-q)) by (nonlinear_arith)
            requires
                x == s * q,
        ;
        lemma_exact(s, q);
        lemma_exact(s, -q);
    }
    if (-x) % s == 0 {
        assert(-x == s * p) by (nonlinear_arith)
            requires
                s != 0,
                (-x) % s == 0,
                p == (-x) / s,
        ;
        assert(x == s * (-p)) by (nonlinear_arith)
            requires
                -x == s * p,
        ;
        lemma_exact(s, -p);
    }
}

pub fn is_truncation_pattern(tokens: Option<i64>, step: i64) -> (r: bool)
    requires
        countable(tokens, step),
    ensures
        r == truncation_pattern(tokens, step),
{
    match tokens {
        Some(t) => {
            if t < step - 2 {
                return false;
            }
            proof {
                lemma_opposite(t + 2, step as int);
            }
            (t + 2) % step == 0
        },
        None => false,
    }
}

pub fn tier_n(tokens: Option<i64>, step: i64) -> (r: Option<i64>)
    requires
        countable(tokens, step),
    ensures
        match r {
            Some(n) => tier(tokens, step) == Some(n as int),
            None => tier(tokens, step) is None,
        },
{
    if !is_truncation_pattern(tokens, step) {
        return None;
    }
    match tokens {
        Some(t) => {
            proof {
                lemma_opposite(t + 2, step as int);
            }
            Some((t + 2) / step)
        },
        None => None,
    }
}

pub fn should_continue(tokens: Option<i64>, min_n: i64, max_n: i64, step: i64) -> (r: bool)
    requires
        countable(tokens, step),
    ensures
        r == in_window(tokens, min_n, max_n, step),
{
    match tier_n(tokens, step) {
        Some(n) => n >= min_n && (max_n == 0 || n <= max_n),
        None => false,
    }
}

/// The reasoning tokens that a usage report counts.
pub open spec fn counted_reasoning(usage: Option<JsonView>) -> Option<i64> {
    opt_i64(opt_get(opt_get(usage, "output_tokens_details"@), "reasoning_tokens"@))
}

pub fn reasoning_tokens(usage: Option<&Json>) -> (r: Option<i64>)
    ensures
        r == counted_reasoning(opt_view(usage)),
{
    match usage {
        Some(u) => match u.get("output_tokens_details") {
            Some(d) => match d.get("reasoning_tokens") {
                Some(n) => n.as_i64(),
                None => None,
            },
            None => None,
        },
        None => None,
    }
}

/// The SHA-1 digest of bytes.
pub uninterp spec fn sha1_of(data: Seq<u8>) -> Seq<u8>;

/// `sha1::Sha1::digest` gives the SHA-1 digest of bytes, which is twenty bytes long and depends
/// on the bytes alone.
#[verifier::external_body]
fn sha1_digest(data: &[u8]) -> (r: Vec<u8>)
    ensures
        r@ == sha1_of(data@),
        r@.len() == 20,
{
    sha1::Sha1::digest(data).to_vec()
}

/// The digit of a number below sixteen.
pub open spec fn hex_digit(d: int) -> char {
    if d < 10 {
        (48 + d) as char
    } else {
        (87 + d) as char
    }
}

/// Bytes in hexadecimal, two small digits each.
pub open spec fn hex_text(bytes: Seq<u8>) -> Seq<char>
    decreases bytes.len(),
{
    if bytes.len() == 0 {
        Seq::empty()
    } else {
        hex_text(bytes.drop_last()).push(hex_digit(bytes.last() as int / 16)).push(
            hex_digit(bytes.last() as int % 16),
        )
    }
}

fn hex_char(d: u8) -> (r: char)
    requires
        d < 16,
    ensures
        r == hex_digit(d as int),
{
    if d < 10 {
        (48 + d) as char
    } else {
        (87 + d) as char
    }
}

pub fn hex_lower(bytes: &[u8]) -> (r: String)
    ensures
        r@ == hex_text(bytes@),
{
    let mut out = String::new();
    for i in 0..bytes.len()
        invariant
            out@ == hex_text(bytes@.take(i as int)),
    {
        let b = bytes[i];
        out.push(hex_char(b / 16));
        out.push(hex_char(b % 16));
        assert(bytes@.take(i + 1).drop_last() =~= bytes@.take(i as int));
    }
    assert(bytes@.take(bytes@.len() as int) =~= bytes@);
    out
}

/// The call identifier that a digest makes: its first twelve bytes in hexadecimal.
pub open spec fn digest_call_id(digest: Seq<u8>) -> Seq<char> {
    "call_"@ + hex_text(digest.take(12))
}

/// The identifier of the call that continues a piece of reasoning.
pub open spec fn call_id(reasoning_id: Seq<char>) -> Seq<char> {
    digest_call_id(sha1_of(encode_utf8(reasoning_id)))
}

/// The call identifier that a digest makes.
pub fn call_id_of_digest(digest: &[u8]) -> (r: String)
    requires
        digest@.len() >= 12,
    ensures
        r@ == digest_call_id(digest@),
{
    let mut head: Vec<u8> = Vec::new();
    for i in 0..12usize
        invariant
            digest@.len() >= 12,
            head@ == digest@.take(i as int),
    {
        head.push(digest[i]);
        assert(head@ =~= digest@.take(i + 1));
    }
    let hex = hex_lower(head.as_slice());
    let mut out = "call_".to_owned();
    out.append(hex.as_str());
    out
}

pub fn continue_call_id(reasoning_id: &str) -> (r: String)
    ensures
        r@ == call_id(reasoning_id@),
{
    let digest = sha1_digest(reasoning_id.as_bytes());
    call_id_of_digest(digest.as_slice())
}

/// The call of the continuation tool.
pub open spec fn continue_call(id: Seq<char>, tool_name: Seq<char>) -> JsonView {
    JsonView::Object(
        map![
            "type"@ => JsonView::Text("function_call"@),
            "call_id"@ => JsonView::Text(id),
            "name"@ => JsonView::Text(tool_name),
            "arguments"@ => JsonView::Text("{\"continue\": true}"@),
        ],
    )
}

/// What the continuation tool gave back.
pub open spec fn continue_output(id: Seq<char>, output_text: Seq<char>) -> JsonView {
    JsonView::Object(
        map![
            "type"@ => JsonView::Text("function_call_output"@),
            "call_id"@ => JsonView::Text(id),
            "output"@ => JsonView::Text(output_text),
        ],
    )
}

pub fn continue_pair(reasoning_id: &str, tool_name: &str, output_text: &str) -> (r: (Json, Json))
    ensures
        r.0@ == continue_call(call_id(reasoning_id@), tool_name@),
        r.1@ == continue_output(call_id(reasoning_id@), output_text@),
{
    let id = continue_call_id(reasoning_id);
    (
        Json::object().with("type", Json::text("function_call")).with(
            "call_id",
            Json::text(id.as_str()),
        ).with("name", Json::text(tool_name)).with(
            "arguments",
            Json::text("{\"continue\": true}"),
        ),
        Json::object().with("type", Json::text("function_call_output")).with(
            "call_id",
            Json::text(id.as_str()),
        ).with("output", Json::text(output_text)),
    )
}

/// A piece of output text.
pub open spec fn output_text(text: Seq<char>) -> JsonView {
    JsonView::Object(
        map!["type"@ => JsonView::Text("output_text"@), "text"@ => JsonView::Text(text)],
    )
}

/// The message that asks for more reasoning.
pub open spec fn commentary(text: Seq<char>) -> JsonView {
    JsonView::Object(
        map![
            "type"@ => JsonView::Text("message"@),
            "role"@ => JsonView::Text("assistant"@),
            "content"@ => JsonView::Array(seq![output_text(text)]),
            "phase"@ => JsonView::Text("commentary"@),
        ],
    )
}

/// A list with one piece of output text.
pub fn output_text_list(text: &str) -> (r: Json)
    ensures
        r@ == JsonView::Array(seq![output_text(text@)]),
{
    let part = Json::object().with("type", Json::text("output_text")).with(
        "text",
        Json::text(text),
    );
    let xs = vec![part];
    proof {
        lemma_views(xs@);
        assert(views(xs@) =~= seq![output_text(text@)]);
    }
    Json::Array(xs)
}

pub fn commentary_message(text: &str) -> (r: Json)
    ensures
        r@ == commentary(text@),
{
    Json::object().with("type", Json::text("message")).with("role", Json::text("assistant")).with(
        "content",
        output_text_list(text),
    ).with("phase", Json::text("commentary"))
}

/// An entry of an include list as a text.
pub open spec fn include_text(v: JsonView) -> JsonView {
    match v {
        JsonView::Text(s) => JsonView::Text(s),
        other => JsonView::Text(json_text(other)),
    }
}

/// The entries of an include list, if there is one.
pub open spec fn include_list(listed: Option<JsonView>) -> Seq<JsonView> {
    match listed {
        Some(JsonView::Array(xs)) => xs.map_values(|x: JsonView| include_text(x)),
        _ => Seq::empty(),
    }
}

/// An include list to which the encrypted reasoning is added, where it is asked for and not
/// there.
pub open spec fn merged_include(listed: Option<JsonView>, force: bool) -> Seq<JsonView> {
    let items = include_list(listed);
    if force && !items.contains(JsonView::Text(ENCRYPTED_INCLUDE@)) {
        items.push(JsonView::Text(ENCRYPTED_INCLUDE@))
    } else {
        items
    }
}

pub fn merge_include(listed: Option<&Json>, force_encrypted: bool) -> (r: Vec<Json>)
    ensures
        views(r@) == merged_include(opt_view(listed), force_encrypted),
{
    let mut items: Vec<Json> = Vec::new();
    let mut found = false;
    let ghost want = include_list(opt_view(listed));
    match listed {
        Some(Json::Array(xs)) => {
            proof {
                lemma_views(xs@);
            }
            assert(views(items@) =~= want.take(0));
            for i in 0..xs.len()
                invariant
                    views(xs@).len() == xs@.len(),
                    forall|j: int| 0 <= j < xs@.len() ==> #[trigger] views(xs@)[j] == xs@[j]@,
                    want == views(xs@).map_values(|x: JsonView| include_text(x)),
                    views(items@) == want.take(i as int),
                    found == want.take(i as int).contains(JsonView::Text(ENCRYPTED_INCLUDE@)),
            {
                let text = match xs[i].as_str() {
                    Some(s) => s.to_owned(),
                    None => xs[i].print(),
                };
                if same_text(text.as_str(), ENCRYPTED_INCLUDE) {
                    found = true;
                }
                let item = Json::Text(text);
                proof {
                    assert(want[i as int] == include_text(views(xs@)[i as int]));
                    assert(item@ == want[i as int]);
                    lemma_views_push(items@, item);
                    let now = want.take(i + 1);
                    assert(now =~= want.take(i as int).push(item@));
                    let enc = JsonView::Text(ENCRYPTED_INCLUDE@);
                    if item@ == enc {
                        assert(now[i as int] == enc);
                    } else if want.take(i as int).contains(enc) {
                        let k = choose|k: int| 0 <= k < i && want.take(i as int)[k] == enc;
                        assert(now[k] == enc);
                    }
                }
                items.push(item);
            }
            assert(want.take(want.len() as int) =~= want);
        },
        _ => {
            assert(views(items@) =~= want);
        },
    }
    assert(views(items@) == want);
    assert(found == want.contains(JsonView::Text(ENCRYPTED_INCLUDE@)));
    if force_encrypted && !found {
        let item = Json::text(ENCRYPTED_INCLUDE);
        proof {
            lemma_views_push(items@, item);
        }
        items.push(item);
    }
    items
}

/// The fields of an object; none of what is no object.
pub open spec fn fields_of(v: JsonView) -> Map<Seq<char>, JsonView> {
    match v {
        JsonView::Object(m) => m,
        _ => Map::empty(),
    }
}

/// The body of a request for one round: that of the client, streamed, with the given input.
pub open spec fn round_payload(
    base: JsonView,
    input: Seq<JsonView>,
    force_include: bool,
    drop_previous: bool,
) -> JsonView {
    let body = JsonView::Object(fields_of(base)).set("stream"@, JsonView::Bool(true)).set(
        "input"@,
        JsonView::Array(input),
    );
    let body = if force_include || base.get("include"@) is Some {
        body.set(
            "include"@,
            JsonView::Array(merged_include(base.get("include"@), force_include)),
        )
    } else {
        body
    };
    if drop_previous {
        body.unset("previous_response_id"@)
    } else {
        body
    }
}

pub fn build_round_payload(
    base_body: &Json,
    input_items: Vec<Json>,
    force_include_encrypted: bool,
    drop_previous_response_id: bool,
) -> (r: Json)
    ensures
        r@ == round_payload(
            base_body@,
            views(input_items@),
            force_include_encrypted,
            drop_previous_response_id,
        ),
{
    let mut body = if base_body.is_object() {
        base_body.clone()
    } else {
        Json::object()
    };
    body.set("stream", Json::Bool(true));
    body.set("input", Json::Array(input_items));
    let listed = base_body.get("include");
    if force_include_encrypted || listed.is_some() {
        body.set("include", Json::Array(merge_include(listed, force_include_encrypted)));
    }
    if drop_previous_response_id {
        body.unset("previous_response_id");
    }
    body
}

/// Whether a request declares a tool of the given name.
pub open spec fn declares_tool(body: JsonView, tool_name: Seq<char>) -> bool {
    match body.get("tools"@) {
        Some(JsonView::Array(tools)) => exists|i: int|
            0 <= i < tools.len() && opt_str((#[trigger] tools[i]).get("name"@)) == Some(tool_name),
        _ => false,
    }
}

pub fn declares_continue_tool(body: &Json, tool_name: &str) -> (r: bool)
    ensures
        r == declares_tool(body@, tool_name@),
{
    let tools = match body.get("tools") {
        Some(Json::Array(tools)) => tools,
        _ => {
            return false;
        },
    };
    proof {
        lemma_views(tools@);
    }
    for i in 0..tools.len()
        invariant
            body@.get("tools"@) == Some(JsonView::Array(views(tools@))),
            views(tools@).len() == tools@.len(),
            forall|j: int| 0 <= j < tools@.len() ==> #[trigger] views(tools@)[j] == tools@[j]@,
            forall|j: int|
                0 <= j < i ==> opt_str((#[trigger] views(tools@)[j]).get("name"@)) != Some(
                    tool_name@,
                ),
    {
        if let Some(name) = tools[i].get("name") {
            if let Some(s) = name.as_str() {
                if same_text(s, tool_name) {
                    assert(opt_str(views(tools@)[i as int].get("name"@)) == Some(tool_name@));
                    return true;
                }
            }
        }
        assert(opt_str(views(tools@)[i as int].get("name"@)) != Some(tool_name@));
    }
    false
}

/// Whether a request leaves reasoning on: only the value `false` turns it off.
pub open spec fn reasoning_on(body: JsonView) -> bool {
    body.get("reasoning"@) != Some(JsonView::Bool(false))
}

pub fn reasoning_enabled(body: &Json) -> (r: bool)
    ensures
        r == reasoning_on(body@),
{
    match body.get("reasoning") {
        Some(Json::Bool(b)) => *b,
        _ => true,
    }
}

/// Whether an item calls the continuation tool under the given identifier.
pub open spec fn is_call(item: JsonView, id: Seq<char>) -> bool {
    opt_str(item.get("type"@)) == Some("function_call"@) && opt_str(item.get("call_id"@)) == Some(
        id,
    )
}

/// The identifier of a piece of reasoning that the store holds.
pub open spec fn known_reasoning(item: JsonView, ids: Seq<HeldId>, now: u128) -> Option<
    Seq<char>,
> {
    match opt_str(item.get("id"@)) {
        Some(id) => if opt_str(item.get("type"@)) == Some("reasoning"@) && holds(
            live(ids, now),
            id,
        ) {
            Some(id)
        } else {
            None
        },
        None => None,
    }
}

/// The identifier of the reasoning at `i`, where the call that continued it is missing behind it.
pub open spec fn lost_call(items: Seq<JsonView>, i: int, ids: Seq<HeldId>, now: u128) -> Option<
    Seq<char>,
> {
    match known_reasoning(items[i], ids, now) {
        Some(id) => if i + 1 < items.len() && is_call(items[i + 1], call_id(id)) {
            None
        } else {
            Some(id)
        },
        None => None,
    }
}

/// What is put behind the item at `i`: the lost call and its output.
pub open spec fn repair_at(
    items: Seq<JsonView>,
    i: int,
    ids: Seq<HeldId>,
    now: u128,
    tool_name: Seq<char>,
    output_text: Seq<char>,
) -> Seq<JsonView> {
    match lost_call(items, i, ids, now) {
        Some(id) => seq![
            continue_call(call_id(id), tool_name),
            continue_output(call_id(id), output_text),
        ],
        None => Seq::empty(),
    }
}

/// The first `n` items, each with what was lost behind it.
pub open spec fn repaired(
    items: Seq<JsonView>,
    n: nat,
    ids: Seq<HeldId>,
    now: u128,
    tool_name: Seq<char>,
    output_text: Seq<char>,
) -> Seq<JsonView>
    decreases n,
{
    if n == 0 {
        Seq::empty()
    } else {
        repaired(items, (n - 1) as nat, ids, now, tool_name, output_text).push(items[n - 1])
            + repair_at(items, n - 1, ids, now, tool_name, output_text)
    }
}

/// The identifier that the store is asked for on behalf of an item: that of reasoning.
pub open spec fn asked_id(item: JsonView) -> Option<Seq<char>> {
    if opt_str(item.get("type"@)) == Some("reasoning"@) {
        opt_str(item.get("id"@))
    } else {
        None
    }
}

/// What a store holds after it was asked on behalf of the first `n` items.
pub open spec fn after_repair(items: Seq<JsonView>, n: nat, ids: Seq<HeldId>, now: u128) -> Seq<
    HeldId,
>
    decreases n,
{
    if n == 0 {
        ids
    } else {
        let before = after_repair(items, (n - 1) as nat, ids, now);
        match asked_id(items[n - 1]) {
            Some(id) => after_asking(before, id, now),
            None => before,
        }
    }
}

/// Puts back the calls that continued a piece of reasoning and that the client does not know of.
/// `now` is the time at which the store is asked.
pub fn repair_followup_input(
    input_items: Vec<Json>,
    id_store: &mut IdStore,
    now: u128,
    tool_name: &str,
    output_text: &str,
) -> (r: Vec<Json>)
    requires
        old(id_store).wf(),
    ensures
        final(id_store).wf(),
        final(id_store).capacity() == old(id_store).capacity(),
        final(id_store).lifetime() == old(id_store).lifetime(),
        final(id_store)@ == after_repair(
            views(input_items@),
            input_items@.len(),
            old(id_store)@,
            now,
        ),
        views(r@) == repaired(
            views(input_items@),
            input_items@.len(),
            old(id_store)@,
            now,
            tool_name@,
            output_text@,
        ),
{
    let ghost ids = id_store@;
    let ghost items = views(input_items@);
    proof {
        lemma_views(input_items@);
    }
    let mut out: Vec<Json> = Vec::new();
    for i in 0..input_items.len()
        invariant
            id_store.wf(),
            id_store.capacity() == old(id_store).capacity(),
            id_store.lifetime() == old(id_store).lifetime(),
            forall|k: Seq<char>| #[trigger]
                holds(live(id_store@, now), k) == holds(live(ids, now), k),
            id_store@ == after_repair(items, i as nat, ids, now),
            items == views(input_items@),
            items.len() == input_items@.len(),
            forall|j: int| 0 <= j < items.len() ==> #[trigger] items[j] == input_items@[j]@,
            views(out@) == repaired(items, i as nat, ids, now, tool_name@, output_text@),
    {
        let item = &input_items[i];
        let ghost before = out@;
        let copy = item.clone();
        proof {
            lemma_views_push(out@, copy);
            assert(items[i as int] == item@);
        }
        out.push(copy);
        let mut lost: Option<String> = None;
        let is_reasoning = match item.get("type") {
            Some(t) => match t.as_str() {
                Some(s) => same_text(s, "reasoning"),
                None => false,
            },
            None => false,
        };
        if is_reasoning {
            let id = match item.get("id") {
                Some(v) => v.as_str(),
                None => None,
            };
            if let Some(rid) = id {
                if id_store.contains(rid, now) {
                    let want = continue_call_id(rid);
                    let mut already = false;
                    if i + 1 < input_items.len() {
                        let next = &input_items[i + 1];
                        assert(items[i + 1] == next@);
                        let is_fn = match next.get("type") {
                            Some(t) => match t.as_str() {
                                Some(s) => same_text(s, "function_call"),
                                None => false,
                            },
                            None => false,
                        };
                        let same_id = match next.get("call_id") {
                            Some(c) => match c.as_str() {
                                Some(s) => same_text(s, want.as_str()),
                                None => false,
                            },
                            None => false,
                        };
                        already = is_fn && same_id;
                    }
                    if !already {
                        lost = Some(rid.to_owned());
                    }
                }
            }
        }
        match lost {
            Some(rid) => {
                assert(lost_call(items, i as int, ids, now) == Some(rid@));
                let (call, output) = continue_pair(rid.as_str(), tool_name, output_text);
                let ghost mid = out@;
                proof {
                    lemma_views_push(mid, call);
                    lemma_views_push(mid.push(call), output);
                }
                out.push(call);
                out.push(output);
                assert(views(out@) =~= views(mid) + seq![call@, output@]);
            },
            None => {
                assert(lost_call(items, i as int, ids, now) is None);
                assert(views(out@) =~= views(before).push(item@) + Seq::<JsonView>::empty());
            },
        }
    }
    out
}

/// Which fields the call and the output of the continuation tool have.
proof fn lemma_pair_fields(id: Seq<char>, tool_name: Seq<char>, output_text: Seq<char>)
    ensures
        is_call(continue_call(id, tool_name), id),
        opt_str(continue_call(id, tool_name).get("type"@)) != Some("reasoning"@),
        opt_str(continue_output(id, output_text).get("type"@)) != Some("reasoning"@),
{
    reveal_strlit("type");
    reveal_strlit("call_id");
    reveal_strlit("name");
    reveal_strlit("arguments");
    reveal_strlit("output");
    reveal_strlit("function_call");
    reveal_strlit("function_call_output");
    reveal_strlit("reasoning");
    assert("type"@.len() != "call_id"@.len());
    assert("type"@[0] != "name"@[0]);
    assert("type"@.len() != "arguments"@.len());
    assert("call_id"@.len() != "name"@.len());
    assert("call_id"@.len() != "arguments"@.len());
    assert("type"@.len() != "output"@.len());
    assert("function_call"@.len() != "reasoning"@.len());
    assert("function_call_output"@.len() != "reasoning"@.len());
}

/// Whether the call of the reasoning at `p` stands behind it in `done`, or is what comes next.
spec fn settled(
    done: Seq<JsonView>,
    p: int,
    next: Option<JsonView>,
    ids: Seq<HeldId>,
    now: u128,
) -> bool {
    known_reasoning(done[p], ids, now) matches Some(id) ==> if p + 1 < done.len() {
        is_call(done[p + 1], call_id(id))
    } else {
        next matches Some(item) && is_call(item, call_id(id))
    }
}

/// What comes after the first `n` items.
spec fn item_at(items: Seq<JsonView>, n: nat) -> Option<JsonView> {
    if n < items.len() {
        Some(items[n as int])
    } else {
        None
    }
}

proof fn lemma_repaired_settled(
    items: Seq<JsonView>,
    n: nat,
    ids: Seq<HeldId>,
    now: u128,
    tool_name: Seq<char>,
    output_text: Seq<char>,
)
    requires
        n <= items.len(),
    ensures
        forall|p: int|
            0 <= p < repaired(items, n, ids, now, tool_name, output_text).len()
                ==> #[trigger] settled(
                repaired(items, n, ids, now, tool_name, output_text),
                p,
                item_at(items, n),
                ids,
                now,
            ),
    decreases n,
{
    if n > 0 {
        let m = (n - 1) as nat;
        lemma_repaired_settled(items, m, ids, now, tool_name, output_text);
        let front = repaired(items, m, ids, now, tool_name, output_text);
        let done = repaired(items, n, ids, now, tool_name, output_text);
        let item = items[m as int];
        match lost_call(items, m as int, ids, now) {
            Some(id) => {
                lemma_pair_fields(call_id(id), tool_name, output_text);
            },
            None => {},
        }
        assert forall|p: int| 0 <= p < done.len() implies #[trigger] settled(
            done,
            p,
            item_at(items, n),
            ids,
            now,
        ) by {
            if p < front.len() {
                assert(settled(front, p, item_at(items, m), ids, now));
                assert(done[p] == front[p]);
                if p + 1 < front.len() {
                    assert(done[p + 1] == front[p + 1]);
                } else {
                    assert(done[p + 1] == item);
                }
            } else if p == front.len() {
                assert(done[p] == item);
                match lost_call(items, m as int, ids, now) {
                    Some(id) => {
                        assert(done[p + 1] == continue_call(call_id(id), tool_name));
                    },
                    None => {},
                }
            } else {
                let id = lost_call(items, m as int, ids, now)->Some_0;
                if p == front.len() + 1 {
                    assert(done[p] == continue_call(call_id(id), tool_name));
                } else {
                    assert(done[p] == continue_output(call_id(id), output_text));
                }
            }
        }
    }
}

/// A list in which nothing is lost is left as it is.
pub proof fn law_repair_leaves_whole(
    items: Seq<JsonView>,
    n: nat,
    ids: Seq<HeldId>,
    now: u128,
    tool_name: Seq<char>,
    output_text: Seq<char>,
)
    requires
        n <= items.len(),
        forall|p: int| 0 <= p < items.len() ==> #[trigger] lost_call(items, p, ids, now) is None,
    ensures
        repaired(items, n, ids, now, tool_name, output_text) == items.take(n as int),
    decreases n,
{
    if n > 0 {
        let m = (n - 1) as nat;
        law_repair_leaves_whole(items, m, ids, now, tool_name, output_text);
        assert(lost_call(items, m as int, ids, now) is None);
        assert(repaired(items, n, ids, now, tool_name, output_text) =~= items.take(n as int));
    } else {
        assert(items.take(0) =~= Seq::<JsonView>::empty());
    }
}

/// Repairing a second time, with the same identifiers held, changes nothing.
pub proof fn law_repair_again(
    items: Seq<JsonView>,
    ids: Seq<HeldId>,
    now: u128,
    tool_name: Seq<char>,
    output_text: Seq<char>,
)
    ensures
        ({
            let once = repaired(items, items.len(), ids, now, tool_name, output_text);
            repaired(once, once.len(), ids, now, tool_name, output_text) == once
        }),
{
    let once = repaired(items, items.len(), ids, now, tool_name, output_text);
    lemma_repaired_settled(items, items.len(), ids, now, tool_name, output_text);
    assert forall|p: int| 0 <= p < once.len() implies #[trigger] lost_call(
        once,
        p,
        ids,
        now,
    ) is None by {
        assert(settled(once, p, item_at(items, items.len()), ids, now));
    }
    law_repair_leaves_whole(once, once.len(), ids, now, tool_name, output_text);
    assert(once.take(once.len() as int) =~= once);
}

/// Once encrypted reasoning is asked for, it is in the list; what was in the list stays where it
/// was; and asking again changes nothing.
pub proof fn law_merge_include(listed: Option<JsonView>)
    ensures
        merged_include(listed, true).contains(JsonView::Text(ENCRYPTED_INCLUDE@)),
        merged_include(listed, true).take(include_list(listed).len() as int) == include_list(
            listed,
        ),
        merged_include(Some(JsonView::Array(merged_include(listed, true))), true)
            == merged_include(listed, true),
{
    let enc = JsonView::Text(ENCRYPTED_INCLUDE@);
    let items = include_list(listed);
    let merged = merged_include(listed, true);
    if !items.contains(enc) {
        assert(merged[items.len() as int] == enc);
    }
    assert(merged.take(items.len() as int) =~= items);
    let again = include_list(Some(JsonView::Array(merged)));
    assert forall|i: int| 0 <= i < merged.len() implies merged[i] is Text by {
        if i < items.len() {
            match listed {
                Some(JsonView::Array(xs)) => {
                    assert(items[i] == include_text(xs[i]));
                },
                _ => {},
            }
        }
    }
    assert(again =~= merged);
}

/// A request for a round differs from the client's request only in the fields that the round
/// sets: it is streamed, has the given input, may ask for encrypted reasoning, and refers to no
/// earlier response where that is to be dropped.
pub proof fn law_payload_keeps_rest(
    base: JsonView,
    input: Seq<JsonView>,
    force_include: bool,
    drop_previous: bool,
    key: Seq<char>,
)
    ensures
        ({
            let payload = round_payload(base, input, force_include, drop_previous);
            &&& payload is Object
            &&& payload.get("stream"@) == Some(JsonView::Bool(true))
            &&& payload.get("input"@) == Some(JsonView::Array(input))
            &&& drop_previous ==> payload.get("previous_response_id"@) is None
            &&& key != "stream"@ && key != "input"@ && key != "include"@ && (drop_previous ==> key
                != "previous_response_id"@) ==> payload.get(key) == base.get(key)
        }),
{
    reveal_strlit("stream");
    reveal_strlit("input");
    reveal_strlit("include");
    reveal_strlit("previous_response_id");
    assert("stream"@.len() != "input"@.len());
    assert("stream"@.len() != "include"@.len());
    assert("input"@.len() != "include"@.len());
    assert("stream"@.len() != "previous_response_id"@.len());
    assert("input"@.len() != "previous_response_id"@.len());
}

/// A count that is two below the `n`-th multiple of the step is in the window exactly where `n` is
/// not below its lower end, and not above its upper end, where it has one; no other count is in
/// the window.
pub proof fn law_window(t: i64, step: i64, n: int, min_n: i64, max_n: i64)
    requires
        step > 0,
    ensures
        n >= 1 && t == step * n - 2 && max_n == 0 ==> (in_window(Some(t), min_n, max_n, step)
            <==> n >= min_n),
        n >= 1 && t == step * n - 2 && max_n != 0 ==> (in_window(Some(t), min_n, max_n, step)
            <==> min_n <= n <= max_n),
        in_window(Some(t), min_n, max_n, step) ==> exists|k: int|
            k >= 1 && t == #[trigger] (step * k) - 2,
        !in_window(None, min_n, max_n, step),
{
    law_truncation_counts(t, step, n);
}

/// The reasoning tokens of a usage are told where its details of the output are, as a number that
/// fits; else there are none.
pub proof fn law_counted_reasoning(usage: JsonView, details: JsonView, n: i64)
    ensures
        usage.get("output_tokens_details"@) == Some(details) && details.get("reasoning_tokens"@)
            == Some(JsonView::Int(n as int)) ==> counted_reasoning(Some(usage)) == Some(n),
        counted_reasoning(Some(usage)) == Some(n) ==> usage.get("output_tokens_details"@) is Some
            && usage.get("output_tokens_details"@)->Some_0.get("reasoning_tokens"@) == Some(
            JsonView::Int(n as int),
        ),
        counted_reasoning(None) is None,
{
}

/// The number that a hexadecimal digit stands for.
pub open spec fn hex_value(c: char) -> int {
    if '0' <= c <= '9' {
        c as int - '0' as int
    } else {
        c as int - 'a' as int + 10
    }
}

/// Bytes in hexadecimal can be read back, byte by byte; only the digits and the small letters up
/// to `f` occur.
pub proof fn law_hex(bytes: Seq<u8>, k: int)
    requires
        0 <= k < bytes.len(),
    ensures
        ({
            let text = hex_text(bytes);
            let high = text[2 * k];
            let low = text[2 * k + 1];
            &&& text.len() == 2 * bytes.len()
            &&& '0' <= high <= '9' || 'a' <= high <= 'f'
            &&& '0' <= low <= '9' || 'a' <= low <= 'f'
            &&& bytes[k] == 16 * hex_value(high) + hex_value(low)
        }),
    decreases bytes.len(),
{
    let front = bytes.drop_last();
    if front.len() > 0 {
        law_hex(front, if k < front.len() {
            k
        } else {
            0
        });
    }
    if k == front.len() {
        let b = bytes.last() as int;
        assert(hex_text(front).len() == 2 * front.len());
        assert(0 <= b / 16 < 16);
        assert(0 <= b % 16 < 16);
        assert(hex_text(bytes)[2 * k] == hex_digit(b / 16));
        assert(hex_text(bytes)[2 * k + 1] == hex_digit(b % 16));
    } else {
        assert(front[k] == bytes[k]);
        assert(hex_text(bytes)[2 * k] == hex_text(front)[2 * k]);
        assert(hex_text(bytes)[2 * k + 1] == hex_text(front)[2 * k + 1]);
    }
}

/// The call that continues a piece of reasoning is named by the first twelve bytes of the digest
/// of the reasoning's identifier.
pub proof fn law_call_id(reasoning_id: Seq<char>)
    requires
        sha1_of(encode_utf8(reasoning_id)).len() == 20,
    ensures
        ({
            let id = call_id(reasoning_id);
            &&& id.len() == 29
            &&& id.take(5) == "call_"@
            &&& id.skip(5) == hex_text(sha1_of(encode_utf8(reasoning_id)).subrange(0, 12))
        }),
{
    let head = sha1_of(encode_utf8(reasoning_id)).take(12);
    reveal_strlit("call_");
    assert("call_"@.len() == 5);
    law_hex(head, 0);
    assert(call_id(reasoning_id).take(5) =~= "call_"@);
    assert(call_id(reasoning_id).skip(5) =~= hex_text(head));
    assert(head =~= sha1_of(encode_utf8(reasoning_id)).subrange(0, 12));
}

/// The continuation tool's call and its output belong together; the call names the tool, and the
/// output is the given one.
pub proof fn law_continue_pair(id: Seq<char>, tool_name: Seq<char>, text: Seq<char>)
    ensures
        ({
            let call = continue_call(id, tool_name);
            let out = continue_output(id, text);
            &&& call.get("type"@) == Some(JsonView::Text("function_call"@))
            &&& out.get("type"@) == Some(JsonView::Text("function_call_output"@))
            &&& call.get("call_id"@) == Some(JsonView::Text(id))
            &&& out.get("call_id"@) == call.get("call_id"@)
            &&& call.get("name"@) == Some(JsonView::Text(tool_name))
            &&& call.get("arguments"@) == Some(JsonView::Text("{\"continue\": true}"@))
            &&& out.get("output"@) == Some(JsonView::Text(text))
        }),
{
    reveal_strlit("type");
    reveal_strlit("call_id");
    reveal_strlit("name");
    reveal_strlit("arguments");
    reveal_strlit("output");
    assert("type"@.len() == 4);
    assert("type"@[0] == 't');
    assert("name"@.len() == 4);
    assert("name"@[0] == 'n');
    assert("call_id"@.len() == 7);
    assert("arguments"@.len() == 9);
    assert("output"@.len() == 6);
}

/// The message that asks for more reasoning is a comment of the assistant with the given text.
pub proof fn law_commentary(text: Seq<char>)
    ensures
        ({
            let m = commentary(text);
            &&& m.get("type"@) == Some(JsonView::Text("message"@))
            &&& m.get("role"@) == Some(JsonView::Text("assistant"@))
            &&& m.get("phase"@) == Some(JsonView::Text("commentary"@))
            &&& m.get("content"@) matches Some(JsonView::Array(parts)) && parts.len() == 1
                && parts[0].get("type"@) == Some(JsonView::Text("output_text"@)) && parts[0].get(
                "text"@,
            ) == Some(JsonView::Text(text))
        }),
{
    reveal_strlit("type");
    reveal_strlit("role");
    reveal_strlit("content");
    reveal_strlit("phase");
    reveal_strlit("text");
    assert("type"@.len() == 4);
    assert("type"@[0] == 't');
    assert("type"@[1] == 'y');
    assert("role"@.len() == 4);
    assert("role"@[0] == 'r');
    assert("content"@.len() == 7);
    assert("phase"@.len() == 5);
    assert("text"@.len() == 4);
    assert("text"@[0] == 't');
    assert("text"@[1] == 'e');
}

/// The list of what a round is asked to give holds the client's entries, in their order and as
/// texts, and behind them encrypted reasoning, where that is asked for and not among them.
pub proof fn law_include(base: JsonView, input: Seq<JsonView>, force: bool, drop: bool, k: int)
    requires
        base is Object,
    ensures
        ({
            let told = base.get("include"@);
            let xs = if told is Some && told->Some_0 is Array {
                told->Some_0->Array_0
            } else {
                Seq::empty()
            };
            let enc = JsonView::Text("reasoning.encrypted_content"@);
            match round_payload(base, input, force, drop).get("include"@) {
                None => told is None && !force,
                Some(got) => {
                    &&& told is Some || force
                    &&& got matches JsonView::Array(ys)
                    &&& xs.len() <= ys.len() <= xs.len() + 1
                    &&& 0 <= k < xs.len() && xs[k] is Text ==> ys[k] == xs[k]
                    &&& 0 <= k < xs.len() && !(xs[k] is Text) ==> ys[k] == JsonView::Text(
                        json_text(xs[k]),
                    )
                    &&& force ==> ys.contains(enc)
                    &&& !force ==> ys.len() == xs.len()
                    &&& ys.len() == xs.len() + 1 ==> ys[xs.len() as int] == enc && !ys.take(
                        xs.len() as int,
                    ).contains(enc)
                },
            }
        }),
{
    reveal_strlit("stream");
    reveal_strlit("input");
    reveal_strlit("include");
    reveal_strlit("previous_response_id");
    assert("stream"@.len() == 6);
    assert("input"@.len() == 5);
    assert("include"@.len() == 7);
    assert("previous_response_id"@.len() == 20);
    let told = base.get("include"@);
    let items = include_list(told);
    let ys = merged_include(told, force);
    law_merge_include(told);
    if force && !items.contains(JsonView::Text(ENCRYPTED_INCLUDE@)) {
        assert(ys.take(items.len() as int) =~= items);
        assert(ys[items.len() as int] == JsonView::Text(ENCRYPTED_INCLUDE@));
    }
}

/// A request declares a tool where one of the tools that it lists has the name.
pub proof fn law_declares_tool(
    body: JsonView,
    tools: Seq<JsonView>,
    more: JsonView,
    name: Seq<char>,
)
    requires
        body is Object,
    ensures
        !declares_tool(body.unset("tools"@), name),
        !declares_tool(body.set("tools"@, JsonView::Array(Seq::empty())), name),
        declares_tool(body.set("tools"@, JsonView::Array(tools.push(more))), name) <==> (
        declares_tool(body.set("tools"@, JsonView::Array(tools)), name) || more.get("name"@)
            == Some(JsonView::Text(name))),
{
    let few = body.set("tools"@, JsonView::Array(tools));
    let all = body.set("tools"@, JsonView::Array(tools.push(more)));
    if declares_tool(few, name) {
        let i = choose|i: int|
            0 <= i < tools.len() && opt_str((#[trigger] tools[i]).get("name"@)) == Some(name);
        assert(tools.push(more)[i] == tools[i]);
    }
    if more.get("name"@) == Some(JsonView::Text(name)) {
        assert(tools.push(more)[tools.len() as int] == more);
    }
    if declares_tool(all, name) {
        let ys = tools.push(more);
        let i = choose|i: int|
            0 <= i < ys.len() && opt_str((#[trigger] ys[i]).get("name"@)) == Some(name);
        if i < tools.len() {
            assert(tools[i] == ys[i]);
        }
    }
}

/// Reasoning is switched off only by `false`: not by any other value, nor by none.
pub proof fn law_reasoning_on(body: JsonView, v: JsonView)
    requires
        body is Object,
    ensures
        reasoning_on(body.unset("reasoning"@)),
        reasoning_on(body.set("reasoning"@, v)) <==> v != JsonView::Bool(false),
{
}

/// A list is repaired item by item: each item stays, and behind reasoning that is remembered
/// stands its call, with the output behind it, where the call did not stand there.
pub proof fn law_repaired_step(
    items: Seq<JsonView>,
    i: int,
    ids: Seq<HeldId>,
    now: u128,
    tool_name: Seq<char>,
    text: Seq<char>,
    id: Seq<char>,
)
    requires
        0 <= i < items.len(),
    ensures
        ({
            let before = repaired(items, i as nat, ids, now, tool_name, text);
            let after = repaired(items, (i + 1) as nat, ids, now, tool_name, text);
            let known = items[i].get("type"@) == Some(JsonView::Text("reasoning"@)) && items[i].get(
                "id"@,
            ) == Some(JsonView::Text(id)) && holds(live(ids, now), id);
            let called = i + 1 < items.len() && items[i + 1].get("type"@) == Some(
                JsonView::Text("function_call"@),
            ) && items[i + 1].get("call_id"@) == Some(JsonView::Text(call_id(id)));
            &&& repaired(items, 0, ids, now, tool_name, text).len() == 0
            &&& after.len() > before.len()
            &&& after.take(before.len() as int) == before
            &&& after[before.len() as int] == items[i]
            &&& known && called ==> after.len() == before.len() + 1
            &&& known && !called ==> {
                &&& after.len() == before.len() + 3
                &&& after[before.len() as int + 1] == continue_call(call_id(id), tool_name)
                &&& after[before.len() as int + 2] == continue_output(call_id(id), text)
            }
            &&& items[i].get("type"@) != Some(JsonView::Text("reasoning"@)) ==> after.len()
                == before.len() + 1
            &&& !(items[i].get("id"@) is Some && items[i].get("id"@)->Some_0 is Text) ==> after.len()
                == before.len() + 1
            &&& items[i].get("id"@) == Some(JsonView::Text(id)) && !known ==> after.len()
                == before.len() + 1
        }),
{
    let before = repaired(items, i as nat, ids, now, tool_name, text);
    let after = repaired(items, (i + 1) as nat, ids, now, tool_name, text);
    assert(after.take(before.len() as int) =~= before);
}

/// The store is asked for the identifier of each piece of reasoning, in the order in which they
/// stand, and for nothing else.
pub proof fn law_asked_in_order(
    items: Seq<JsonView>,
    i: int,
    ids: Seq<HeldId>,
    now: u128,
    id: Seq<char>,
)
    requires
        0 <= i < items.len(),
    ensures
        ({
            let before = after_repair(items, i as nat, ids, now);
            let after = after_repair(items, (i + 1) as nat, ids, now);
            let reasoning = items[i].get("type"@) == Some(JsonView::Text("reasoning"@));
            &&& after_repair(items, 0, ids, now) == ids
            &&& reasoning && items[i].get("id"@) == Some(JsonView::Text(id)) ==> after
                == after_asking(before, id, now)
            &&& !reasoning ==> after == before
            &&& !(items[i].get("id"@) is Some && items[i].get("id"@)->Some_0 is Text) ==> after
                == before
        }),
{
}

/// Every count can be held against a positive step, but for the two largest numbers there are.
pub proof fn law_countable(t: i64, step: i64)
    requires
        step > 0,
    ensures
        countable(Some(t), step) <==> t <= i64::MAX - 2,
        countable(None, step),
{
}

} // verus!
