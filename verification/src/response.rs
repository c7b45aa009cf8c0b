//! The event that ends the folded response.
use vstd::prelude::*;

use crate::codex::fields_of;
use crate::events::{clone_or_empty, field_or_empty, set_i64, with_number};
use crate::json::{copies, opt_get, opt_str, opt_view, views, Json, JsonView};

verus! {

/// An optional text.
pub open spec fn opt_text(s: Option<&str>) -> Option<Seq<char>> {
    match s {
        Some(t) => Some(t@),
        None => None,
    }
}

/// The metadata of a response with what the proxy adds to it: the rounds, the billed usage where
/// there is any, and why continuing was stopped where it was.
pub open spec fn proxy_metadata(
    metadata: Option<JsonView>,
    rounds: Seq<JsonView>,
    stopped: Option<Seq<char>>,
    billed: Option<JsonView>,
) -> JsonView {
    let md = match metadata {
        Some(m) => JsonView::Object(fields_of(m)),
        None => JsonView::Object(Map::empty()),
    };
    let md = md.set("proxy_rounds"@, JsonView::Array(rounds));
    let md = match billed {
        Some(u) => if u is Object && u.truthy() {
            md.set("proxy_billed_usage"@, u)
        } else {
            md
        },
        None => md,
    };
    match stopped {
        Some(reason) => md.set("proxy_stopped_reason"@, JsonView::Text(reason)),
        None => md,
    }
}

/// A response with the metadata of the proxy; one that cannot hold fields counts as an empty one.
pub open spec fn with_metadata(
    resp: JsonView,
    rounds: Seq<JsonView>,
    stopped: Option<Seq<char>>,
    billed: Option<JsonView>,
) -> JsonView {
    response_record(resp).set(
        "metadata"@,
        proxy_metadata(resp.get("metadata"@), rounds, stopped, billed),
    )
}

pub fn with_proxy_metadata(
    resp: &mut Json,
    rounds: &Vec<Json>,
    stopped_reason: Option<&str>,
    billed_usage: Option<&Json>,
)
    ensures
        final(resp)@ == with_metadata(
            old(resp)@,
            views(rounds@),
            opt_text(stopped_reason),
            opt_view(billed_usage),
        ),
{
    let mut md = match resp.get("metadata") {
        Some(m) => if m.is_object() {
            m.clone()
        } else {
            Json::object()
        },
        None => Json::object(),
    };
    md.set("proxy_rounds", Json::Array(copies(rounds)));
    if let Some(usage) = billed_usage {
        if usage.is_object() && usage.truthy() {
            md.set("proxy_billed_usage", usage.clone());
        }
    }
    if let Some(reason) = stopped_reason {
        md.set("proxy_stopped_reason", Json::text(reason));
    }
    if !resp.is_object() {
        *resp = Json::object();
    }
    resp.set("metadata", md);
}

/// A response as a record of fields; one that cannot hold fields counts as an empty one.
pub open spec fn response_record(resp: JsonView) -> JsonView {
    JsonView::Object(fields_of(resp))
}

fn as_record(resp: Json) -> (r: Json)
    ensures
        r@ == response_record(resp@),
{
    if resp.is_object() {
        resp
    } else {
        Json::object()
    }
}

/// The response of the event that ended the last round.
pub open spec fn ended_response(terminal: Option<JsonView>) -> JsonView {
    match terminal {
        Some(t) => field_or_empty(t, "response"@),
        None => JsonView::Object(Map::empty()),
    }
}

/// The response that the client gets in the end: the one that the first round opened, with all
/// output, the usage that the client is told, and the state in which the last round ended.
pub open spec fn folded_response(
    terminal: Option<JsonView>,
    base: Option<JsonView>,
    output: Seq<JsonView>,
    usage: JsonView,
    rounds: Seq<JsonView>,
    stopped: Option<Seq<char>>,
    billed: Option<JsonView>,
) -> JsonView {
    let ended = ended_response(terminal);
    let resp = match base {
        Some(b) => response_record(b),
        None => response_record(ended),
    };
    let resp = resp.set("output"@, JsonView::Array(output)).set("usage"@, usage).set(
        "status"@,
        match ended.get("status"@) {
            Some(s) => s,
            None => JsonView::Text("completed"@),
        },
    );
    let resp = match ended.get("incomplete_details"@) {
        Some(details) => resp.set("incomplete_details"@, details),
        None => resp,
    };
    with_metadata(resp, rounds, stopped, billed)
}

/// The event that ends the folded response.
pub open spec fn folded_terminal(
    terminal: Option<JsonView>,
    base: Option<JsonView>,
    output: Seq<JsonView>,
    usage: JsonView,
    rounds: Seq<JsonView>,
    stopped: Option<Seq<char>>,
    billed: Option<JsonView>,
) -> JsonView {
    JsonView::Object(
        map![
            "type"@ => JsonView::Text(
                match opt_str(opt_get(terminal, "type"@)) {
                    Some(t) => t,
                    None => "response.completed"@,
                },
            ),
            "response"@ => folded_response(
                terminal,
                base,
                output,
                usage,
                rounds,
                stopped,
                billed,
            ),
        ],
    )
}

pub fn reconstruct_terminal(
    terminal: Option<&Json>,
    base_response: Option<&Json>,
    output_items: &Vec<Json>,
    usage: &Json,
    seq: i64,
    rounds: &Vec<Json>,
    stopped_reason: Option<&str>,
    billed_usage: Option<&Json>,
) -> (r: Json)
    ensures
        r@ == with_number(
            folded_terminal(
                opt_view(terminal),
                opt_view(base_response),
                views(output_items@),
                usage@,
                views(rounds@),
                opt_text(stopped_reason),
                opt_view(billed_usage),
            ),
            seq,
        ),
{
    let tresp = match terminal {
        Some(t) => clone_or_empty(t.get("response")),
        None => Json::object(),
    };
    let mut resp = match base_response {
        Some(b) => as_record(b.clone()),
        None => as_record(tresp.clone()),
    };
    resp.set("output", Json::Array(copies(output_items)));
    resp.set("usage", usage.clone());
    let status = match tresp.get("status") {
        Some(s) => s.clone(),
        None => Json::text("completed"),
    };
    resp.set("status", status);
    if let Some(details) = tresp.get("incomplete_details") {
        resp.set("incomplete_details", details.clone());
    }
    with_proxy_metadata(&mut resp, rounds, stopped_reason, billed_usage);
    let name = match terminal {
        Some(t) => match t.get("type") {
            Some(n) => match n.as_str() {
                Some(s) => s,
                None => "response.completed",
            },
            None => "response.completed",
        },
        None => "response.completed",
    };
    let mut ev = Json::object().with("type", Json::text(name)).with("response", resp);
    set_i64(&mut ev, "sequence_number", seq);
    ev
}

/// The event that ends a response which the upstream did not end.
pub open spec fn broken_off(
    base: Option<JsonView>,
    output: Seq<JsonView>,
    usage: JsonView,
    reason: Seq<char>,
    rounds: Seq<JsonView>,
    billed: Option<JsonView>,
) -> JsonView {
    let resp = match base {
        Some(b) => response_record(b),
        None => JsonView::Object(Map::empty()),
    };
    let resp = resp.set("output"@, JsonView::Array(output)).set("usage"@, usage).set(
        "status"@,
        JsonView::Text("incomplete"@),
    ).set("incomplete_details"@, JsonView::Object(map!["reason"@ => JsonView::Text(reason)]));
    JsonView::Object(
        map![
            "type"@ => JsonView::Text("response.incomplete"@),
            "response"@ => with_metadata(resp, rounds, Some(reason), billed),
        ],
    )
}

pub fn synthetic_incomplete(
    base_response: Option<&Json>,
    output_items: &Vec<Json>,
    usage: &Json,
    seq: i64,
    reason: &str,
    rounds: &Vec<Json>,
    billed_usage: Option<&Json>,
) -> (r: Json)
    ensures
        r@ == with_number(
            broken_off(
                opt_view(base_response),
                views(output_items@),
                usage@,
                reason@,
                views(rounds@),
                opt_view(billed_usage),
            ),
            seq,
        ),
{
    let mut resp = match base_response {
        Some(b) => as_record(b.clone()),
        None => Json::object(),
    };
    resp.set("output", Json::Array(copies(output_items)));
    resp.set("usage", usage.clone());
    resp.set("status", Json::text("incomplete"));
    resp.set("incomplete_details", Json::object().with("reason", Json::text(reason)));
    with_proxy_metadata(&mut resp, rounds, Some(reason), billed_usage);
    let mut ev = Json::object().with("type", Json::text("response.incomplete")).with(
        "response",
        resp,
    );
    set_i64(&mut ev, "sequence_number", seq);
    ev
}

/// The names of the fields that the proxy sets are different names.
proof fn lemma_names()
    ensures
        "type"@ != "response"@,
        "type"@ != "sequence_number"@,
        "response"@ != "sequence_number"@,
        "output"@ != "usage"@,
        "output"@ != "status"@,
        "output"@ != "incomplete_details"@,
        "output"@ != "metadata"@,
        "usage"@ != "status"@,
        "usage"@ != "incomplete_details"@,
        "usage"@ != "metadata"@,
        "status"@ != "incomplete_details"@,
        "status"@ != "metadata"@,
        "incomplete_details"@ != "metadata"@,
        "proxy_rounds"@ != "proxy_billed_usage"@,
        "proxy_rounds"@ != "proxy_stopped_reason"@,
        "proxy_billed_usage"@ != "proxy_stopped_reason"@,
{
    reveal_strlit("type");
    reveal_strlit("response");
    reveal_strlit("sequence_number");
    reveal_strlit("output");
    reveal_strlit("usage");
    reveal_strlit("status");
    reveal_strlit("incomplete_details");
    reveal_strlit("metadata");
    reveal_strlit("proxy_rounds");
    reveal_strlit("proxy_billed_usage");
    reveal_strlit("proxy_stopped_reason");
    assert("type"@.len() == 4);
    assert("response"@.len() == 8);
    assert("sequence_number"@.len() == 15);
    assert("output"@.len() == 6);
    assert("usage"@.len() == 5);
    assert("status"@.len() == 6);
    assert("incomplete_details"@.len() == 18);
    assert("metadata"@.len() == 8);
    assert("proxy_rounds"@.len() == 12);
    assert("proxy_billed_usage"@.len() == 18);
    assert("proxy_stopped_reason"@.len() == 20);
    assert("output"@[0] != "status"@[0]);
}

/// The metadata of a response tells the rounds, the billed usage where any is billed, and why
/// continuing was stopped where it was; anything else in it stays as the upstream gave it.
pub proof fn law_metadata(
    metadata: Option<JsonView>,
    rounds: Seq<JsonView>,
    stopped: Option<Seq<char>>,
    billed: Option<JsonView>,
    key: Seq<char>,
)
    ensures
        ({
            let md = proxy_metadata(metadata, rounds, stopped, billed);
            &&& md.get("proxy_rounds"@) == Some(JsonView::Array(rounds))
            &&& md.get("proxy_billed_usage"@) == if billed is Some && billed->Some_0 is Object
                && billed->Some_0.truthy() {
                billed
            } else {
                opt_get(metadata, "proxy_billed_usage"@)
            }
            &&& md.get("proxy_stopped_reason"@) == match stopped {
                Some(reason) => Some(JsonView::Text(reason)),
                None => opt_get(metadata, "proxy_stopped_reason"@),
            }
            &&& key != "proxy_rounds"@ && key != "proxy_billed_usage"@ && key
                != "proxy_stopped_reason"@ ==> md.get(key) == opt_get(metadata, key)
        }),
{
    lemma_names();
}

/// The response that ends a fold holds all output, the usage that the client is told, the state
/// in which the last round ended, and the metadata of the proxy; every other field is that of
/// the response which the first round opened.
pub proof fn law_folded_response(
    terminal: Option<JsonView>,
    base: JsonView,
    output: Seq<JsonView>,
    usage: JsonView,
    rounds: Seq<JsonView>,
    stopped: Option<Seq<char>>,
    billed: Option<JsonView>,
    key: Seq<char>,
)
    ensures
        ({
            let resp = folded_response(
                terminal,
                Some(base),
                output,
                usage,
                rounds,
                stopped,
                billed,
            );
            let ended = ended_response(terminal);
            &&& resp.get("output"@) == Some(JsonView::Array(output))
            &&& resp.get("usage"@) == Some(usage)
            &&& resp.get("status"@) == match ended.get("status"@) {
                Some(s) => Some(s),
                None => Some(JsonView::Text("completed"@)),
            }
            &&& resp.get("incomplete_details"@) == match ended.get("incomplete_details"@) {
                Some(d) => Some(d),
                None => base.get("incomplete_details"@),
            }
            &&& resp.get("metadata"@) == Some(
                proxy_metadata(base.get("metadata"@), rounds, stopped, billed),
            )
            &&& key != "output"@ && key != "usage"@ && key != "status"@ && key
                != "incomplete_details"@ && key != "metadata"@ ==> resp.get(key) == base.get(key)
        }),
{
    lemma_names();
}

/// A response that the upstream did not end is told as incomplete, with the reason in its details
/// and in its metadata.
pub proof fn law_broken_off(
    base: Option<JsonView>,
    output: Seq<JsonView>,
    usage: JsonView,
    reason: Seq<char>,
    rounds: Seq<JsonView>,
    billed: Option<JsonView>,
)
    ensures
        ({
            let ev = broken_off(base, output, usage, reason, rounds, billed);
            let resp = ev.get("response"@);
            &&& ev.get("type"@) == Some(JsonView::Text("response.incomplete"@))
            &&& opt_get(resp, "status"@) == Some(JsonView::Text("incomplete"@))
            &&& opt_get(opt_get(resp, "incomplete_details"@), "reason"@) == Some(
                JsonView::Text(reason),
            )
            &&& opt_get(opt_get(resp, "metadata"@), "proxy_stopped_reason"@) == Some(
                JsonView::Text(reason),
            )
            &&& opt_get(resp, "output"@) == Some(JsonView::Array(output))
            &&& opt_get(resp, "usage"@) == Some(usage)
        }),
{
    lemma_names();
}

/// A response keeps its fields when the metadata of the proxy is added to it.
pub proof fn law_with_metadata(
    resp: JsonView,
    rounds: Seq<JsonView>,
    stopped: Option<Seq<char>>,
    billed: Option<JsonView>,
    key: Seq<char>,
)
    ensures
        ({
            let told = with_metadata(resp, rounds, stopped, billed);
            &&& told is Object
            &&& key != "metadata"@ ==> told.get(key) == resp.get(key)
            &&& opt_get(told.get("metadata"@), "proxy_rounds"@) == Some(JsonView::Array(rounds))
            &&& key != "proxy_rounds"@ && key != "proxy_billed_usage"@ && key
                != "proxy_stopped_reason"@ ==> opt_get(told.get("metadata"@), key) == opt_get(
                resp.get("metadata"@),
                key,
            )
        }),
{
    law_metadata(resp.get("metadata"@), rounds, stopped, billed, key);
}

/// The response of the event that ended a round is the one that it carries; an empty one, where it
/// carries none.
pub proof fn law_ended_response(terminal: JsonView)
    ensures
        terminal.get("response"@) is Some ==> ended_response(Some(terminal)) == terminal.get(
            "response"@,
        )->Some_0,
        terminal.get("response"@) is None ==> ended_response(Some(terminal)) == JsonView::Object(
            Map::empty(),
        ),
        ended_response(None) == JsonView::Object(Map::empty()),
{
}

/// Where no round opened a response, the one that ended takes its place.
pub proof fn law_folded_without_base(
    terminal: JsonView,
    resp: JsonView,
    output: Seq<JsonView>,
    usage: JsonView,
    rounds: Seq<JsonView>,
    stopped: Option<Seq<char>>,
    billed: Option<JsonView>,
)
    requires
        terminal.get("response"@) == Some(resp),
    ensures
        folded_response(Some(terminal), None, output, usage, rounds, stopped, billed)
            == folded_response(Some(terminal), Some(resp), output, usage, rounds, stopped, billed),
{
}

/// The event that ends a folded response is of the type of the event that ended the last round,
/// and carries the folded response.
pub proof fn law_folded_terminal(
    terminal: JsonView,
    base: Option<JsonView>,
    output: Seq<JsonView>,
    usage: JsonView,
    rounds: Seq<JsonView>,
    stopped: Option<Seq<char>>,
    billed: Option<JsonView>,
    t: Seq<char>,
)
    requires
        terminal.get("type"@) == Some(JsonView::Text(t)),
    ensures
        ({
            let ev = folded_terminal(Some(terminal), base, output, usage, rounds, stopped, billed);
            &&& ev is Object
            &&& ev.get("type"@) == Some(JsonView::Text(t))
            &&& ev.get("response"@) == Some(
                folded_response(Some(terminal), base, output, usage, rounds, stopped, billed),
            )
        }),
{
    lemma_names();
}

/// A response that was broken off keeps the fields of the response that the first round opened,
/// but for those that tell of its end.
pub proof fn law_broken_off_keeps_rest(
    base: JsonView,
    output: Seq<JsonView>,
    usage: JsonView,
    reason: Seq<char>,
    rounds: Seq<JsonView>,
    billed: Option<JsonView>,
    key: Seq<char>,
)
    ensures
        ({
            let resp = broken_off(Some(base), output, usage, reason, rounds, billed).get(
                "response"@,
            );
            let none = broken_off(None, output, usage, reason, rounds, billed);
            &&& key != "output"@ && key != "usage"@ && key != "status"@ && key
                != "incomplete_details"@ && key != "metadata"@ ==> opt_get(resp, key) == base.get(
                key,
            )
            &&& opt_get(resp, "metadata"@) == Some(
                proxy_metadata(base.get("metadata"@), rounds, Some(reason), billed),
            )
            &&& none == broken_off(
                Some(JsonView::Object(Map::empty())),
                output,
                usage,
                reason,
                rounds,
                billed,
            )
        }),
{
    lemma_names();
}

} // verus!
