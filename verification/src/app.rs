//! What becomes of a request: where it is sent, with which headers, and whether it is folded.
use vstd::prelude::*;
use vstd::string::*;

use crate::codex::{
    after_repair, build_round_payload, declares_continue_tool, declares_tool,
    law_payload_keeps_rest, reasoning_enabled, reasoning_on, repair_followup_input, repaired,
    round_payload,
};
use crate::config::Config;
use crate::creds::{
    build_upstream_headers, distinct_names, forwarded_headers, has, has_header, header_map,
    injects_any, law_modes, passed_on, upstream_headers_of, with_headers, would_inject_account,
    would_inject_authorization, ACCOUNT, AUTH, RESPONSES_API_BASE,
};
use crate::json::{lemma_views, owned_view, Json, JsonView};
use crate::model::{fold_step, request_input, FoldView, InputView, Phase};
use crate::proxy::array_clone;
use crate::store::{HeldId, IdStore};
use crate::text::{
    ends_with, has_suffix, same_text, text_pairs, trim, trim_end_matches, trim_end_of, trimmed,
};
use crate::value::{is_text_of, parsed_bytes};

verus! {

/// The headers of a request.
#[verifier::external_type_specification]
#[verifier::external_body]
#[verifier::reject_recursive_types(T)]
pub struct ExHeaderMap<T>(axum::http::HeaderMap<T>);

#[verifier::external_type_specification]
#[verifier::external_body]
pub struct ExHeaderValue(axum::http::HeaderValue);

/// The names and values of a request's headers, in the order in which they are visited.
pub uninterp spec fn header_entries(
    headers: axum::http::HeaderMap<axum::http::HeaderValue>,
) -> Seq<(Seq<char>, Seq<u8>)>;

/// The first value under a name.
pub open spec fn first_value(entries: Seq<(Seq<char>, Seq<u8>)>, name: Seq<char>) -> Option<
    Seq<u8>,
>
    decreases entries.len(),
{
    if entries.len() == 0 {
        None
    } else if entries[0].0 == name {
        Some(entries[0].1)
    } else {
        first_value(entries.drop_first(), name)
    }
}

/// `axum::http::HeaderMap::get` gives the first value under a name. It is asked for one name only,
/// which is made of characters that every header name may hold; a name with a quotation mark can be
/// stored and yet not be looked up.
#[verifier::external_body]
fn header_value(
    headers: &axum::http::HeaderMap<axum::http::HeaderValue>,
    name: &str,
) -> (r: Option<Vec<u8>>)
    requires
        name@ == RESPONSES_API_BASE@,
    ensures
        match r {
            Some(v) => first_value(header_entries(*headers), name@) == Some(v@),
            None => first_value(header_entries(*headers), name@) is None,
        },
{
    headers.get(name).map(|v| v.as_bytes().to_vec())
}

/// The names and values of a list of headers.
pub open spec fn entry_pairs(ps: Seq<(String, Vec<u8>)>) -> Seq<(Seq<char>, Seq<u8>)> {
    ps.map_values(|p: (String, Vec<u8>)| (p.0@, p.1@))
}

/// `axum::http::HeaderMap::iter` visits each header once for each of its values.
#[verifier::external_body]
fn header_list(headers: &axum::http::HeaderMap<axum::http::HeaderValue>) -> (r: Vec<
    (String, Vec<u8>),
>)
    ensures
        entry_pairs(r@) == header_entries(*headers),
{
    headers.iter().map(|(name, v)| (name.as_str().to_string(), v.as_bytes().to_vec())).collect()
}

/// Whether a byte of a header's value is text: a visible ASCII character, a space or a tab.
pub open spec fn visible(b: u8) -> bool {
    32 <= b < 127 || b == 9
}

/// The text of a header's value, where all of it is text.
pub open spec fn value_text(bytes: Seq<u8>) -> Option<Seq<char>> {
    if forall|i: int| 0 <= i < bytes.len() ==> visible(#[trigger] bytes[i]) {
        Some(bytes.map_values(|b: u8| b as char))
    } else {
        None
    }
}

/// The text of a header's value, where all of it is text.
pub fn to_str(bytes: &Vec<u8>) -> (r: Option<String>)
    ensures
        match r {
            Some(s) => value_text(bytes@) == Some(s@),
            None => value_text(bytes@) is None,
        },
{
    let mut out = String::new();
    for i in 0..bytes.len()
        invariant
            forall|j: int| 0 <= j < i ==> visible(#[trigger] bytes@[j]),
            out@ == bytes@.take(i as int).map_values(|b: u8| b as char),
    {
        let b = bytes[i];
        if !((b >= 32 && b < 127) || b == 9) {
            assert(!visible(bytes@[i as int]));
            return None;
        }
        assert(bytes@.take(i + 1).map_values(|b: u8| b as char) =~= bytes@.take(
            i as int,
        ).map_values(|b: u8| b as char).push(b as char));
        out.push(b as char);
    }
    assert(bytes@.take(bytes@.len() as int) =~= bytes@);
    Some(out)
}

/// The upstream that a header's value names: its text without the white space around it, unless
/// nothing is left.
pub open spec fn named_base(value: Option<Seq<u8>>) -> Option<Seq<char>> {
    match value {
        Some(bytes) => match value_text(bytes) {
            Some(s) => if trimmed(s).len() > 0 {
                Some(trimmed(s))
            } else {
                None
            },
            None => None,
        },
        None => None,
    }
}

/// The upstream that a request names.
pub open spec fn header_base_of(
    headers: axum::http::HeaderMap<axum::http::HeaderValue>,
) -> Option<Seq<char>> {
    named_base(first_value(header_entries(headers), RESPONSES_API_BASE@))
}

/// The upstream that a header's value names.
pub fn base_of_value(value: Option<Vec<u8>>) -> (r: Option<String>)
    ensures
        match r {
            Some(s) => value is Some && named_base(Some(value->Some_0@)) == Some(s@),
            None => value is None || named_base(Some(value->Some_0@)) is None,
        },
{
    match value {
        Some(bytes) => match to_str(&bytes) {
            Some(s) => {
                let base = trim(s.as_str());
                if base.as_str().is_empty() {
                    None
                } else {
                    Some(base)
                }
            },
            None => None,
        },
        None => None,
    }
}

/// The upstream that a request names.
pub fn header_base(headers: &axum::http::HeaderMap<axum::http::HeaderValue>) -> (r: Option<String>)
    ensures
        match r {
            Some(s) => header_base_of(*headers) == Some(s@),
            None => header_base_of(*headers) is None,
        },
{
    base_of_value(header_value(headers, RESPONSES_API_BASE))
}

/// The address of the responses below a base.
pub open spec fn responses_below(base: Seq<char>) -> Seq<char> {
    let base = trim_end_of(base, '/');
    if has_suffix(base, "/responses"@) {
        base
    } else {
        base + "/responses"@
    }
}

pub fn join_responses(base: &str) -> (r: String)
    ensures
        r@ == responses_below(base@),
{
    let mut base = trim_end_matches(base, '/');
    if ends_with(base.as_str(), "/responses") {
        base
    } else {
        base.append("/responses");
        base
    }
}

/// Whether the mode lets a request name its upstream.
pub open spec fn takes_header(mode: Seq<char>) -> bool {
    mode == "header"@ || mode == "header_required"@
}

fn header_mode(mode: &str) -> (r: bool)
    ensures
        r == takes_header(mode@),
{
    same_text(mode, "header") || same_text(mode, "header_required")
}

/// Where a request is sent, given the upstream that it names; nowhere, where it has to name one
/// and does not.
pub open spec fn upstream_url(cfg: Config, base: Option<Seq<char>>) -> Option<Seq<char>> {
    if takes_header(cfg.upstream.mode@) && base is Some {
        Some(responses_below(base->Some_0))
    } else if cfg.upstream.mode@ == "header_required"@ {
        None
    } else {
        Some(cfg.upstream.url@)
    }
}

/// An optional text.
pub open spec fn opt_string(s: Option<String>) -> Option<Seq<char>> {
    match s {
        Some(t) => Some(t@),
        None => None,
    }
}

/// Where a request is sent, given the upstream that it names.
pub fn url_for_base(cfg: &Config, base: Option<String>) -> (r: Option<String>)
    ensures
        opt_string(r) == upstream_url(*cfg, opt_string(base)),
{
    if header_mode(cfg.upstream.mode.as_str()) {
        if let Some(b) = base {
            return Some(join_responses(b.as_str()));
        }
        if same_text(cfg.upstream.mode.as_str(), "header_required") {
            return None;
        }
    }
    Some(cfg.upstream.url.clone())
}

pub fn resolve_upstream_url(
    cfg: &Config,
    headers: &axum::http::HeaderMap<axum::http::HeaderValue>,
) -> (r: Option<String>)
    ensures
        opt_string(r) == upstream_url(*cfg, header_base_of(*headers)),
{
    url_for_base(cfg, header_base(headers))
}

/// Whether a request is sent to an upstream that it names itself.
pub open spec fn url_from_header(cfg: Config, base: Option<Seq<char>>) -> bool {
    takes_header(cfg.upstream.mode@) && base is Some
}

/// Whether a request is sent to an upstream that it names itself, given the upstream that it names.
pub fn base_is_used(cfg: &Config, base: &Option<String>) -> (r: bool)
    ensures
        r == url_from_header(*cfg, opt_string(*base)),
{
    header_mode(cfg.upstream.mode.as_str()) && base.is_some()
}

pub fn url_is_from_header(
    cfg: &Config,
    headers: &axum::http::HeaderMap<axum::http::HeaderValue>,
) -> (r: bool)
    ensures
        r == url_from_header(*cfg, header_base_of(*headers)),
{
    base_is_used(cfg, &header_base(headers))
}

/// The headers whose values are text.
pub open spec fn text_headers(entries: Seq<(Seq<char>, Seq<u8>)>) -> Seq<(Seq<char>, Seq<char>)>
    decreases entries.len(),
{
    if entries.len() == 0 {
        Seq::empty()
    } else {
        let rest = text_headers(entries.drop_last());
        match value_text(entries.last().1) {
            Some(s) => rest.push((entries.last().0, s)),
            None => rest,
        }
    }
}

/// The headers whose values are text.
pub fn readable_headers(entries: Vec<(String, Vec<u8>)>) -> (r: Vec<(String, String)>)
    ensures
        text_pairs(r@) == text_headers(entry_pairs(entries@)),
{
    let mut out: Vec<(String, String)> = Vec::new();
    let ghost source = entries@;
    let ghost ps = entry_pairs(source);
    proof {
        assert(ps.take(0) =~= Seq::empty());
        assert(text_pairs(out@) =~= Seq::empty());
    }
    for e in it: entries
        invariant
            it.seq() == source,
            ps == entry_pairs(source),
            text_pairs(out@) == text_headers(ps.take(it.index() as int)),
    {
        let ghost before = out@;
        proof {
            let i = it.index() as int;
            assert(ps.take(i + 1).drop_last() =~= ps.take(i));
            assert(ps.take(i + 1).last() == (e.0@, e.1@));
        }
        if let Some(s) = to_str(&e.1) {
            let p = (e.0, s);
            out.push(p);
            assert(text_pairs(out@) =~= text_pairs(before).push((p.0@, p.1@)));
        }
    }
    assert(ps.take(ps.len() as int) =~= ps);
    out
}

/// Whether a request is folded: continuing is enabled, the request asks for a stream and leaves
/// reasoning on, and no tool of its own is named like the continuation tool where that is used.
pub open spec fn folds(cfg: Config, body: JsonView) -> bool {
    &&& cfg.cont.enabled
    &&& body.get("stream"@) is Some
    &&& body.get("stream"@)->Some_0.truthy()
    &&& reasoning_on(body)
    &&& !(cfg.cont.method@ == "tool_pair"@ && declares_tool(body, cfg.cont.continue_tool_name@))
}

pub fn should_fold(cfg: &Config, body: &Json) -> (r: bool)
    ensures
        r == folds(*cfg, body@),
{
    let streams = match body.get("stream") {
        Some(v) => v.truthy(),
        None => false,
    };
    let collision = same_text(cfg.cont.method.as_str(), "tool_pair") && declares_continue_tool(
        body,
        cfg.cont.continue_tool_name.as_str(),
    );
    cfg.cont.enabled && streams && reasoning_enabled(body) && !collision
}

/// Whether the calls that the client does not know of are put back.
pub open spec fn mends(cfg: Config) -> bool {
    cfg.cont.repair_followup@ == "stateful"@ && cfg.cont.method@ == "tool_pair"@
}

/// A request with the calls put back that the client does not know of.
pub open spec fn mended(cfg: Config, body: JsonView, ids: Seq<HeldId>, now: u128) -> JsonView {
    if mends(cfg) {
        let items = request_input(body);
        body.set(
            "input"@,
            JsonView::Array(
                repaired(
                    items,
                    items.len(),
                    ids,
                    now,
                    cfg.cont.continue_tool_name@,
                    cfg.cont.continue_output_text@,
                ),
            ),
        )
    } else {
        body
    }
}

/// What becomes of a request.
pub enum PlanView {
    /// It is answered with an error.
    Refused(u16, Seq<char>),
    /// It is sent on as it is.
    PassThrough { url: Seq<char>, headers: Map<Seq<char>, Seq<char>> },
    /// It is folded: `payload` opens the first round.
    Fold {
        url: Seq<char>,
        headers: Map<Seq<char>, Seq<char>>,
        body: JsonView,
        payload: JsonView,
    },
}

pub const INVALID_JSON: &'static str = "invalid JSON body";

pub const BASE_REQUIRED: &'static str =
    "Responses-API-Base header is required (upstream mode=header_required)";

pub const OWN_AUTHORIZATION: &'static str =
    "When overriding the upstream base (Responses-API-Base), the request must provide its own Authorization; the proxy will not send its configured credentials to an externally supplied URL.";

/// What becomes of a request with the given body, headers and upstream of its own.
pub open spec fn plan_of(
    cfg: Config,
    parsed: Option<JsonView>,
    base: Option<Seq<char>>,
    agent: Seq<(Seq<char>, Seq<char>)>,
    ids: Seq<HeldId>,
    now: u128,
) -> PlanView {
    if parsed is None {
        PlanView::Refused(400, INVALID_JSON@)
    } else if upstream_url(cfg, base) is None {
        PlanView::Refused(400, BASE_REQUIRED@)
    } else if url_from_header(cfg, base) && injects_any(passed_on(agent), cfg) {
        PlanView::Refused(400, OWN_AUTHORIZATION@)
    } else {
        let url = upstream_url(cfg, base)->Some_0;
        let headers = upstream_headers_of(agent, cfg);
        if parsed->Some_0 is Object && folds(cfg, parsed->Some_0) {
            let body = mended(cfg, parsed->Some_0, ids, now);
            PlanView::Fold {
                url,
                headers,
                body,
                payload: round_payload(
                    body,
                    request_input(body),
                    cfg.stream.force_include_encrypted,
                    false,
                ),
            }
        } else {
            PlanView::PassThrough { url, headers }
        }
    }
}

/// What becomes of a request.
pub enum Plan {
    Refused { status: u16, error: &'static str },
    PassThrough { url: String, headers: Vec<(String, String)> },
    Fold { url: String, headers: Vec<(String, String)>, body: Json, payload: Json },
}

impl Plan {
    pub open spec fn view(&self) -> PlanView {
        match self {
            Plan::Refused { status, error } => PlanView::Refused(*status, error@),
            Plan::PassThrough { url, headers } => PlanView::PassThrough {
                url: url@,
                headers: header_map(text_pairs(headers@)),
            },
            Plan::Fold { url, headers, body, payload } => PlanView::Fold {
                url: url@,
                headers: header_map(text_pairs(headers@)),
                body: body@,
                payload: payload@,
            },
        }
    }

    /// Whether no header occurs twice.
    pub open spec fn distinct_headers(&self) -> bool {
        match self {
            Plan::Refused { .. } => true,
            Plan::PassThrough { headers, .. } => distinct_names(text_pairs(headers@)),
            Plan::Fold { headers, .. } => distinct_names(text_pairs(headers@)),
        }
    }
}

/// What the store holds after a request was planned: it is asked only where the request is
/// mended.
pub open spec fn ids_after(
    cfg: Config,
    parsed: Option<JsonView>,
    plan: PlanView,
    ids: Seq<HeldId>,
    now: u128,
) -> Seq<HeldId> {
    if plan is Fold && mends(cfg) {
        let items = request_input(parsed->Some_0);
        after_repair(items, items.len(), ids, now)
    } else {
        ids
    }
}

/// What becomes of a request, given its body, the upstream that it names, and its headers.
pub fn plan_parsed(
    cfg: &Config,
    parsed: Option<Json>,
    base: Option<String>,
    agent_headers: Vec<(String, String)>,
    id_store: &mut IdStore,
    now: u128,
) -> (r: Plan)
    requires
        old(id_store).wf(),
    ensures
        r@ == plan_of(
            *cfg,
            owned_view(parsed),
            opt_string(base),
            text_pairs(agent_headers@),
            old(id_store)@,
            now,
        ),
        r.distinct_headers(),
        final(id_store).wf(),
        final(id_store).capacity() == old(id_store).capacity(),
        final(id_store).lifetime() == old(id_store).lifetime(),
        final(id_store)@ == ids_after(*cfg, owned_view(parsed), r@, old(id_store)@, now),
{
    let mut body = match parsed {
        Some(body) => body,
        None => {
            return Plan::Refused { status: 400, error: INVALID_JSON };
        },
    };
    let from_header = base_is_used(cfg, &base);
    let url = match url_for_base(cfg, base) {
        Some(url) => url,
        None => {
            return Plan::Refused { status: 400, error: BASE_REQUIRED };
        },
    };
    let own = forwarded_headers(&agent_headers);
    if from_header && (would_inject_authorization(cfg, has(&own, AUTH)) || would_inject_account(
        cfg,
        has(&own, ACCOUNT),
    )) {
        return Plan::Refused { status: 400, error: OWN_AUTHORIZATION };
    }
    let headers = build_upstream_headers(agent_headers, cfg);
    if !(body.is_object() && should_fold(cfg, &body)) {
        return Plan::PassThrough { url, headers };
    }
    if same_text(cfg.cont.repair_followup.as_str(), "stateful") && same_text(
        cfg.cont.method.as_str(),
        "tool_pair",
    ) {
        let items = array_clone(body.get("input"));
        proof {
            lemma_views(items@);
        }
        let repaired_items = repair_followup_input(
            items,
            id_store,
            now,
            cfg.cont.continue_tool_name.as_str(),
            cfg.cont.continue_output_text.as_str(),
        );
        body.set("input", Json::Array(repaired_items));
    }
    let payload = build_round_payload(
        &body,
        array_clone(body.get("input")),
        cfg.stream.force_include_encrypted,
        false,
    );
    Plan::Fold { url, headers, body, payload }
}

/// What becomes of a request with the given headers and body.
pub fn plan_request(
    cfg: &Config,
    headers: &axum::http::HeaderMap<axum::http::HeaderValue>,
    raw: &[u8],
    id_store: &mut IdStore,
    now: u128,
) -> (r: Plan)
    requires
        old(id_store).wf(),
    ensures
        r@ == plan_of(
            *cfg,
            parsed_bytes(raw@),
            header_base_of(*headers),
            text_headers(header_entries(*headers)),
            old(id_store)@,
            now,
        ),
        r.distinct_headers(),
        final(id_store).wf(),
        final(id_store).capacity() == old(id_store).capacity(),
        final(id_store).lifetime() == old(id_store).lifetime(),
        final(id_store)@ == ids_after(*cfg, parsed_bytes(raw@), r@, old(id_store)@, now),
{
    plan_parsed(
        cfg,
        Json::parse_bytes(raw),
        header_base(headers),
        readable_headers(header_list(headers)),
        id_store,
        now,
    )
}

/// The configured credentials are never sent to an upstream that the request names itself: such
/// a request is refused, or sent with its own headers and the configured headers alone.
pub proof fn law_credentials_stay(
    cfg: Config,
    parsed: Option<JsonView>,
    base: Option<Seq<char>>,
    agent: Seq<(Seq<char>, Seq<char>)>,
    ids: Seq<HeldId>,
    now: u128,
)
    requires
        url_from_header(cfg, base),
    ensures
        match plan_of(cfg, parsed, base, agent, ids, now) {
            PlanView::Refused(status, _) => status == 400,
            PlanView::PassThrough { headers, .. } => headers == with_headers(
                passed_on(agent),
                text_pairs(cfg.upstream.headers@),
            ),
            PlanView::Fold { headers, .. } => headers == with_headers(
                passed_on(agent),
                text_pairs(cfg.upstream.headers@),
            ),
        },
{
}

/// A request that names its upstream is refused where configured credentials would be sent with
/// it.
pub proof fn law_credentials_refused(
    cfg: Config,
    body: JsonView,
    base: Option<Seq<char>>,
    agent: Seq<(Seq<char>, Seq<char>)>,
    ids: Seq<HeldId>,
    now: u128,
)
    requires
        url_from_header(cfg, base),
        injects_any(passed_on(agent), cfg),
    ensures
        plan_of(cfg, Some(body), base, agent, ids, now) == PlanView::Refused(
            400,
            OWN_AUTHORIZATION@,
        ),
{
}

/// An upstream that a request names ends in `/responses`, and naming it by that address names the
/// same one.
pub proof fn law_responses_below(base: Seq<char>)
    ensures
        has_suffix(responses_below(base), "/responses"@),
        responses_below(responses_below(base)) == responses_below(base),
{
    reveal_strlit("/responses");
    let url = responses_below(base);
    let tail = "/responses"@;
    assert(tail.len() == 10);
    assert(tail[9] == 's');
    if !has_suffix(trim_end_of(base, '/'), tail) {
        let cut = trim_end_of(base, '/');
        assert((cut + tail).subrange((cut + tail).len() - tail.len(), (cut + tail).len() as int)
            =~= tail);
    }
    assert(url.last() == 's') by {
        assert(url.subrange(url.len() - tail.len(), url.len() as int)[9] == url.last());
    }
    assert(trim_end_of(url, '/') == url);
}

/// An error as the client is told of it.
pub open spec fn error_json(error: Seq<char>) -> JsonView {
    JsonView::Object(map!["error"@ => JsonView::Text(error)])
}

/// The body of an answer that tells of an error.
pub fn error_body(error: &str) -> (r: String)
    ensures
        is_text_of(r@, error_json(error@)),
{
    let body = Json::object().with("error", Json::text(error));
    assert(body@ == error_json(error@));
    body.print()
}

/// The answer to a request whose upstream could not be reached: its status and its body.
pub fn failed_answer(error: &str) -> (r: (u16, String))
    ensures
        r.0 == 502,
        is_text_of(r.1@, error_json(error@)),
{
    (502, error_body(error))
}

/// The status under which an upstream's answer is relayed: its own, unless it is no status.
pub open spec fn relayed(status: u16) -> u16 {
    if 100 <= status <= 999 {
        status
    } else {
        502
    }
}

pub fn status(code: u16) -> (r: u16)
    ensures
        r == relayed(code),
{
    if code >= 100 && code <= 999 {
        code
    } else {
        502
    }
}

/// The status under which the first answer to a request that is folded is relayed, where it is
/// relayed.
pub open spec fn first_relayed(code: u16) -> Option<u16> {
    if code >= 400 {
        Some(relayed(code))
    } else {
        None
    }
}

/// How the upstream's answer to a request that is folded is taken: where it is an error, it is
/// relayed under the given status; otherwise it is folded.
pub fn relays_first(code: u16) -> (r: Option<u16>)
    ensures
        r == first_relayed(code),
        r == if code >= 400 {
            Some(relayed(code))
        } else {
            None
        },
{
    if code >= 400 {
        Some(status(code))
    } else {
        None
    }
}

/// A request that is not refused is folded if and only if continuing is enabled, its body is an
/// object, it asks for a stream, it does not turn reasoning off, and none of its own tools is
/// named like the continuation tool where that is used. Every other one is passed through.
pub proof fn law_folded_when(
    cfg: Config,
    body: JsonView,
    base: Option<Seq<char>>,
    agent: Seq<(Seq<char>, Seq<char>)>,
    ids: Seq<HeldId>,
    now: u128,
)
    ensures
        ({
            let plan = plan_of(cfg, Some(body), base, agent, ids, now);
            let asks = cfg.cont.enabled && (body.get("stream"@) matches Some(v) && v.truthy())
                && body.get("reasoning"@) != Some(JsonView::Bool(false)) && (
            cfg.cont.method@ == "tool_pair"@ ==> !declares_tool(
                body,
                cfg.cont.continue_tool_name@,
            ));
            &&& plan !is Refused ==> plan is Fold == (body is Object && asks)
            &&& plan !is Refused && !(body is Object && asks) ==> plan is PassThrough
        }),
{
}

/// Where a request is folded, its first round is asked for by the client's own request: but for the
/// fields that make it a stream, its input and what it is to give, every field is the client's.
/// So is the input, where no lost calls are put back.
pub proof fn law_first_payload(
    cfg: Config,
    client: JsonView,
    base: Option<Seq<char>>,
    agent: Seq<(Seq<char>, Seq<char>)>,
    ids: Seq<HeldId>,
    now: u128,
    key: Seq<char>,
    xs: Seq<JsonView>,
)
    ensures
        plan_of(cfg, Some(client), base, agent, ids, now) matches PlanView::Fold {
            body,
            payload,
            ..
        } ==> {
            &&& key != "stream"@ && key != "input"@ && key != "include"@ ==> payload.get(key)
                == client.get(key)
            &&& payload.get("previous_response_id"@) == client.get("previous_response_id"@)
            &&& payload.get("stream"@) == Some(JsonView::Bool(true))
            &&& payload is Object
            &&& payload.get("include"@) == round_payload(
                client,
                xs,
                cfg.stream.force_include_encrypted,
                false,
            ).get("include"@)
            &&& !(client.get("input"@) is Some && client.get("input"@)->Some_0 is Array)
                ==> payload.get("input"@) == Some(JsonView::Array(Seq::empty()))
            &&& key != "input"@ ==> body.get(key) == client.get(key)
            &&& client.get("input"@) == Some(JsonView::Array(xs)) && (
            cfg.cont.repair_followup@ != "stateful"@ || cfg.cont.method@ != "tool_pair"@)
                ==> payload.get("input"@) == client.get("input"@)
            &&& client.get("input"@) == Some(JsonView::Array(xs)) && cfg.cont.repair_followup@
                == "stateful"@ && cfg.cont.method@ == "tool_pair"@ ==> payload.get("input"@)
                == Some(
                JsonView::Array(
                    repaired(
                        xs,
                        xs.len(),
                        ids,
                        now,
                        cfg.cont.continue_tool_name@,
                        cfg.cont.continue_output_text@,
                    ),
                ),
            )
        },
{
    let body = mended(cfg, client, ids, now);
    law_payload_keeps_rest(
        body,
        request_input(body),
        cfg.stream.force_include_encrypted,
        false,
        key,
    );
    law_payload_keeps_rest(
        body,
        request_input(body),
        cfg.stream.force_include_encrypted,
        false,
        "previous_response_id"@,
    );
    reveal_strlit("stream");
    reveal_strlit("input");
    reveal_strlit("include");
    reveal_strlit("previous_response_id");
    assert("stream"@.len() == 6);
    assert("input"@.len() == 5);
    assert("include"@.len() == 7);
    assert("previous_response_id"@.len() == 20);
}

/// Where a request is sent: to the configured upstream; to the one that it names, where the mode
/// lets it name one and it does; and nowhere, where it has to name one and does not.
pub proof fn law_upstream_url(cfg: Config, base: Option<Seq<char>>)
    ensures
        cfg.upstream.mode@ != "header"@ && cfg.upstream.mode@ != "header_required"@
            ==> upstream_url(cfg, base) == Some(cfg.upstream.url@) && !url_from_header(cfg, base),
        cfg.upstream.mode@ == "header"@ && base is None ==> upstream_url(cfg, base) == Some(
            cfg.upstream.url@,
        ) && !url_from_header(cfg, base),
        cfg.upstream.mode@ == "header_required"@ && base is None ==> upstream_url(cfg, base) is None
            && !url_from_header(cfg, base),
        (cfg.upstream.mode@ == "header"@ || cfg.upstream.mode@ == "header_required"@)
            && base is Some ==> upstream_url(cfg, base) == Some(responses_below(base->Some_0))
            && url_from_header(cfg, base),
{
    reveal_strlit("header");
    reveal_strlit("header_required");
    assert("header"@.len() == 6);
    assert("header_required"@.len() == 15);
}

/// Slashes at the end of an upstream's name do not count, and what it lacks of `/responses` is put
/// behind it.
pub proof fn law_responses_joined(base: Seq<char>)
    ensures
        responses_below(base.push('/')) == responses_below(base),
        base.len() > 0 && base.last() != '/' ==> responses_below(base + "/responses"@) == base
            + "/responses"@,
        base.len() > 0 && base.last() != '/' && !(base.len() >= 10 && base.skip(base.len() - 10)
            == "/responses"@) ==> responses_below(base) == base + "/responses"@,
{
    reveal_strlit("/responses");
    let tail = "/responses"@;
    assert(tail.len() == 10);
    assert(tail[9] == 's');
    assert(base.push('/').drop_last() =~= base);
    let url = base + tail;
    assert(url.last() == 's');
    assert(url.subrange(base.len() as int, url.len() as int) =~= tail);
    if base.len() >= 10 {
        assert(base.skip(base.len() - 10) =~= base.subrange(base.len() - 10, base.len() as int));
    }
}

/// A header names an upstream by its text without white space around it, where all of it is text
/// and something is left.
pub proof fn law_named_base(bytes: Seq<u8>)
    ensures
        named_base(None) is None,
        (exists|i: int| 0 <= i < bytes.len() && !((32 <= #[trigger] bytes[i] < 127) || bytes[i]
            == 9)) ==> named_base(Some(bytes)) is None,
        (forall|i: int|
            0 <= i < bytes.len() ==> (32 <= #[trigger] bytes[i] < 127) || bytes[i] == 9) ==> ({
            let text = trimmed(Seq::new(bytes.len(), |i: int| bytes[i] as char));
            named_base(Some(bytes)) == if text.len() > 0 {
                Some(text)
            } else {
                None
            }
        }),
{
    if exists|i: int|
        0 <= i < bytes.len() && !((32 <= #[trigger] bytes[i] < 127) || bytes[i] == 9) {
        let i = choose|i: int|
            0 <= i < bytes.len() && !((32 <= #[trigger] bytes[i] < 127) || bytes[i] == 9);
        assert(!visible(bytes[i]));
    }
    assert(bytes.map_values(|b: u8| b as char) =~= Seq::new(
        bytes.len(),
        |i: int| bytes[i] as char,
    ));
}

/// Of the values of one name the first one counts.
pub proof fn law_first_value(entries: Seq<(Seq<char>, Seq<u8>)>, name: Seq<char>, i: int)
    requires
        0 <= i <= entries.len(),
        forall|j: int| 0 <= j < i ==> (#[trigger] entries[j]).0 != name,
        i < entries.len() ==> entries[i].0 == name,
    ensures
        first_value(entries, name) == if i < entries.len() {
            Some(entries[i].1)
        } else {
            None
        },
    decreases entries.len(),
{
    if i > 0 {
        assert(entries[0].0 != name);
        let rest = entries.drop_first();
        assert forall|j: int| 0 <= j < i - 1 implies (#[trigger] rest[j]).0 != name by {
            assert(rest[j] == entries[j + 1]);
        }
        if i < entries.len() {
            assert(rest[i - 1] == entries[i]);
        }
        law_first_value(rest, name, i - 1);
    }
}

/// The headers that count are those whose values are text, with their names and in their order.
pub proof fn law_text_headers(
    entries: Seq<(Seq<char>, Seq<u8>)>,
    name: Seq<char>,
    bytes: Seq<u8>,
)
    ensures
        ({
            let before = text_headers(entries);
            let after = text_headers(entries.push((name, bytes)));
            &&& text_headers(Seq::empty()).len() == 0
            &&& (forall|i: int|
                0 <= i < bytes.len() ==> (32 <= #[trigger] bytes[i] < 127) || bytes[i] == 9)
                ==> after == before.push(
                (name, Seq::new(bytes.len(), |i: int| bytes[i] as char)),
            )
            &&& (exists|i: int|
                0 <= i < bytes.len() && !((32 <= #[trigger] bytes[i] < 127) || bytes[i] == 9))
                ==> after == before
        }),
{
    assert(entries.push((name, bytes)).drop_last() =~= entries);
    assert(bytes.map_values(|b: u8| b as char) =~= Seq::new(
        bytes.len(),
        |i: int| bytes[i] as char,
    ));
    if exists|i: int|
        0 <= i < bytes.len() && !((32 <= #[trigger] bytes[i] < 127) || bytes[i] == 9) {
        let i = choose|i: int|
            0 <= i < bytes.len() && !((32 <= #[trigger] bytes[i] < 127) || bytes[i] == 9);
        assert(!visible(bytes[i]));
    }
}

/// A request is refused, always as a bad one, exactly where its body is no JSON, where it has to
/// name its upstream and does not, or where configured credentials would be sent to an upstream
/// that it names.
pub proof fn law_refused(
    cfg: Config,
    parsed: Option<JsonView>,
    base: Option<Seq<char>>,
    agent: Seq<(Seq<char>, Seq<char>)>,
    ids: Seq<HeldId>,
    now: u128,
)
    ensures
        ({
            let plan = plan_of(cfg, parsed, base, agent, ids, now);
            let names = (cfg.upstream.mode@ == "header"@ || cfg.upstream.mode@
                == "header_required"@) && base is Some;
            let lacks = cfg.upstream.mode@ == "header_required"@ && base is None;
            let leaks = injects_any(passed_on(agent), cfg);
            &&& plan is Refused <==> parsed is None || lacks || names && leaks
            &&& plan is Refused ==> plan->Refused_0 == 400
            &&& parsed is None ==> plan->Refused_1 == "invalid JSON body"@
            &&& parsed is Some && lacks ==> plan->Refused_1 == BASE_REQUIRED@
            &&& parsed is Some && names && leaks ==> plan->Refused_1 == OWN_AUTHORIZATION@
            &&& plan matches PlanView::PassThrough { url, .. } ==> url == if names {
                responses_below(base->Some_0)
            } else {
                cfg.upstream.url@
            }
            &&& plan matches PlanView::Fold { url, .. } ==> url == if names {
                responses_below(base->Some_0)
            } else {
                cfg.upstream.url@
            }
            &&& plan matches PlanView::PassThrough { headers, .. } ==> headers
                == upstream_headers_of(agent, cfg)
            &&& plan matches PlanView::Fold { headers, .. } ==> headers == upstream_headers_of(
                agent,
                cfg,
            )
        }),
{
    law_upstream_url(cfg, base);
    reveal_strlit("header");
    reveal_strlit("header_required");
    assert("header"@.len() == 6);
    assert("header_required"@.len() == 15);
}

/// Whether a request that names its upstream would leak credentials, by the headers that it has.
pub proof fn law_leaks(agent: Seq<(Seq<char>, Seq<char>)>, cfg: Config)
    ensures
        ({
            let own = passed_on(agent);
            let leaks = injects_any(own, cfg);
            &&& cfg.auth.access_token@.len() == 0 && cfg.auth.chatgpt_account_id@.len() == 0
                ==> !leaks
            &&& cfg.auth.mode@ == "inject"@ ==> leaks == (cfg.auth.access_token@.len() > 0
                || cfg.auth.chatgpt_account_id@.len() > 0)
            &&& cfg.auth.mode@ == "passthrough_then_inject"@ ==> leaks == (
            cfg.auth.access_token@.len() > 0 && !has_header(own, "authorization"@)
                || cfg.auth.chatgpt_account_id@.len() > 0 && !has_header(
                own,
                "chatgpt-account-id"@,
            ))
            &&& cfg.auth.mode@ != "inject"@ && cfg.auth.mode@ != "passthrough_then_inject"@
                ==> !leaks
        }),
{
    law_modes(cfg.auth.mode@, has_header(passed_on(agent), "authorization"@));
    law_modes(cfg.auth.mode@, has_header(passed_on(agent), "chatgpt-account-id"@));
}

/// The store is asked only where a request that is folded is mended; else it stays as it is.
pub proof fn law_store_asked(
    cfg: Config,
    body: JsonView,
    plan: PlanView,
    ids: Seq<HeldId>,
    now: u128,
    xs: Seq<JsonView>,
)
    ensures
        !(plan is Fold) || cfg.cont.repair_followup@ != "stateful"@ || cfg.cont.method@
            != "tool_pair"@ ==> ids_after(cfg, Some(body), plan, ids, now) == ids,
        plan is Fold && cfg.cont.repair_followup@ == "stateful"@ && cfg.cont.method@
            == "tool_pair"@ && body.get("input"@) == Some(JsonView::Array(xs)) ==> ids_after(
            cfg,
            Some(body),
            plan,
            ids,
            now,
        ) == after_repair(xs, xs.len(), ids, now),
{
}

/// A status is relayed as it is where it is one; what is no status becomes that of a bad gateway.
pub proof fn law_relayed(code: u16)
    ensures
        100 <= relayed(code) <= 999,
        100 <= code <= 999 ==> relayed(code) == code,
        code < 100 || code > 999 ==> relayed(code) == 502,
{
}

/// The first answer to a request that is folded is relayed exactly where a later round with that
/// answer would be refused, and under its own status where that is one.
pub proof fn law_first_relayed(cfg: Config, st: FoldView, code: u16)
    requires
        st.phase == Phase::Opening,
    ensures
        first_relayed(code) is Some <==> fold_step(cfg, st, InputView::Opened(code)).0.phase
            == Phase::Finished,
        first_relayed(code) is None <==> code < 400,
        400 <= code <= 999 ==> first_relayed(code) == Some(code),
        code > 999 ==> first_relayed(code) == Some(502u16),
{
}

/// An error is told in a field of its own.
pub proof fn law_error(error: Seq<char>, key: Seq<char>)
    ensures
        error_json(error).get("error"@) == Some(JsonView::Text(error)),
        key != "error"@ ==> error_json(error).get(key) is None,
{
}

} // verus!
