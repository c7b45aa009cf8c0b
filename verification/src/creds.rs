//! The headers of an upstream request, and the credentials among them.
use vstd::prelude::*;
use vstd::string::*;

use crate::config::Config;
use crate::text::{eq_ignore_case, lower, same_name, same_text, text_pairs, to_lower};

verus! {

pub const AUTH: &'static str = "authorization";

pub const ACCOUNT: &'static str = "chatgpt-account-id";

/// The header by which a request overrides the upstream.
pub const RESPONSES_API_BASE: &'static str = "responses-api-base";

/// Whether a header, named in lower case, belongs to the connection of the client and not to its
/// request.
pub open spec fn client_owned(name: Seq<char>) -> bool {
    name == "host"@ || name == "content-length"@ || name == "connection"@ || name == "keep-alive"@
        || name == "proxy-connection"@ || name == "transfer-encoding"@ || name
        == "accept-encoding"@
}

fn is_client_owned(name: &str) -> (r: bool)
    ensures
        r == client_owned(name@),
{
    same_text(name, "host") || same_text(name, "content-length") || same_text(name, "connection")
        || same_text(name, "keep-alive") || same_text(name, "proxy-connection") || same_text(
        name,
        "transfer-encoding",
    ) || same_text(name, "accept-encoding")
}

/// Whether the mode asks for a configured header, given whether the request has one of its own.
pub open spec fn injects(mode: Seq<char>, present: bool) -> bool {
    mode == "inject"@ || (mode == "passthrough_then_inject"@ && !present)
}

pub fn should_inject(mode: &str, header_present: bool) -> (r: bool)
    ensures
        r == injects(mode@, header_present),
{
    if same_text(mode, "inject") {
        true
    } else if same_text(mode, "passthrough_then_inject") {
        !header_present
    } else {
        false
    }
}

/// Whether the configured access token is sent, given whether the request is authorized itself.
pub open spec fn injects_token(cfg: Config, present: bool) -> bool {
    cfg.auth.access_token@.len() > 0 && injects(cfg.auth.mode@, present)
}

pub fn would_inject_authorization(cfg: &Config, agent_has_authorization: bool) -> (r: bool)
    ensures
        r == injects_token(*cfg, agent_has_authorization),
{
    !cfg.auth.access_token.as_str().is_empty() && should_inject(
        cfg.auth.mode.as_str(),
        agent_has_authorization,
    )
}

/// Whether the configured account is sent, given whether the request names an account itself.
pub open spec fn injects_account(cfg: Config, present: bool) -> bool {
    cfg.auth.chatgpt_account_id@.len() > 0 && injects(cfg.auth.mode@, present)
}

pub fn would_inject_account(cfg: &Config, agent_has_account: bool) -> (r: bool)
    ensures
        r == injects_account(*cfg, agent_has_account),
{
    !cfg.auth.chatgpt_account_id.as_str().is_empty() && should_inject(
        cfg.auth.mode.as_str(),
        agent_has_account,
    )
}

/// The headers that a list of names and values stands for: a later one takes the place of an
/// earlier one of the same name.
pub open spec fn header_map(ps: Seq<(Seq<char>, Seq<char>)>) -> Map<Seq<char>, Seq<char>>
    decreases ps.len(),
{
    if ps.len() == 0 {
        Map::empty()
    } else {
        header_map(ps.drop_last()).insert(ps.last().0, ps.last().1)
    }
}

/// Whether no name occurs twice.
pub open spec fn distinct_names(ps: Seq<(Seq<char>, Seq<char>)>) -> bool {
    forall|i: int, j: int| 0 <= i < j < ps.len() ==> #[trigger] ps[i].0 != #[trigger] ps[j].0
}

/// Whether there is a header of the given name, in whatever case.
pub open spec fn has_header(hs: Map<Seq<char>, Seq<char>>, name: Seq<char>) -> bool {
    exists|k: Seq<char>| #[trigger] hs.contains_key(k) && same_name(k, name)
}

/// Headers without those of the given name, in whatever case.
pub open spec fn without_header(hs: Map<Seq<char>, Seq<char>>, name: Seq<char>) -> Map<
    Seq<char>,
    Seq<char>,
> {
    Map::new(|k: Seq<char>| hs.contains_key(k) && !same_name(k, name), |k: Seq<char>| hs[k])
}

/// Headers with one set: it takes the place of all of the same name, in whatever case.
pub open spec fn with_header(
    hs: Map<Seq<char>, Seq<char>>,
    name: Seq<char>,
    value: Seq<char>,
) -> Map<Seq<char>, Seq<char>> {
    without_header(hs, name).insert(name, value)
}

/// The headers of a request that are passed on: all but those of the client's connection and the
/// one that overrides the upstream.
pub open spec fn passed_on(ps: Seq<(Seq<char>, Seq<char>)>) -> Map<Seq<char>, Seq<char>>
    decreases ps.len(),
{
    if ps.len() == 0 {
        Map::empty()
    } else {
        let rest = passed_on(ps.drop_last());
        let (name, value) = ps.last();
        if client_owned(lower(name)) || lower(name) == RESPONSES_API_BASE@ {
            rest
        } else {
            rest.insert(name, value)
        }
    }
}

/// Headers with a list of headers set one after the other.
pub open spec fn with_headers(
    hs: Map<Seq<char>, Seq<char>>,
    ps: Seq<(Seq<char>, Seq<char>)>,
) -> Map<Seq<char>, Seq<char>>
    decreases ps.len(),
{
    if ps.len() == 0 {
        hs
    } else {
        with_header(with_headers(hs, ps.drop_last()), ps.last().0, ps.last().1)
    }
}

/// Headers with the configured access token, where it is sent.
pub open spec fn with_token(hs: Map<Seq<char>, Seq<char>>, cfg: Config) -> Map<
    Seq<char>,
    Seq<char>,
> {
    if injects_token(cfg, has_header(hs, AUTH@)) {
        with_header(hs, "Authorization"@, "Bearer "@ + cfg.auth.access_token@)
    } else {
        hs
    }
}

/// Headers with the configured account, where it is sent.
pub open spec fn with_account(hs: Map<Seq<char>, Seq<char>>, cfg: Config) -> Map<
    Seq<char>,
    Seq<char>,
> {
    if injects_account(cfg, has_header(hs, ACCOUNT@)) {
        with_header(hs, "chatgpt-account-id"@, cfg.auth.chatgpt_account_id@)
    } else {
        hs
    }
}

/// Whether any of the configured credentials would be sent with a request whose own headers are
/// those that are passed on.
pub open spec fn injects_any(hs: Map<Seq<char>, Seq<char>>, cfg: Config) -> bool {
    injects_token(cfg, has_header(hs, AUTH@)) || injects_account(cfg, has_header(hs, ACCOUNT@))
}

/// The headers of an upstream request: those of the request that are passed on, the configured
/// credentials, and the configured headers.
pub open spec fn upstream_headers_of(agent: Seq<(Seq<char>, Seq<char>)>, cfg: Config) -> Map<
    Seq<char>,
    Seq<char>,
> {
    with_headers(
        with_account(with_token(passed_on(agent), cfg), cfg),
        text_pairs(cfg.upstream.headers@),
    )
}

proof fn lemma_map_names(ps: Seq<(Seq<char>, Seq<char>)>, name: Seq<char>)
    ensures
        header_map(ps).contains_key(name) <==> exists|i: int|
            0 <= i < ps.len() && #[trigger] ps[i].0 == name,
    decreases ps.len(),
{
    if ps.len() > 0 {
        let front = ps.drop_last();
        lemma_map_names(front, name);
        if header_map(front).contains_key(name) {
            let i = choose|i: int| 0 <= i < front.len() && #[trigger] front[i].0 == name;
            assert(ps[i].0 == name);
        }
        if exists|i: int| 0 <= i < ps.len() && #[trigger] ps[i].0 == name {
            let i = choose|i: int| 0 <= i < ps.len() && #[trigger] ps[i].0 == name;
            if i < front.len() {
                assert(front[i].0 == name);
            }
        }
        assert(ps[ps.len() - 1] == ps.last());
    }
}

proof fn lemma_push_distinct(ps: Seq<(Seq<char>, Seq<char>)>, p: (Seq<char>, Seq<char>))
    requires
        distinct_names(ps),
        !header_map(ps).contains_key(p.0),
    ensures
        distinct_names(ps.push(p)),
        header_map(ps.push(p)) == header_map(ps).insert(p.0, p.1),
{
    assert(ps.push(p).drop_last() =~= ps);
    assert forall|i: int, j: int| 0 <= i < j < ps.push(p).len() implies #[trigger] ps.push(p)[i].0
        != #[trigger] ps.push(p)[j].0 by {
        if j == ps.len() {
            lemma_map_names(ps, p.0);
            assert(ps[i].0 != p.0);
        }
    }
}

pub fn has(headers: &Vec<(String, String)>, name: &str) -> (r: bool)
    ensures
        r == has_header(header_map(text_pairs(headers@)), name@),
{
    let ghost ps = text_pairs(headers@);
    for i in 0..headers.len()
        invariant
            ps == text_pairs(headers@),
            forall|j: int| 0 <= j < i ==> !same_name(#[trigger] ps[j].0, name@),
    {
        if eq_ignore_case(headers[i].0.as_str(), name) {
            proof {
                assert(ps[i as int].0 == headers@[i as int].0@);
                lemma_map_names(ps, ps[i as int].0);
                assert(header_map(ps).contains_key(ps[i as int].0));
            }
            return true;
        }
    }
    proof {
        if has_header(header_map(ps), name@) {
            let k = choose|k: Seq<char>|
                #[trigger] header_map(ps).contains_key(k) && same_name(k, name@);
            lemma_map_names(ps, k);
            let i = choose|i: int| 0 <= i < ps.len() && #[trigger] ps[i].0 == k;
            assert(!same_name(ps[i].0, name@));
        }
    }
    false
}

/// Takes out the headers of a name: of exactly that name, or of that name in whatever case.
fn remove(headers: &mut Vec<(String, String)>, name: &str, any_case: bool)
    requires
        distinct_names(text_pairs(old(headers)@)),
    ensures
        distinct_names(text_pairs(final(headers)@)),
        header_map(text_pairs(final(headers)@)) == if any_case {
            without_header(header_map(text_pairs(old(headers)@)), name@)
        } else {
            header_map(text_pairs(old(headers)@)).remove(name@)
        },
{
    let mut all: Vec<(String, String)> = Vec::new();
    std::mem::swap(&mut all, headers);
    let ghost ps = text_pairs(all@);
    let ghost goes = |k: Seq<char>|
        if any_case {
            same_name(k, name@)
        } else {
            k == name@
        };
    proof {
        assert(ps.take(0) =~= Seq::empty());
        assert(text_pairs(headers@) =~= Seq::empty());
    }
    let ghost source = all@;
    for p in it: all
        invariant
            it.seq() == source,
            ps == text_pairs(source),
            distinct_names(ps),
            distinct_names(text_pairs(headers@)),
            goes == (|k: Seq<char>|
                if any_case {
                    same_name(k, name@)
                } else {
                    k == name@
                }),
            forall|k: Seq<char>| #[trigger]
                header_map(text_pairs(headers@)).contains_key(k) <==> header_map(
                    ps.take(it.index() as int),
                ).contains_key(k) && !goes(k),
            forall|k: Seq<char>| #[trigger]
                header_map(text_pairs(headers@)).contains_key(k) ==> header_map(
                    text_pairs(headers@),
                )[k] == header_map(ps.take(it.index() as int))[k],
    {
        let ghost i = it.index() as int;
        let ghost before = text_pairs(headers@);
        let ghost front = ps.take(i);
        proof {
            assert(ps.take(i + 1).drop_last() =~= front);
            assert(ps.take(i + 1).last() == ps[i]);
            assert(ps[i] == (p.0@, p.1@));
            lemma_map_names(front, p.0@);
            if header_map(front).contains_key(p.0@) {
                let j = choose|j: int| 0 <= j < front.len() && #[trigger] front[j].0 == p.0@;
                assert(ps[j].0 == ps[i].0);
            }
        }
        let drop_it = if any_case {
            eq_ignore_case(p.0.as_str(), name)
        } else {
            same_text(p.0.as_str(), name)
        };
        assert(drop_it == goes(p.0@));
        if !drop_it {
            headers.push(p);
            proof {
                assert(text_pairs(headers@) =~= before.push((p.0@, p.1@)));
                lemma_push_distinct(before, (p.0@, p.1@));
            }
        }
    }
    proof {
        assert(ps.take(ps.len() as int) =~= ps);
        let end = header_map(text_pairs(headers@));
        if any_case {
            assert(end =~= without_header(header_map(ps), name@));
        } else {
            assert(end =~= header_map(ps).remove(name@));
        }
    }
}

fn push_header(headers: &mut Vec<(String, String)>, name: String, value: String)
    requires
        distinct_names(text_pairs(old(headers)@)),
        !header_map(text_pairs(old(headers)@)).contains_key(name@),
    ensures
        distinct_names(text_pairs(final(headers)@)),
        header_map(text_pairs(final(headers)@)) == header_map(text_pairs(old(headers)@)).insert(
            name@,
            value@,
        ),
{
    proof {
        lemma_push_distinct(text_pairs(headers@), (name@, value@));
    }
    let ghost before = text_pairs(headers@);
    headers.push((name, value));
    assert(text_pairs(headers@) =~= before.push((name@, value@)));
}

fn set(headers: &mut Vec<(String, String)>, name: &str, value: String)
    requires
        distinct_names(text_pairs(old(headers)@)),
    ensures
        distinct_names(text_pairs(final(headers)@)),
        header_map(text_pairs(final(headers)@)) == with_header(
            header_map(text_pairs(old(headers)@)),
            name@,
            value@,
        ),
{
    remove(headers, name, true);
    push_header(headers, name.to_owned(), value);
}

/// The headers of a request that are passed on.
pub fn forwarded_headers(agent_headers: &Vec<(String, String)>) -> (r: Vec<(String, String)>)
    ensures
        header_map(text_pairs(r@)) == passed_on(text_pairs(agent_headers@)),
        distinct_names(text_pairs(r@)),
{
    let mut out: Vec<(String, String)> = Vec::new();
    let ghost ps = text_pairs(agent_headers@);
    proof {
        assert(ps.take(0) =~= Seq::empty());
        assert(text_pairs(out@) =~= Seq::empty());
    }
    for i in 0..agent_headers.len()
        invariant
            ps == text_pairs(agent_headers@),
            distinct_names(text_pairs(out@)),
            header_map(text_pairs(out@)) == passed_on(ps.take(i as int)),
    {
        let name = agent_headers[i].0.clone();
        let value = agent_headers[i].1.clone();
        proof {
            assert(ps.take(i + 1).drop_last() =~= ps.take(i as int));
            assert(ps.take(i + 1).last() == (name@, value@));
        }
        let lname = to_lower(name.as_str());
        if !(is_client_owned(lname.as_str()) || same_text(lname.as_str(), RESPONSES_API_BASE)) {
            let ghost before = header_map(text_pairs(out@));
            remove(&mut out, name.as_str(), false);
            assert(before.remove(name@).insert(name@, value@) =~= before.insert(name@, value@));
            push_header(&mut out, name, value);
        }
    }
    assert(ps.take(ps.len() as int) =~= ps);
    out
}

pub fn build_upstream_headers(agent_headers: Vec<(String, String)>, cfg: &Config) -> (r: Vec<
    (String, String),
>)
    ensures
        header_map(text_pairs(r@)) == upstream_headers_of(text_pairs(agent_headers@), *cfg),
        distinct_names(text_pairs(r@)),
{
    let mut out = forwarded_headers(&agent_headers);
    if would_inject_authorization(cfg, has(&out, AUTH)) {
        let mut value = "Bearer ".to_owned();
        value.append(cfg.auth.access_token.as_str());
        set(&mut out, "Authorization", value);
    }
    if would_inject_account(cfg, has(&out, ACCOUNT)) {
        set(&mut out, "chatgpt-account-id", cfg.auth.chatgpt_account_id.clone());
    }
    let ghost base = header_map(text_pairs(out@));
    let ghost more = text_pairs(cfg.upstream.headers@);
    assert(more.take(0) =~= Seq::empty());
    for i in 0..cfg.upstream.headers.len()
        invariant
            more == text_pairs(cfg.upstream.headers@),
            distinct_names(text_pairs(out@)),
            header_map(text_pairs(out@)) == with_headers(base, more.take(i as int)),
    {
        proof {
            assert(more.take(i + 1).drop_last() =~= more.take(i as int));
            assert(more.take(i + 1).last() == more[i as int]);
        }
        set(
            &mut out,
            cfg.upstream.headers[i].0.as_str(),
            cfg.upstream.headers[i].1.clone(),
        );
    }
    assert(more.take(more.len() as int) =~= more);
    out
}

/// Whether a header of the given name, in whatever case, is configured.
pub open spec fn configured(ps: Seq<(Seq<char>, Seq<char>)>, name: Seq<char>) -> bool {
    exists|i: int| 0 <= i < ps.len() && same_name(#[trigger] ps[i].0, name)
}

proof fn lemma_with_headers(
    hs: Map<Seq<char>, Seq<char>>,
    ps: Seq<(Seq<char>, Seq<char>)>,
    name: Seq<char>,
)
    ensures
        with_headers(hs, ps).contains_key(name) ==> hs.contains_key(name) || configured(ps, name),
        !configured(ps, name) ==> with_headers(hs, ps).contains_key(name) == hs.contains_key(
            name,
        ),
        !configured(ps, name) && hs.contains_key(name) ==> with_headers(hs, ps)[name] == hs[name],
    decreases ps.len(),
{
    if ps.len() > 0 {
        let front = ps.drop_last();
        lemma_with_headers(hs, front, name);
        assert(ps[ps.len() - 1] == ps.last());
        if configured(front, name) {
            let i = choose|i: int| 0 <= i < front.len() && same_name(#[trigger] front[i].0, name);
            assert(ps[i] == front[i]);
        }
    }
}

/// A configured header is sent as it is configured, unless another one of its name is configured
/// after it.
pub proof fn law_configured_wins(agent: Seq<(Seq<char>, Seq<char>)>, cfg: Config, i: int)
    requires
        0 <= i < cfg.upstream.headers@.len(),
        forall|j: int|
            i < j < cfg.upstream.headers@.len() ==> !same_name(
                #[trigger] cfg.upstream.headers@[j].0@,
                cfg.upstream.headers@[i].0@,
            ),
    ensures
        ({
            let (name, value) = text_pairs(cfg.upstream.headers@)[i];
            &&& upstream_headers_of(agent, cfg).contains_key(name)
            &&& upstream_headers_of(agent, cfg)[name] == value
        }),
{
    let hs = with_account(with_token(passed_on(agent), cfg), cfg);
    let ps = text_pairs(cfg.upstream.headers@);
    assert forall|j: int| i < j < ps.len() implies !same_name(#[trigger] ps[j].0, ps[i].0) by {
        assert(ps[j].0 == cfg.upstream.headers@[j].0@);
    }
    lemma_configured_wins(hs, ps, i);
}

proof fn lemma_configured_wins(
    hs: Map<Seq<char>, Seq<char>>,
    ps: Seq<(Seq<char>, Seq<char>)>,
    i: int,
)
    requires
        0 <= i < ps.len(),
        forall|j: int| i < j < ps.len() ==> !same_name(#[trigger] ps[j].0, ps[i].0),
    ensures
        with_headers(hs, ps).contains_key(ps[i].0),
        with_headers(hs, ps)[ps[i].0] == ps[i].1,
    decreases ps.len(),
{
    let front = ps.drop_last();
    if i < front.len() {
        assert forall|j: int| i < j < front.len() implies !same_name(
            #[trigger] front[j].0,
            front[i].0,
        ) by {
            assert(front[j] == ps[j]);
        }
        lemma_configured_wins(hs, front, i);
        assert(!same_name(ps[ps.len() - 1].0, ps[i].0));
    }
}

proof fn lemma_passed_on(agent: Seq<(Seq<char>, Seq<char>)>, name: Seq<char>)
    ensures
        passed_on(agent).contains_key(name) ==> !client_owned(lower(name)) && lower(name)
            != RESPONSES_API_BASE@,
    decreases agent.len(),
{
    if agent.len() > 0 {
        lemma_passed_on(agent.drop_last(), name);
    }
}

/// Neither the headers of the client's connection nor the one that overrides the upstream are
/// sent upstream, unless they are configured.
pub proof fn law_not_forwarded(agent: Seq<(Seq<char>, Seq<char>)>, cfg: Config, name: Seq<char>)
    requires
        client_owned(lower(name)) || lower(name) == RESPONSES_API_BASE@,
        !configured(text_pairs(cfg.upstream.headers@), name),
    ensures
        !upstream_headers_of(agent, cfg).contains_key(name),
{
    lemma_passed_on(agent, name);
    lemma_auth_names();
    lemma_with_headers(
        with_account(with_token(passed_on(agent), cfg), cfg),
        text_pairs(cfg.upstream.headers@),
        name,
    );
}

/// The names of the credentials in lower case, and that they are no names of the client's
/// connection.
proof fn lemma_auth_names()
    ensures
        lower("Authorization"@) == AUTH@,
        lower(AUTH@) == AUTH@,
        lower(ACCOUNT@) == ACCOUNT@,
        AUTH@ != ACCOUNT@,
        !client_owned(AUTH@),
        !client_owned(ACCOUNT@),
        AUTH@ != RESPONSES_API_BASE@,
        ACCOUNT@ != RESPONSES_API_BASE@,
{
    reveal_strlit("Authorization");
    reveal_strlit("authorization");
    reveal_strlit("chatgpt-account-id");
    reveal_strlit("responses-api-base");
    reveal_strlit("host");
    reveal_strlit("content-length");
    reveal_strlit("connection");
    reveal_strlit("keep-alive");
    reveal_strlit("proxy-connection");
    reveal_strlit("transfer-encoding");
    reveal_strlit("accept-encoding");
    assert(lower("Authorization"@) =~= "authorization"@);
    assert(lower("authorization"@) =~= "authorization"@);
    assert(lower("chatgpt-account-id"@) =~= "chatgpt-account-id"@);
    assert("authorization"@.len() == 13);
    assert("chatgpt-account-id"@.len() == 18 && "chatgpt-account-id"@[0] == 'c');
    assert("responses-api-base"@.len() == 18 && "responses-api-base"@[0] == 'r');
    assert("host"@.len() == 4);
    assert("content-length"@.len() == 14);
    assert("connection"@.len() == 10);
    assert("keep-alive"@.len() == 10);
    assert("proxy-connection"@.len() == 16);
    assert("transfer-encoding"@.len() == 17);
    assert("accept-encoding"@.len() == 15);
}

/// Where nothing is injected, the caller's headers are passed on with the configured headers and
/// nothing else.
pub proof fn law_passthrough(agent: Seq<(Seq<char>, Seq<char>)>, cfg: Config)
    requires
        cfg.auth.mode@ != "inject"@,
        cfg.auth.mode@ != "passthrough_then_inject"@,
    ensures
        upstream_headers_of(agent, cfg) == with_headers(
            passed_on(agent),
            text_pairs(cfg.upstream.headers@),
        ),
{
}

/// Where credentials are injected, the configured account takes the place of any account that the
/// caller names.
pub proof fn law_inject_account(
    agent: Seq<(Seq<char>, Seq<char>)>,
    cfg: Config,
    name: Seq<char>,
)
    requires
        cfg.auth.mode@ == "inject"@,
        cfg.auth.chatgpt_account_id@.len() > 0,
        same_name(name, ACCOUNT@),
        !configured(text_pairs(cfg.upstream.headers@), ACCOUNT@),
    ensures
        ({
            let sent = upstream_headers_of(agent, cfg);
            &&& sent.contains_key(name) == (name == ACCOUNT@)
            &&& name == ACCOUNT@ ==> sent[name] == cfg.auth.chatgpt_account_id@
        }),
{
    lemma_auth_names();
    let ps = text_pairs(cfg.upstream.headers@);
    if configured(ps, name) {
        let i = choose|i: int| 0 <= i < ps.len() && same_name(#[trigger] ps[i].0, name);
        assert(same_name(ps[i].0, ACCOUNT@));
    }
    lemma_with_headers(with_account(with_token(passed_on(agent), cfg), cfg), ps, name);
}

/// Where credentials are injected, the configured access token takes the place of any
/// authorization of the caller.
pub proof fn law_inject(agent: Seq<(Seq<char>, Seq<char>)>, cfg: Config, name: Seq<char>)
    requires
        cfg.auth.mode@ == "inject"@,
        cfg.auth.access_token@.len() > 0,
        same_name(name, AUTH@),
        !configured(text_pairs(cfg.upstream.headers@), AUTH@),
    ensures
        ({
            let sent = upstream_headers_of(agent, cfg);
            &&& sent.contains_key(name) == (name == "Authorization"@)
            &&& name == "Authorization"@ ==> sent[name] == "Bearer "@ + cfg.auth.access_token@
        }),
{
    lemma_auth_names();
    let ps = text_pairs(cfg.upstream.headers@);
    if configured(ps, name) {
        let i = choose|i: int| 0 <= i < ps.len() && same_name(#[trigger] ps[i].0, name);
        assert(same_name(ps[i].0, AUTH@));
    }
    lemma_with_headers(with_account(with_token(passed_on(agent), cfg), cfg), ps, name);
}

/// Where credentials are injected only in want of the caller's, the account that the caller names
/// stays as it is.
pub proof fn law_own_account(agent: Seq<(Seq<char>, Seq<char>)>, cfg: Config, name: Seq<char>)
    requires
        cfg.auth.mode@ == "passthrough_then_inject"@,
        passed_on(agent).contains_key(name),
        same_name(name, ACCOUNT@),
        !configured(text_pairs(cfg.upstream.headers@), ACCOUNT@),
    ensures
        upstream_headers_of(agent, cfg).contains_key(name),
        upstream_headers_of(agent, cfg)[name] == passed_on(agent)[name],
{
    lemma_auth_names();
    lemma_modes();
    let ps = text_pairs(cfg.upstream.headers@);
    assert(with_token(passed_on(agent), cfg).contains_key(name));
    assert(has_header(with_token(passed_on(agent), cfg), ACCOUNT@));
    if configured(ps, name) {
        let i = choose|i: int| 0 <= i < ps.len() && same_name(#[trigger] ps[i].0, name);
        assert(same_name(ps[i].0, ACCOUNT@));
    }
    lemma_with_headers(with_account(with_token(passed_on(agent), cfg), cfg), ps, name);
}

/// Where credentials are injected only in want of the caller's, the caller's authorization stays
/// as it is.
pub proof fn law_own_authorization(
    agent: Seq<(Seq<char>, Seq<char>)>,
    cfg: Config,
    name: Seq<char>,
)
    requires
        cfg.auth.mode@ == "passthrough_then_inject"@,
        passed_on(agent).contains_key(name),
        same_name(name, AUTH@),
        !configured(text_pairs(cfg.upstream.headers@), AUTH@),
    ensures
        upstream_headers_of(agent, cfg).contains_key(name),
        upstream_headers_of(agent, cfg)[name] == passed_on(agent)[name],
{
    lemma_auth_names();
    lemma_modes();
    let ps = text_pairs(cfg.upstream.headers@);
    assert(has_header(passed_on(agent), AUTH@));
    if configured(ps, name) {
        let i = choose|i: int| 0 <= i < ps.len() && same_name(#[trigger] ps[i].0, name);
        assert(same_name(ps[i].0, AUTH@));
    }
    lemma_with_headers(with_account(with_token(passed_on(agent), cfg), cfg), ps, name);
}

proof fn lemma_modes()
    ensures
        "inject"@ != "passthrough_then_inject"@,
{
    reveal_strlit("inject");
    reveal_strlit("passthrough_then_inject");
    assert("inject"@.len() == 6);
    assert("passthrough_then_inject"@.len() == 23);
}

/// Configured credentials are sent always, in want of the caller's, or never, as the mode says.
pub proof fn law_modes(mode: Seq<char>, present: bool)
    ensures
        mode == "inject"@ ==> injects(mode, present),
        mode == "passthrough_then_inject"@ ==> injects(mode, present) == !present,
        mode != "inject"@ && mode != "passthrough_then_inject"@ ==> !injects(mode, present),
{
    lemma_modes();
}

/// Whether a name is that of a header which belongs to the client's connection.
pub open spec fn of_connection(name: Seq<char>) -> bool {
    ||| same_name(name, "Host"@)
    ||| same_name(name, "Content-Length"@)
    ||| same_name(name, "Connection"@)
    ||| same_name(name, "Keep-Alive"@)
    ||| same_name(name, "Proxy-Connection"@)
    ||| same_name(name, "Transfer-Encoding"@)
    ||| same_name(name, "Accept-Encoding"@)
    ||| same_name(name, "Responses-API-Base"@)
}

/// A name is kept from the upstream, in whatever case, exactly where it belongs to the client's
/// connection or overrides the upstream.
proof fn lemma_of_connection(name: Seq<char>)
    ensures
        of_connection(name) <==> client_owned(lower(name)) || lower(name) == RESPONSES_API_BASE@,
{
    reveal_strlit("host");
    reveal_strlit("content-length");
    reveal_strlit("connection");
    reveal_strlit("keep-alive");
    reveal_strlit("proxy-connection");
    reveal_strlit("transfer-encoding");
    reveal_strlit("accept-encoding");
    reveal_strlit("responses-api-base");
    reveal_strlit("Host");
    reveal_strlit("Content-Length");
    reveal_strlit("Connection");
    reveal_strlit("Keep-Alive");
    reveal_strlit("Proxy-Connection");
    reveal_strlit("Transfer-Encoding");
    reveal_strlit("Accept-Encoding");
    reveal_strlit("Responses-API-Base");
    assert(lower("Host"@) =~= "host"@);
    assert(lower("Content-Length"@) =~= "content-length"@);
    assert(lower("Connection"@) =~= "connection"@);
    assert(lower("Keep-Alive"@) =~= "keep-alive"@);
    assert(lower("Proxy-Connection"@) =~= "proxy-connection"@);
    assert(lower("Transfer-Encoding"@) =~= "transfer-encoding"@);
    assert(lower("Accept-Encoding"@) =~= "accept-encoding"@);
    assert(lower("Responses-API-Base"@) =~= "responses-api-base"@);
}

proof fn lemma_passed(agent: Seq<(Seq<char>, Seq<char>)>, i: int)
    requires
        0 <= i < agent.len(),
        forall|j: int| i < j < agent.len() ==> (#[trigger] agent[j]).0 != agent[i].0,
        !of_connection(agent[i].0),
    ensures
        passed_on(agent).contains_key(agent[i].0),
        passed_on(agent)[agent[i].0] == agent[i].1,
    decreases agent.len(),
{
    lemma_of_connection(agent[i].0);
    let front = agent.drop_last();
    if i < front.len() {
        assert forall|j: int| i < j < front.len() implies (#[trigger] front[j]).0
            != front[i].0 by {
            assert(front[j] == agent[j]);
        }
        lemma_passed(front, i);
        assert(agent[agent.len() - 1].0 != agent[i].0);
    }
}

proof fn lemma_passed_is_agents(agent: Seq<(Seq<char>, Seq<char>)>, name: Seq<char>)
    ensures
        passed_on(agent).contains_key(name) ==> exists|i: int|
            0 <= i < agent.len() && (#[trigger] agent[i]).0 == name,
    decreases agent.len(),
{
    if agent.len() > 0 {
        let front = agent.drop_last();
        lemma_passed_is_agents(front, name);
        if passed_on(agent).contains_key(name) {
            if passed_on(front).contains_key(name) {
                let i = choose|i: int| 0 <= i < front.len() && (#[trigger] front[i]).0 == name;
                assert(agent[i].0 == name);
            } else {
                assert(agent[agent.len() - 1].0 == name);
            }
        }
    }
}

/// A header of the caller is sent upstream as it is, unless it belongs to the client's connection,
/// carries credentials, or is configured.
pub proof fn law_forwarded(agent: Seq<(Seq<char>, Seq<char>)>, cfg: Config, i: int)
    requires
        0 <= i < agent.len(),
        forall|j: int| i < j < agent.len() ==> (#[trigger] agent[j]).0 != agent[i].0,
        !of_connection(agent[i].0),
        !same_name(agent[i].0, "Authorization"@),
        !same_name(agent[i].0, "ChatGPT-Account-Id"@),
        !configured(text_pairs(cfg.upstream.headers@), agent[i].0),
    ensures
        upstream_headers_of(agent, cfg).contains_key(agent[i].0),
        upstream_headers_of(agent, cfg)[agent[i].0] == agent[i].1,
{
    lemma_auth_names();
    reveal_strlit("ChatGPT-Account-Id");
    reveal_strlit("chatgpt-account-id");
    assert(lower("ChatGPT-Account-Id"@) =~= "chatgpt-account-id"@);
    lemma_passed(agent, i);
    lemma_with_headers(
        with_account(with_token(passed_on(agent), cfg), cfg),
        text_pairs(cfg.upstream.headers@),
        agent[i].0,
    );
}

/// Every header that is sent upstream is one of the caller's that is none of its connection, one
/// that is configured, or carries configured credentials.
pub proof fn law_nothing_else_sent(
    agent: Seq<(Seq<char>, Seq<char>)>,
    cfg: Config,
    name: Seq<char>,
)
    requires
        upstream_headers_of(agent, cfg).contains_key(name),
    ensures
        ({
            ||| configured(text_pairs(cfg.upstream.headers@), name)
            ||| !of_connection(name) && exists|i: int|
                0 <= i < agent.len() && (#[trigger] agent[i]).0 == name
            ||| name == "Authorization"@ && cfg.auth.access_token@.len() > 0 && (cfg.auth.mode@
                == "inject"@ || cfg.auth.mode@ == "passthrough_then_inject"@)
            ||| name == "chatgpt-account-id"@ && cfg.auth.chatgpt_account_id@.len() > 0 && (
            cfg.auth.mode@ == "inject"@ || cfg.auth.mode@ == "passthrough_then_inject"@)
        }),
{
    lemma_of_connection(name);
    lemma_passed_on(agent, name);
    lemma_passed_is_agents(agent, name);
    lemma_with_headers(
        with_account(with_token(passed_on(agent), cfg), cfg),
        text_pairs(cfg.upstream.headers@),
        name,
    );
}

/// Where credentials are injected only in want of the caller's, they are injected where the caller
/// has none: the token without an authorization, the account without an account.
pub proof fn law_in_want(agent: Seq<(Seq<char>, Seq<char>)>, cfg: Config)
    requires
        cfg.auth.mode@ == "passthrough_then_inject"@,
    ensures
        ({
            let sent = upstream_headers_of(agent, cfg);
            let ps = text_pairs(cfg.upstream.headers@);
            &&& cfg.auth.access_token@.len() > 0 && !configured(agent, "Authorization"@)
                && !configured(ps, "Authorization"@) ==> sent.contains_key("Authorization"@)
                && sent["Authorization"@] == "Bearer "@ + cfg.auth.access_token@
            &&& cfg.auth.chatgpt_account_id@.len() > 0 && !configured(
                agent,
                "chatgpt-account-id"@,
            ) && !configured(ps, "chatgpt-account-id"@) ==> sent.contains_key(
                "chatgpt-account-id"@,
            ) && sent["chatgpt-account-id"@] == cfg.auth.chatgpt_account_id@
        }),
{
    lemma_auth_names();
    let own = passed_on(agent);
    let ps = text_pairs(cfg.upstream.headers@);
    if !configured(agent, "Authorization"@) && has_header(own, AUTH@) {
        let k = choose|k: Seq<char>| #[trigger] own.contains_key(k) && same_name(k, AUTH@);
        lemma_passed_is_agents(agent, k);
        let i = choose|i: int| 0 <= i < agent.len() && (#[trigger] agent[i]).0 == k;
        assert(same_name(agent[i].0, "Authorization"@));
    }
    let mid = with_token(own, cfg);
    if !configured(agent, "chatgpt-account-id"@) && has_header(mid, ACCOUNT@) {
        let k = choose|k: Seq<char>| #[trigger] mid.contains_key(k) && same_name(k, ACCOUNT@);
        assert(own.contains_key(k));
        lemma_passed_is_agents(agent, k);
        let i = choose|i: int| 0 <= i < agent.len() && (#[trigger] agent[i]).0 == k;
        assert(same_name(agent[i].0, "chatgpt-account-id"@));
    }
    let all = with_account(mid, cfg);
    lemma_with_headers(all, ps, "Authorization"@);
    lemma_with_headers(all, ps, "chatgpt-account-id"@);
}

/// Credentials that are not configured take nothing away: without a token the caller's
/// authorization is sent as it is, and without an account the caller's account is.
pub proof fn law_without_credentials(agent: Seq<(Seq<char>, Seq<char>)>, cfg: Config, i: int)
    requires
        0 <= i < agent.len(),
        forall|j: int| i < j < agent.len() ==> (#[trigger] agent[j]).0 != agent[i].0,
        same_name(agent[i].0, "Authorization"@) && cfg.auth.access_token@.len() == 0 || same_name(
            agent[i].0,
            "chatgpt-account-id"@,
        ) && cfg.auth.chatgpt_account_id@.len() == 0,
        !configured(text_pairs(cfg.upstream.headers@), agent[i].0),
    ensures
        upstream_headers_of(agent, cfg).contains_key(agent[i].0),
        upstream_headers_of(agent, cfg)[agent[i].0] == agent[i].1,
{
    lemma_auth_names();
    lemma_of_connection(agent[i].0);
    lemma_passed(agent, i);
    lemma_with_headers(
        with_account(with_token(passed_on(agent), cfg), cfg),
        text_pairs(cfg.upstream.headers@),
        agent[i].0,
    );
}

proof fn lemma_configured_replaces(
    hs: Map<Seq<char>, Seq<char>>,
    ps: Seq<(Seq<char>, Seq<char>)>,
    i: int,
    name: Seq<char>,
)
    requires
        0 <= i < ps.len(),
        forall|j: int| i < j < ps.len() ==> !same_name(#[trigger] ps[j].0, ps[i].0),
        same_name(name, ps[i].0),
    ensures
        with_headers(hs, ps).contains_key(name) <==> name == ps[i].0,
    decreases ps.len(),
{
    let front = ps.drop_last();
    if i < front.len() {
        assert forall|j: int| i < j < front.len() implies !same_name(
            #[trigger] front[j].0,
            front[i].0,
        ) by {
            assert(front[j] == ps[j]);
        }
        lemma_configured_replaces(hs, front, i, name);
        assert(!same_name(ps[ps.len() - 1].0, ps[i].0));
    }
}

/// A configured header takes the place of every header of its name, in whatever case the caller or
/// the configuration wrote it.
pub proof fn law_configured_replaces(
    agent: Seq<(Seq<char>, Seq<char>)>,
    cfg: Config,
    i: int,
    name: Seq<char>,
)
    requires
        0 <= i < cfg.upstream.headers@.len(),
        forall|j: int|
            i < j < cfg.upstream.headers@.len() ==> !same_name(
                #[trigger] cfg.upstream.headers@[j].0@,
                cfg.upstream.headers@[i].0@,
            ),
        same_name(name, cfg.upstream.headers@[i].0@),
    ensures
        upstream_headers_of(agent, cfg).contains_key(name) <==> name
            == cfg.upstream.headers@[i].0@,
{
    let ps = text_pairs(cfg.upstream.headers@);
    assert forall|j: int| i < j < ps.len() implies !same_name(#[trigger] ps[j].0, ps[i].0) by {
        assert(ps[j].0 == cfg.upstream.headers@[j].0@);
    }
    lemma_configured_replaces(
        with_account(with_token(passed_on(agent), cfg), cfg),
        ps,
        i,
        name,
    );
}

} // verus!
