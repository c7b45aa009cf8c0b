//! The messages that are logged. They tell settings, counts, rounds and states, and nothing of
//! what was asked or answered.
use vstd::prelude::*;
use vstd::string::*;

use crate::config::Config;
use crate::logging::{configured_level_name, level_of};
use crate::text::{
    after_prefix, decimal, decimal_i64, decimal_u64, has_suffix, law_prefix, law_suffix, texts,
};

verus! {

/// The text that tells requests apart in the log; empty, where a request has no number.
pub open spec fn request_tag(request_id: Option<u64>) -> Seq<char> {
    match request_id {
        Some(id) => "request_id="@ + decimal(id as int) + " "@,
        None => ""@,
    }
}

pub fn tag_of(request_id: Option<u64>) -> (r: String)
    ensures
        r@ == request_tag(request_id),
{
    match request_id {
        Some(id) => {
            let mut out = "request_id=".to_owned();
            out.append(decimal_u64(id).as_str());
            out.append(" ");
            out
        },
        None => "".to_owned(),
    }
}

/// A count, or that there is none.
pub open spec fn count_text(n: Option<i64>) -> Seq<char> {
    match n {
        Some(k) => decimal(k as int),
        None => "none"@,
    }
}

pub fn opt_i64_text(v: Option<i64>) -> (r: String)
    ensures
        r@ == count_text(v),
{
    match v {
        Some(n) => decimal_i64(n),
        None => "none".to_owned(),
    }
}

pub open spec fn yes_no(b: bool) -> Seq<char> {
    if b {
        "true"@
    } else {
        "false"@
    }
}

/// A round has ended.
pub open spec fn round_line(
    rid: Seq<char>,
    round: usize,
    tokens: Option<i64>,
    n: Option<i64>,
    goes_on: bool,
) -> Seq<char> {
    rid + "round="@ + decimal(round as int) + " reasoning_tokens="@ + count_text(tokens) + " n="@
        + count_text(n) + " continue="@ + yes_no(goes_on)
}

pub fn log_round(
    rid: &str,
    round: usize,
    tokens: Option<i64>,
    n: Option<i64>,
    goes_on: bool,
) -> (r: String)
    ensures
        r@ == round_line(rid@, round, tokens, n, goes_on),
{
    let mut out = rid.to_owned();
    out.append("round=");
    out.append(decimal_u64(round as u64).as_str());
    out.append(" reasoning_tokens=");
    out.append(opt_i64_text(tokens).as_str());
    out.append(" n=");
    out.append(opt_i64_text(n).as_str());
    out.append(" continue=");
    if goes_on {
        out.append("true");
    } else {
        out.append("false");
    }
    out
}

/// The next round is about to be opened.
pub open spec fn continue_line(rid: Seq<char>, next: usize) -> Seq<char> {
    rid + "continue next_round="@ + decimal(next as int)
}

pub fn log_continue(rid: &str, next: usize) -> (r: String)
    ensures
        r@ == continue_line(rid@, next),
{
    let mut out = rid.to_owned();
    out.append("continue next_round=");
    out.append(decimal_u64(next as u64).as_str());
    out
}

/// The next round was opened.
pub open spec fn opened_line(rid: Seq<char>, status: u16, next: usize) -> Seq<char> {
    rid + "upstream status="@ + decimal(status as int) + " round="@ + decimal(next as int)
}

pub fn log_opened(rid: &str, status: u16, next: usize) -> (r: String)
    ensures
        r@ == opened_line(rid@, status, next),
{
    let mut out = rid.to_owned();
    out.append("upstream status=");
    out.append(decimal_u64(status as u64).as_str());
    out.append(" round=");
    out.append(decimal_u64(next as u64).as_str());
    out
}

/// The upstream refused the next round.
pub open spec fn refused_line(rid: Seq<char>, status: u16, next: usize) -> Seq<char> {
    rid + "upstream_error status="@ + decimal(status as int) + " round="@ + decimal(next as int)
}

pub fn log_refused(rid: &str, status: u16, next: usize) -> (r: String)
    ensures
        r@ == refused_line(rid@, status, next),
{
    let mut out = rid.to_owned();
    out.append("upstream_error status=");
    out.append(decimal_u64(status as u64).as_str());
    out.append(" round=");
    out.append(decimal_u64(next as u64).as_str());
    out
}

/// The upstream could not be reached for the next round.
pub open spec fn open_failed_line(rid: Seq<char>, next: usize, error: Seq<char>) -> Seq<char> {
    rid + "upstream open failed round="@ + decimal(next as int) + ": "@ + error
}

pub fn log_open_failed(rid: &str, next: usize, error: &str) -> (r: String)
    ensures
        r@ == open_failed_line(rid@, next, error@),
{
    let mut out = rid.to_owned();
    out.append("upstream open failed round=");
    out.append(decimal_u64(next as u64).as_str());
    out.append(": ");
    out.append(error);
    out
}

/// A round's stream broke.
pub open spec fn stream_error_line(rid: Seq<char>, round: usize) -> Seq<char> {
    rid + "upstream_error round="@ + decimal(round as int)
}

pub fn log_stream_error(rid: &str, round: usize) -> (r: String)
    ensures
        r@ == stream_error_line(rid@, round),
{
    let mut out = rid.to_owned();
    out.append("upstream_error round=");
    out.append(decimal_u64(round as u64).as_str());
    out
}

/// A round's stream ended before its response did.
pub open spec fn eof_line(rid: Seq<char>, round: usize) -> Seq<char> {
    rid + "upstream_eof round="@ + decimal(round as int)
}

pub fn log_eof(rid: &str, round: usize) -> (r: String)
    ensures
        r@ == eof_line(rid@, round),
{
    let mut out = rid.to_owned();
    out.append("upstream_eof round=");
    out.append(decimal_u64(round as u64).as_str());
    out
}

/// Continuing was stopped.
pub open spec fn stopped_line(rid: Seq<char>, reason: Seq<char>, round: usize) -> Seq<char> {
    rid + "stopped reason="@ + reason + " round="@ + decimal(round as int)
}

pub fn log_stopped(rid: &str, reason: &str, round: usize) -> (r: String)
    ensures
        r@ == stopped_line(rid@, reason@, round),
{
    let mut out = rid.to_owned();
    out.append("stopped reason=");
    out.append(reason);
    out.append(" round=");
    out.append(decimal_u64(round as u64).as_str());
    out
}

/// The name of the file that a round is dumped to.
pub open spec fn dump_name(round: usize) -> Seq<char> {
    "codex_mw_r"@ + decimal(round as int) + ".sse.txt"@
}

pub fn dump_file_name(round: usize) -> (r: String)
    ensures
        r@ == dump_name(round),
{
    let mut out = "codex_mw_r".to_owned();
    out.append(decimal_u64(round as u64).as_str());
    out.append(".sse.txt");
    out
}

/// A round is dumped to a file.
pub fn log_dump(request_id: Option<u64>, round: usize, path: &str) -> (r: String)
    ensures
        r@ == request_tag(request_id) + "round="@ + decimal(round as int) + " dump="@ + path@,
{
    let mut out = tag_of(request_id);
    out.append("round=");
    out.append(decimal_u64(round as u64).as_str());
    out.append(" dump=");
    out.append(path);
    out
}

/// The address that is listened on.
pub open spec fn address_of(cfg: Config) -> Seq<char> {
    cfg.server.host@ + ":"@ + decimal(cfg.server.port as int)
}

pub fn listen_address(cfg: &Config) -> (r: String)
    ensures
        r@ == address_of(*cfg),
{
    let mut out = cfg.server.host.clone();
    out.append(":");
    out.append(decimal_u64(cfg.server.port as u64).as_str());
    out
}

pub fn log_listening(addr: &str) -> (r: String)
    ensures
        r@ == "listening=http://"@ + addr@,
{
    let mut out = "listening=http://".to_owned();
    out.append(addr);
    out
}

/// The addresses of paths, with commas between them.
pub open spec fn path_list(addr: Seq<char>, paths: Seq<Seq<char>>) -> Seq<char>
    decreases paths.len(),
{
    if paths.len() == 0 {
        Seq::empty()
    } else {
        let front = paths.drop_last();
        let one = "http://"@ + addr + paths.last();
        if front.len() == 0 {
            one
        } else {
            path_list(addr, front) + ","@ + one
        }
    }
}

pub fn log_paths(addr: &str, paths: &Vec<String>) -> (r: String)
    ensures
        r@ == "paths="@ + path_list(addr@, texts(paths@)),
{
    let mut list = String::new();
    let ghost all = texts(paths@);
    for i in 0..paths.len()
        invariant
            all == texts(paths@),
            list@ == path_list(addr@, all.take(i as int)),
    {
        proof {
            assert(all.take(i + 1).drop_last() =~= all.take(i as int));
            assert(all.take(i + 1).last() == paths@[i as int]@);
        }
        let mut one = "http://".to_owned();
        one.append(addr);
        one.append(paths[i].as_str());
        if i == 0 {
            list = one;
        } else {
            list.append(",");
            list.append(one.as_str());
        }
    }
    assert(all.take(all.len() as int) =~= all);
    let mut out = "paths=".to_owned();
    out.append(list.as_str());
    out
}

/// The settings that the log starts with.
pub open spec fn config_line(cfg: Config) -> Seq<char> {
    "config upstream.mode="@ + cfg.upstream.mode@ + " auth.mode="@ + cfg.auth.mode@
        + " continue.enabled="@ + yes_no(cfg.cont.enabled) + " continue.method="@
        + cfg.cont.method@ + " continue.max_continue="@ + decimal(cfg.cont.max_continue as int)
        + " log.level="@ + level_of(cfg).name() + if cfg.log.dump_rounds_dir@.len() == 0 {
        Seq::empty()
    } else {
        " dump_rounds_dir="@ + cfg.log.dump_rounds_dir@
    }
}

pub fn log_config(cfg: &Config) -> (r: String)
    ensures
        r@ == config_line(*cfg),
{
    let mut out = "config upstream.mode=".to_owned();
    out.append(cfg.upstream.mode.as_str());
    out.append(" auth.mode=");
    out.append(cfg.auth.mode.as_str());
    out.append(" continue.enabled=");
    if cfg.cont.enabled {
        out.append("true");
    } else {
        out.append("false");
    }
    out.append(" continue.method=");
    out.append(cfg.cont.method.as_str());
    out.append(" continue.max_continue=");
    out.append(decimal_u64(cfg.cont.max_continue as u64).as_str());
    out.append(" log.level=");
    out.append(configured_level_name(cfg));
    if !cfg.log.dump_rounds_dir.as_str().is_empty() {
        let mut dump = " dump_rounds_dir=".to_owned();
        dump.append(cfg.log.dump_rounds_dir.as_str());
        out.append(dump.as_str());
    } else {
        assert(out@ + Seq::<char>::empty() =~= out@);
    }
    out
}

/// A request has come.
pub fn log_request(rid: &str, path: &str, size: usize) -> (r: String)
    ensures
        r@ == rid@ + "path="@ + path@ + " body_bytes="@ + decimal(size as int),
{
    let mut out = rid.to_owned();
    out.append("path=");
    out.append(path);
    out.append(" body_bytes=");
    out.append(decimal_u64(size as u64).as_str());
    out
}

/// How a request is treated.
pub fn log_mode(rid: &str, folds: bool) -> (r: String)
    ensures
        r@ == rid@ + if folds {
            "mode=fold"@
        } else {
            "mode=passthrough"@
        },
{
    let mut out = rid.to_owned();
    if folds {
        out.append("mode=fold");
    } else {
        out.append("mode=passthrough");
    }
    out
}

/// What the upstream answered.
pub fn log_status(rid: &str, status: u16) -> (r: String)
    ensures
        r@ == rid@ + "upstream status="@ + decimal(status as int),
{
    let mut out = rid.to_owned();
    out.append("upstream status=");
    out.append(decimal_u64(status as u64).as_str());
    out
}

/// Each message of a request begins with what tells the request apart, and its rest does not depend
/// on that.
pub proof fn law_lines_tagged(
    rid: Seq<char>,
    round: usize,
    tokens: Option<i64>,
    n: Option<i64>,
    goes_on: bool,
    status: u16,
    text: Seq<char>,
)
    ensures
        round_line(rid, round, tokens, n, goes_on) == rid + round_line(
            Seq::empty(),
            round,
            tokens,
            n,
            goes_on,
        ),
        continue_line(rid, round) == rid + continue_line(Seq::empty(), round),
        opened_line(rid, status, round) == rid + opened_line(Seq::empty(), status, round),
        refused_line(rid, status, round) == rid + refused_line(Seq::empty(), status, round),
        open_failed_line(rid, round, text) == rid + open_failed_line(Seq::empty(), round, text),
        stream_error_line(rid, round) == rid + stream_error_line(Seq::empty(), round),
        eof_line(rid, round) == rid + eof_line(Seq::empty(), round),
        stopped_line(rid, text, round) == rid + stopped_line(Seq::empty(), text, round),
{
    assert(round_line(rid, round, tokens, n, goes_on) =~= rid + round_line(
        Seq::empty(),
        round,
        tokens,
        n,
        goes_on,
    ));
    assert(continue_line(rid, round) =~= rid + continue_line(Seq::empty(), round));
    assert(opened_line(rid, status, round) =~= rid + opened_line(Seq::empty(), status, round));
    assert(refused_line(rid, status, round) =~= rid + refused_line(Seq::empty(), status, round));
    assert(open_failed_line(rid, round, text) =~= rid + open_failed_line(
        Seq::empty(),
        round,
        text,
    ));
    assert(stream_error_line(rid, round) =~= rid + stream_error_line(Seq::empty(), round));
    assert(eof_line(rid, round) =~= rid + eof_line(Seq::empty(), round));
    assert(stopped_line(rid, text, round) =~= rid + stopped_line(Seq::empty(), text, round));
}

/// The message that a round has ended tells, after their names, the round, its reasoning tokens,
/// its tier, and whether another round follows.
pub proof fn law_round_line(
    round: usize,
    tokens: Option<i64>,
    n: Option<i64>,
    goes_on: bool,
)
    ensures
        ({
            let line = round_line(Seq::empty(), round, tokens, n, goes_on);
            let count = if tokens is Some {
                decimal(tokens->Some_0 as int)
            } else {
                "none"@
            };
            let at = if n is Some {
                decimal(n->Some_0 as int)
            } else {
                "none"@
            };
            let head = "round="@ + decimal(round as int);
            &&& after_prefix(line, head + (" reasoning_tokens="@ + count)) is Some
            &&& goes_on ==> has_suffix(line, " n="@ + at + " continue=true"@)
            &&& !goes_on ==> has_suffix(line, " n="@ + at + " continue=false"@)
        }),
{
    let line = round_line(Seq::empty(), round, tokens, n, goes_on);
    let head = "round="@ + decimal(round as int) + (" reasoning_tokens="@ + count_text(tokens));
    reveal_strlit(" continue=");
    reveal_strlit("true");
    reveal_strlit("false");
    reveal_strlit(" continue=true");
    reveal_strlit(" continue=false");
    assert(" continue="@ + "true"@ =~= " continue=true"@);
    assert(" continue="@ + "false"@ =~= " continue=false"@);
    let tail = " n="@ + count_text(n) + (" continue="@ + yes_no(goes_on));
    assert(line =~= head + tail);
    law_prefix(line, head, tail);
    law_suffix(head, tail);
    assert("round="@ + decimal(round as int) + (" reasoning_tokens="@ + count_text(tokens))
        =~= head);
}

/// The other messages end in the number of their round, or in what went wrong.
pub proof fn law_lines_tell(rid: Seq<char>, round: usize, status: u16, text: Seq<char>)
    ensures
        has_suffix(continue_line(rid, round), "next_round="@ + decimal(round as int)),
        has_suffix(
            opened_line(rid, status, round),
            "status="@ + decimal(status as int) + (" round="@ + decimal(round as int)),
        ),
        has_suffix(
            refused_line(rid, status, round),
            "status="@ + decimal(status as int) + (" round="@ + decimal(round as int)),
        ),
        has_suffix(
            open_failed_line(rid, round, text),
            "round="@ + decimal(round as int) + (": "@ + text),
        ),
        has_suffix(stream_error_line(rid, round), "round="@ + decimal(round as int)),
        has_suffix(eof_line(rid, round), "upstream_eof round="@ + decimal(round as int)),
        has_suffix(
            stopped_line(rid, text, round),
            "stopped reason="@ + text + (" round="@ + decimal(round as int)),
        ),
{
    let d = decimal(round as int);
    let st = decimal(status as int);
    reveal_strlit("continue next_round=");
    reveal_strlit("next_round=");
    reveal_strlit("continue ");
    reveal_strlit("status=");
    reveal_strlit("upstream status=");
    reveal_strlit("upstream ");
    reveal_strlit("upstream_error status=");
    reveal_strlit("upstream_error ");
    reveal_strlit("upstream open failed round=");
    reveal_strlit("upstream open failed ");
    reveal_strlit("round=");
    reveal_strlit("upstream_error round=");
    assert("continue next_round="@ =~= "continue "@ + "next_round="@);
    assert("upstream status="@ =~= "upstream "@ + "status="@);
    assert("upstream_error status="@ =~= "upstream_error "@ + "status="@);
    assert("upstream open failed round="@ =~= "upstream open failed "@ + "round="@);
    assert("upstream_error round="@ =~= "upstream_error "@ + "round="@);
    assert(continue_line(rid, round) =~= (rid + "continue "@) + ("next_round="@ + d));
    law_suffix(rid + "continue "@, "next_round="@ + d);
    let told = "status="@ + st + (" round="@ + d);
    assert(opened_line(rid, status, round) =~= (rid + "upstream "@) + told);
    law_suffix(rid + "upstream "@, told);
    assert(refused_line(rid, status, round) =~= (rid + "upstream_error "@) + told);
    law_suffix(rid + "upstream_error "@, told);
    let why = "round="@ + d + (": "@ + text);
    assert(open_failed_line(rid, round, text) =~= (rid + "upstream open failed "@) + why);
    law_suffix(rid + "upstream open failed "@, why);
    assert(stream_error_line(rid, round) =~= (rid + "upstream_error "@) + ("round="@ + d));
    law_suffix(rid + "upstream_error "@, "round="@ + d);
    assert(eof_line(rid, round) =~= rid + ("upstream_eof round="@ + d));
    law_suffix(rid, "upstream_eof round="@ + d);
    let stop = "stopped reason="@ + text + (" round="@ + d);
    assert(stopped_line(rid, text, round) =~= rid + stop);
    law_suffix(rid, stop);
}

/// The paths are listed with their addresses, in their order and with commas between them.
pub proof fn law_path_list(addr: Seq<char>, paths: Seq<Seq<char>>, path: Seq<char>)
    ensures
        path_list(addr, Seq::empty()).len() == 0,
        path_list(addr, seq![path]) == "http://"@ + addr + path,
        paths.len() > 0 ==> path_list(addr, paths.push(path)) == path_list(addr, paths) + ","@
            + path_list(addr, seq![path]),
{
    reveal_with_fuel(path_list, 2);
    assert(seq![path].drop_last() =~= Seq::empty());
    assert(paths.push(path).drop_last() =~= paths);
}

/// The tag of a request tells its number; without a number there is none.
pub proof fn law_request_tag(id: u64)
    ensures
        request_tag(None).len() == 0,
        request_tag(Some(id)) == "request_id="@ + decimal(id as int) + " "@,
{
    reveal_strlit("");
    assert(""@.len() == 0);
}

} // verus!
