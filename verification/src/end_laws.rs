//! What holds of the end of a round, told by the configuration and by what the upstream reported.
use vstd::prelude::*;

use crate::answer::commentary_events_of;
use crate::codex::{
    call_id, commentary, continue_call, continue_output, in_window, law_payload_keeps_rest,
    law_truncation_counts, law_window, output_text, round_payload, truncation_pattern,
};
use crate::config::Config;
use crate::events::{nth_after, numbered, with_number};
use crate::json::{opt_get, JsonView};
use crate::lines::{continue_line, eof_line, opened_line, round_line, stopped_line};
use crate::logging::Level;
use crate::model::{
    broken_event, counted, final_events, finish_round, fold_start, fold_step, items_of, marker,
    next_replay, request_input, round_info, round_usage, sent, stop_reason, take_item, take_items,
    FoldView, InputView, Phase, RoundView,
};
use crate::response::{
    ended_response, folded_response, law_broken_off, law_broken_off_keeps_rest, law_folded_response,
    law_folded_terminal, law_metadata, proxy_metadata,
};
use crate::round_laws::fresh;
use crate::sse::{flushed, sse_run};
use crate::text::decimal;
use crate::usage::{
    cached_count, given, input_count, law_told_usage, law_usage_sums, output_count, reasoning_count,
    summable, summed, told_answer, told_usage, total_count,
};

verus! {

/// Whether a round ended with a report of its usage.
pub open spec fn reported(st: FoldView, ending: JsonView, usage: JsonView) -> bool {
    &&& st.round.terminal == Some(ending)
    &&& ending.get("response"@) is Some
    &&& ending.get("response"@)->Some_0.get("usage"@) == Some(usage)
}

/// Whether a report of usage counts reasoning.
pub open spec fn reasoned(usage: JsonView, t: i64) -> bool {
    &&& usage.get("output_tokens_details"@) is Some
    &&& usage.get("output_tokens_details"@)->Some_0.get("reasoning_tokens"@) == Some(
        JsonView::Int(t as int),
    )
}

/// Whether the last reasoning of a round came with its encrypted content.
pub open spec fn sealed(st: FoldView) -> bool {
    &&& st.round.reasoning.len() > 0
    &&& st.round.reasoning.last().get("encrypted_content"@) is Some
    &&& st.round.reasoning.last().get("encrypted_content"@)->Some_0.truthy()
}

/// Whether the output of all rounds, the one that ended among them, is below the cap.
pub open spec fn below_cap(cfg: Config, st: FoldView, usage: JsonView) -> bool {
    cfg.cont.max_total_output_tokens == 0 || given(output_count(st.total)) + given(
        output_count(usage),
    ) < cfg.cont.max_total_output_tokens
}

/// Whether all counts of a report can be added to those of the rounds before.
pub open spec fn addable(st: FoldView, usage: JsonView) -> bool {
    &&& summable(input_count(st.total), input_count(usage))
    &&& summable(output_count(st.total), output_count(usage))
    &&& summable(total_count(st.total), total_count(usage))
    &&& summable(cached_count(st.total), cached_count(usage))
    &&& summable(reasoning_count(st.total), reasoning_count(usage))
}

/// A round whose reasoning came to two tokens below the `n`-th multiple of the step is followed by
/// another one exactly where continuing is enabled, `n` is in the window, the reasoning came with
/// its encrypted content, and neither the number of rounds nor the output is at its cap.
pub proof fn law_goes_on(
    cfg: Config,
    st: FoldView,
    ending: JsonView,
    usage: JsonView,
    t: i64,
    n: int,
)
    requires
        reported(st, ending, usage),
        reasoned(usage, t),
        addable(st, usage),
        cfg.cont.truncation_step > 0,
        t + 2 <= i64::MAX,
        n >= 1,
        t == cfg.cont.truncation_step * n - 2,
    ensures
        ({
            let step = finish_round(cfg, st).1;
            step.open is Some <==> {
                &&& cfg.cont.enabled
                &&& cfg.cont.min_n <= n
                &&& cfg.cont.max_n == 0 || n <= cfg.cont.max_n
                &&& sealed(st)
                &&& st.round_no <= cfg.cont.max_continue
                &&& below_cap(cfg, st, usage)
            }
        }),
{
    law_truncation_counts(t, cfg.cont.truncation_step, n);
    law_window(t, cfg.cont.truncation_step, n, cfg.cont.min_n, cfg.cont.max_n);
    law_usage_sums(st.total, usage);
    assert(truncation_pattern(Some(t), cfg.cont.truncation_step)) by {
        assert(t == (cfg.cont.truncation_step * n) - 2);
    }
}

/// A round is not followed by another one where its reasoning came to any other count, to none, or
/// where its response did not end.
pub proof fn law_goes_not_on(cfg: Config, st: FoldView, ending: JsonView, usage: JsonView, t: i64)
    requires
        cfg.cont.truncation_step > 0,
    ensures
        reported(st, ending, usage) && reasoned(usage, t) && (forall|k: int|
            k >= 1 ==> t != #[trigger] (cfg.cont.truncation_step * k) - 2) ==> finish_round(
            cfg,
            st,
        ).1.open is None,
        reported(st, ending, usage) && reasoning_count(usage) is None ==> finish_round(
            cfg,
            st,
        ).1.open is None,
        st.round.terminal is None ==> finish_round(cfg, st).1.open is None,
{
    law_truncation_counts(t, cfg.cont.truncation_step, 1);
}

/// Where a round that was cut off is not continued, the response that the client gets tells why:
/// it lacks the encrypted content, the rounds are at their cap, the output is, or the tier is not
/// in the window.
pub proof fn law_stop_reason(
    cfg: Config,
    st: FoldView,
    ending: JsonView,
    usage: JsonView,
    t: i64,
    n: int,
)
    requires
        reported(st, ending, usage),
        reasoned(usage, t),
        addable(st, usage),
        cfg.cont.truncation_step > 0,
        t + 2 <= i64::MAX,
        n >= 1,
        t == cfg.cont.truncation_step * n - 2,
        finish_round(cfg, st).1.open is None,
    ensures
        ({
            let step = finish_round(cfg, st).1;
            let told = step.events.last().get("response"@);
            let why = if !sealed(st) {
                "no_encrypted_content"@
            } else if st.round_no > cfg.cont.max_continue {
                "max_continue"@
            } else if !below_cap(cfg, st, usage) {
                "max_total_output_tokens"@
            } else {
                "tier_out_of_window"@
            };
            &&& opt_get(opt_get(told, "metadata"@), "proxy_stopped_reason"@) == Some(
                JsonView::Text(why),
            )
            &&& step.logs.last() == (Level::Info, stopped_line(st.rid, why, st.round_no))
        }),
{
    law_goes_on(cfg, st, ending, usage, t, n);
    law_usage_sums(st.total, usage);
    law_truncation_counts(t, cfg.cont.truncation_step, n);
    assert(truncation_pattern(Some(t), cfg.cont.truncation_step)) by {
        assert(t == (cfg.cont.truncation_step * n) - 2);
    }
    lemma_told(cfg, st, ending);
}

/// The names of an event's fields are different names.
proof fn lemma_fields()
    ensures
        "type"@.len() == 4,
        "response"@.len() == 8,
        "sequence_number"@.len() == 15,
        "metadata"@.len() == 8,
        "output"@.len() == 6,
        "usage"@.len() == 5,
        "status"@.len() == 6,
        "round"@.len() == 5,
        "n"@.len() == 1,
        "reasoning_tokens"@.len() == 16,
        "proxy_stopped_reason"@.len() == 20,
        "proxy_rounds"@.len() == 12,
        "proxy_billed_usage"@.len() == 18,
{
    reveal_strlit("type");
    reveal_strlit("response");
    reveal_strlit("sequence_number");
    reveal_strlit("metadata");
    reveal_strlit("output");
    reveal_strlit("usage");
    reveal_strlit("status");
    reveal_strlit("round");
    reveal_strlit("n");
    reveal_strlit("reasoning_tokens");
    reveal_strlit("proxy_stopped_reason");
    reveal_strlit("proxy_rounds");
    reveal_strlit("proxy_billed_usage");
}

/// The event with which a fold ends is the one for the whole response.
proof fn lemma_told(cfg: Config, st: FoldView, ending: JsonView)
    requires
        st.round.terminal == Some(ending),
        finish_round(cfg, st).1.open is None,
    ensures
        ({
            let step = finish_round(cfg, st).1;
            let all = final_events(cfg, st);
            let key = "response"@;
            &&& step.events.len() > 0
            &&& step.events.last() == with_number(
                all.last(),
                nth_after(st.seq, (all.len() - 1) as nat),
            )
            &&& step.events.last().get("response"@) == all.last().get("response"@)
            &&& step.events.last().get("type"@) == all.last().get("type"@)
            &&& all.last().get("response"@) == Some(
                folded_response(
                    Some(ending),
                    st.base,
                    st.output + items_of(st.round.buffer),
                    told_usage(
                        counted(cfg, st).first,
                        Some(counted(cfg, st).total),
                        round_usage(st),
                        true,
                    ),
                    counted(cfg, st).rounds,
                    stop_reason(cfg, st),
                    Some(counted(cfg, st).total),
                ),
            )
            &&& step.events.last().get("response"@)->Some_0.get("metadata"@) == Some(
                proxy_metadata(
                    if st.base is Some {
                        st.base->Some_0.get("metadata"@)
                    } else {
                        opt_get(ending.get("response"@), "metadata"@)
                    },
                    counted(cfg, st).rounds,
                    stop_reason(cfg, st),
                    Some(counted(cfg, st).total),
                ),
            )
        }),
{
    lemma_fields();
    let all = final_events(cfg, st);
    assert(all.len() > 0);
    assert(numbered(all, st.seq).last() == with_number(
        all.last(),
        nth_after(st.seq, (all.len() - 1) as nat),
    ));
    let now = counted(cfg, st);
    let usage = told_usage(
        now.first,
        Some(now.total),
        round_usage(st),
        true,
    );
    let output = st.output + items_of(st.round.buffer);
    let resp = ended_response(Some(ending));
    let base = if st.base is Some {
        st.base->Some_0
    } else {
        resp
    };
    law_folded_response(
        Some(ending),
        base,
        output,
        usage,
        now.rounds,
        stop_reason(cfg, st),
        Some(now.total),
        "metadata"@,
    );
    law_metadata(
        base.get("metadata"@),
        now.rounds,
        stop_reason(cfg, st),
        Some(now.total),
        "proxy_rounds"@,
    );
}

/// The event with which a fold ends is of the type of the event that ended the round. Its
/// response holds all output, what was held back behind what had been sent, and tells of each
/// round, the last one among them, and of the usage of all of them.
pub proof fn law_end_told(
    cfg: Config,
    st: FoldView,
    ending: JsonView,
    usage: JsonView,
    kind: Seq<char>,
    k: int,
)
    requires
        reported(st, ending, usage),
        ending.get("type"@) == Some(JsonView::Text(kind)),
        finish_round(cfg, st).1.open is None,
        st.total is Object,
    ensures
        ({
            let (end, step) = finish_round(cfg, st);
            let ev = step.events.last();
            let told = ev.get("response"@);
            let metadata = opt_get(told, "metadata"@);
            &&& end.phase == Phase::Finished
            &&& ev.get("type"@) == Some(JsonView::Text(kind))
            &&& opt_get(told, "output"@) matches Some(JsonView::Array(out))
            &&& out == end.output
            &&& out.len() == st.output.len() + st.round.buffer.len()
            &&& 0 <= k < st.output.len() ==> out[k] == st.output[k]
            &&& 0 <= k < st.round.buffer.len() ==> out[st.output.len() + k]
                == st.round.buffer[k].item
            &&& opt_get(told, "status"@) == Some(
                if ending.get("response"@)->Some_0.get("status"@) is Some {
                    ending.get("response"@)->Some_0.get("status"@)->Some_0
                } else {
                    JsonView::Text("completed"@)
                },
            )
            &&& opt_get(metadata, "proxy_rounds"@) matches Some(JsonView::Array(rounds))
            &&& rounds.drop_last() == st.rounds
            &&& rounds.last().get("round"@) == Some(JsonView::Int(st.round_no as int))
            &&& rounds.last().get("reasoning_tokens"@) == Some(
                match reasoning_count(usage) {
                    Some(t) => JsonView::Int(t as int),
                    None => JsonView::Null,
                },
            )
            &&& step.remember is None
            &&& step.done == st.saw_done
            &&& end.total == summed(st.total, Some(usage))
            &&& end.total is Object && end.total.truthy() ==> opt_get(
                metadata,
                "proxy_billed_usage"@,
            ) == Some(end.total)
        }),
{
    lemma_fields();
    lemma_told(cfg, st, ending);
    let now = counted(cfg, st);
    let resp = ended_response(Some(ending));
    let base = if st.base is Some {
        st.base->Some_0
    } else {
        resp
    };
    let told_use = told_usage(
        now.first,
        Some(now.total),
        round_usage(st),
        true,
    );
    let output = st.output + items_of(st.round.buffer);
    law_folded_response(
        Some(ending),
        base,
        output,
        told_use,
        now.rounds,
        stop_reason(cfg, st),
        Some(now.total),
        "output"@,
    );
    law_metadata(
        base.get("metadata"@),
        now.rounds,
        stop_reason(cfg, st),
        Some(now.total),
        "proxy_rounds"@,
    );
    law_folded_terminal(
        ending,
        st.base,
        output,
        told_use,
        now.rounds,
        stop_reason(cfg, st),
        Some(now.total),
        kind,
    );
    assert(now.rounds.drop_last() =~= st.rounds);
    if 0 <= k < st.round.buffer.len() {
        assert(items_of(st.round.buffer)[k] == st.round.buffer[k].item);
    }
}

/// The usage that the client is told in the end: the input of the first round, the reasoning of
/// all rounds, and what the last round put out beyond its reasoning.
pub proof fn law_end_usage(
    cfg: Config,
    st: FoldView,
    ending: JsonView,
    usage: JsonView,
    first: JsonView,
)
    requires
        reported(st, ending, usage),
        finish_round(cfg, st).1.open is None,
        addable(st, usage),
        st.round_no == 1 ==> first == usage,
        st.round_no != 1 ==> st.first == Some(first),
        0 <= given(reasoning_count(usage)) <= given(output_count(usage)),
        0 <= given(reasoning_count(st.total)),
        0 <= given(input_count(first)),
        given(input_count(first)) + given(reasoning_count(st.total)) + given(output_count(usage))
            <= i64::MAX,
    ensures
        ({
            let told = opt_get(
                finish_round(cfg, st).1.events.last().get("response"@),
                "usage"@,
            );
            let reasoning = given(reasoning_count(st.total)) + given(reasoning_count(usage));
            let answer = given(output_count(usage)) - given(reasoning_count(usage));
            &&& told is Some
            &&& given(input_count(told->Some_0)) == given(input_count(first))
            &&& cached_count(told->Some_0) == cached_count(first)
            &&& given(reasoning_count(told->Some_0)) == reasoning
            &&& given(output_count(told->Some_0)) == reasoning + answer
            &&& given(total_count(told->Some_0)) == given(input_count(first)) + reasoning + answer
        }),
{
    lemma_fields();
    lemma_told(cfg, st, ending);
    law_usage_sums(st.total, usage);
    let now = counted(cfg, st);
    assert(told_answer(Some(usage), true) == given(output_count(usage)) - given(
        reasoning_count(usage),
    ));
    law_told_usage(first, now.total, usage, true);
    law_folded_response(
        Some(ending),
        if st.base is Some {
            st.base->Some_0
        } else {
            ended_response(Some(ending))
        },
        st.output + items_of(st.round.buffer),
        told_usage(now.first, Some(now.total), round_usage(st), true),
        now.rounds,
        stop_reason(cfg, st),
        Some(now.total),
        "usage"@,
    );
}

/// What a round leaves behind for the next one: its usage is counted, and that of the first round
/// is kept.
pub proof fn law_round_counted(cfg: Config, st: FoldView, ending: JsonView, usage: JsonView)
    requires
        reported(st, ending, usage),
    ensures
        ({
            let end = finish_round(cfg, st).0;
            &&& end.total == summed(st.total, Some(usage))
            &&& st.round_no == 1 ==> end.first == Some(usage)
            &&& st.round_no != 1 ==> end.first == st.first
            &&& end.rounds.len() == st.rounds.len() + 1
            &&& end.rounds.drop_last() == st.rounds
            &&& end.round_no == st.round_no
            &&& end.base == st.base
            &&& end.saw_done == st.saw_done
            &&& end.body == st.body
            &&& end.rid == st.rid
        }),
{
    assert(st.rounds.push(round_info(cfg, st)).drop_last() =~= st.rounds);
}

/// A round that was cut off is told with its tier; any other is told without one.
pub proof fn law_round_info(
    cfg: Config,
    st: FoldView,
    ending: JsonView,
    usage: JsonView,
    t: i64,
    n: int,
)
    requires
        reported(st, ending, usage),
        reasoned(usage, t),
        cfg.cont.truncation_step > 0,
        t + 2 <= i64::MAX,
    ensures
        ({
            let info = finish_round(cfg, st).0.rounds.last();
            &&& info.get("round"@) == Some(JsonView::Int(st.round_no as int))
            &&& info.get("reasoning_tokens"@) == Some(JsonView::Int(t as int))
            &&& n >= 1 && t == cfg.cont.truncation_step * n - 2 ==> info.get("n"@) == Some(
                JsonView::Int(n),
            )
            &&& (forall|k: int| k >= 1 ==> t != #[trigger] (cfg.cont.truncation_step * k) - 2)
                ==> info.get("n"@) == Some(JsonView::Null)
        }),
{
    lemma_fields();
    law_truncation_counts(t, cfg.cont.truncation_step, n);
    if n >= 1 && t == cfg.cont.truncation_step * n - 2 {
        assert(t == (cfg.cont.truncation_step * n) - 2);
    }
}

/// What asks the upstream to go on is the configured comment, or the call of the continuation
/// tool for the last reasoning and its output.
pub proof fn law_marker(cfg: Config, st: FoldView, id: Seq<char>)
    ensures
        cfg.cont.method@ == "commentary"@ ==> marker(cfg, st) == seq![
            commentary(cfg.cont.marker_text@),
        ],
        cfg.cont.method@ != "commentary"@ && st.round.reasoning.len() > 0
            && st.round.reasoning.last().get("id"@) == Some(JsonView::Text(id)) ==> marker(cfg, st)
            == seq![
            continue_call(call_id(id), cfg.cont.continue_tool_name@),
            continue_output(call_id(id), cfg.cont.continue_output_text@),
        ],
        cfg.cont.method@ != "commentary"@ && st.round.reasoning.len() > 0
            && st.round.reasoning.last().get("id"@) is None ==> marker(cfg, st) == seq![
            continue_call(call_id(""@), cfg.cont.continue_tool_name@),
            continue_output(call_id(""@), cfg.cont.continue_output_text@),
        ],
{
}

/// The identifier of the reasoning that was continued is remembered where later requests are
/// mended, and where there is one.
pub proof fn law_remembered(cfg: Config, st: FoldView, id: Seq<char>)
    requires
        finish_round(cfg, st).1.open is Some,
        st.round.reasoning.len() > 0,
    ensures
        ({
            let kept = finish_round(cfg, st).1.remember;
            let told = st.round.reasoning.last().get("id"@);
            &&& kept == Some(id) ==> told == Some(JsonView::Text(id)) && id.len() > 0
            &&& told == Some(JsonView::Text(id)) && id.len() > 0 && cfg.cont.repair_followup@
                == "stateful"@ && cfg.cont.method@ != "commentary"@ ==> kept == Some(id)
            &&& cfg.cont.repair_followup@ != "stateful"@ || cfg.cont.method@ == "commentary"@
                ==> kept is None
        }),
{
    reveal_strlit("");
    assert(""@.len() == 0);
}

/// When a round is continued by a comment that the client is to see, the client gets it as an
/// output item of its own; else the client gets nothing.
pub proof fn law_comment_told(cfg: Config, st: FoldView)
    requires
        finish_round(cfg, st).1.open is Some,
    ensures
        ({
            let (end, step) = finish_round(cfg, st);
            let item = end.output.last();
            &&& !step.done
            &&& cfg.cont.method@ != "commentary"@ || !cfg.cont.forward_marker ==> {
                &&& step.events.len() == 0
                &&& end.output == st.output
                &&& end.ds_oi == st.ds_oi
                &&& end.seq == st.seq
            }
            &&& cfg.cont.method@ == "commentary"@ && cfg.cont.forward_marker ==> {
                &&& step.events == numbered(commentary_events_of(item, st.ds_oi), st.seq)
                &&& end.output.len() == st.output.len() + 1
                &&& end.output.drop_last() == st.output
                &&& item.get("id"@) == Some(
                    JsonView::Text("msg_continue_"@ + decimal(st.round_no as int)),
                )
                &&& item.get("type"@) == Some(JsonView::Text("message"@))
                &&& item.get("status"@) == Some(JsonView::Text("completed"@))
                &&& item.get("role"@) == Some(JsonView::Text("assistant"@))
                &&& item.get("phase"@) == Some(JsonView::Text("commentary"@))
                &&& item.get("content"@) == Some(
                    JsonView::Array(seq![output_text(cfg.cont.marker_text@)]),
                )
                &&& end.ds_oi == nth_after(st.ds_oi, 1)
                &&& end.seq == nth_after(st.seq, 6)
            }
        }),
{
    lemma_fields();
    reveal_strlit("id");
    reveal_strlit("role");
    reveal_strlit("content");
    reveal_strlit("phase");
    reveal_strlit("type");
    assert("id"@.len() == 2);
    assert("role"@.len() == 4);
    assert("role"@[0] == 'r');
    assert("type"@[0] == 't');
    assert("content"@.len() == 7);
    assert("phase"@.len() == 5);
    let (end, step) = finish_round(cfg, st);
    if cfg.cont.method@ == "commentary"@ && cfg.cont.forward_marker {
        assert(end.output.drop_last() =~= st.output);
    }
}

/// The request for another round is the client's, but for the fields that the round sets.
pub proof fn law_next_payload(cfg: Config, st: FoldView, key: Seq<char>)
    requires
        finish_round(cfg, st).1.open is Some,
    ensures
        ({
            let payload = finish_round(cfg, st).1.open->Some_0;
            &&& key != "stream"@ && key != "input"@ && key != "include"@ && key
                != "previous_response_id"@ ==> payload.get(key) == st.body.get(key)
            &&& payload.get("previous_response_id"@) is None
            &&& payload.get("stream"@) == Some(JsonView::Bool(true))
            &&& payload.get("include"@) == round_payload(
                st.body,
                Seq::empty(),
                cfg.stream.force_include_encrypted,
                false,
            ).get("include"@)
        }),
{
    reveal_strlit("stream");
    reveal_strlit("input");
    reveal_strlit("include");
    reveal_strlit("previous_response_id");
    assert("stream"@.len() == 6);
    assert("input"@.len() == 5);
    assert("include"@.len() == 7);
    assert("previous_response_id"@.len() == 20);
    law_payload_keeps_rest(
        st.body,
        request_input(st.body) + next_replay(cfg, st),
        cfg.stream.force_include_encrypted,
        true,
        key,
    );
}

/// A round that the upstream opens begins afresh, and what the fold had so far stays; one that the
/// upstream refuses ends the fold.
pub proof fn law_opened(cfg: Config, st: FoldView, status: u16)
    requires
        st.phase == Phase::Opening,
        st.round_no < usize::MAX,
    ensures
        ({
            let (end, step) = fold_step(cfg, st, InputView::Opened(status));
            &&& step.open is None
            &&& step.remember is None
            &&& !step.done
            &&& status < 400 ==> {
                &&& end.phase == Phase::Reading
                &&& fresh(end)
                &&& end.round_no == st.round_no + 1
                &&& step.events.len() == 0
                &&& step.logs == seq![
                    (Level::Info, opened_line(st.rid, status, end.round_no)),
                ]
                &&& end == (FoldView {
                    phase: end.phase,
                    round_no: end.round_no,
                    round: end.round,
                    ..st
                })
            }
            &&& status >= 400 ==> end.phase == Phase::Finished && step.events.len() == 1
        }),
{
}

/// A fold begins with its first round, in which nothing has come yet.
pub proof fn law_start(body: JsonView, request_id: Option<u64>)
    ensures
        ({
            let st = fold_start(body, request_id);
            &&& fresh(st)
            &&& st.phase == Phase::Reading
            &&& st.body == body
            &&& st.round_no == 1
            &&& st.seq == 0
            &&& st.ds_oi == 0
            &&& st.output.len() == 0
            &&& st.replay.len() == 0
            &&& st.rounds.len() == 0
            &&& !st.saw_done
            &&& st.base is None
            &&& st.first is None
            &&& given(output_count(st.total)) == 0
            &&& given(reasoning_count(st.total)) == 0
        }),
{
}

/// What a fold does not wait for does nothing: a stream while a round is opened, and an answer to a
/// request while a stream is read.
pub proof fn law_not_awaited(cfg: Config, st: FoldView, input: InputView)
    requires
        st.phase == Phase::Reading ==> input is Opened || input is OpenFailed,
        st.phase == Phase::Opening ==> input is Chunk || input is EndOfBody || input is BodyFailed,
    ensures
        fold_step(cfg, st, input).0 == st,
        fold_step(cfg, st, input).1.events.len() == 0,
        fold_step(cfg, st, input).1.logs.len() == 0,
        fold_step(cfg, st, input).1.open is None,
        fold_step(cfg, st, input).1.remember is None,
        !fold_step(cfg, st, input).1.done,
{
}

/// Where the upstream fails, the client gets one event for a response that is incomplete: it holds
/// the output that had been sent, and tells whether the upstream failed or went away.
pub proof fn law_broken(cfg: Config, st: FoldView, input: InputView)
    requires
        (st.phase == Phase::Reading && input is BodyFailed) || (st.phase == Phase::Opening
            && input is OpenFailed) || (st.phase == Phase::Opening && input is Opened
            && input->Opened_0 >= 400),
    ensures
        ({
            let (end, step) = fold_step(cfg, st, input);
            let ev = step.events[0];
            let told = ev.get("response"@);
            &&& step.events.len() == 1
            &&& end.phase == Phase::Finished
            &&& ev.get("type"@) == Some(JsonView::Text("response.incomplete"@))
            &&& opt_get(told, "output"@) == Some(JsonView::Array(st.output))
            &&& opt_get(opt_get(told, "incomplete_details"@), "reason"@) == Some(
                JsonView::Text("upstream_error"@),
            )
            &&& opt_get(told, "usage"@) == Some(told_usage(st.first, Some(st.total), None, false))
            &&& opt_get(opt_get(told, "metadata"@), "proxy_rounds"@) == Some(
                JsonView::Array(st.rounds),
            )
            &&& end.output == st.output
            &&& step.open is None
            &&& step.remember is None
            &&& step.logs.len() == 1
            &&& step.logs[0].0 == Level::Error
            &&& !step.done
        }),
{
    lemma_fields();
    lemma_broken(st, None, "upstream_error"@);
    lemma_broken(st, round_usage(st), "upstream_error"@);
}

proof fn lemma_broken(st: FoldView, usage: Option<JsonView>, reason: Seq<char>)
    ensures
        ({
            let ev = sent(st, broken_event(st, usage, reason)).1[0];
            let told = ev.get("response"@);
            &&& ev.get("type"@) == Some(JsonView::Text("response.incomplete"@))
            &&& opt_get(told, "output"@) == Some(JsonView::Array(st.output))
            &&& opt_get(opt_get(told, "incomplete_details"@), "reason"@) == Some(
                JsonView::Text(reason),
            )
            &&& opt_get(told, "usage"@) == Some(
                told_usage(st.first, Some(st.total), usage, false),
            )
            &&& opt_get(opt_get(told, "metadata"@), "proxy_stopped_reason"@) == Some(
                JsonView::Text(reason),
            )
            &&& opt_get(opt_get(told, "metadata"@), "proxy_rounds"@) == Some(
                JsonView::Array(st.rounds),
            )
        }),
{
    lemma_fields();
    law_broken_off_keeps_rest(
        if st.base is Some {
            st.base->Some_0
        } else {
            JsonView::Object(Map::empty())
        },
        st.output,
        told_usage(st.first, Some(st.total), usage, false),
        reason,
        st.rounds,
        Some(st.total),
        "metadata"@,
    );
    law_metadata(
        if st.base is Some {
            st.base->Some_0.get("metadata"@)
        } else {
            None
        },
        st.rounds,
        Some(reason),
        Some(st.total),
        "metadata"@,
    );
    law_broken_off(
        st.base,
        st.output,
        told_usage(st.first, Some(st.total), usage, false),
        reason,
        st.rounds,
        Some(st.total),
    );
}

/// Where a round's stream ends before its response does, the client gets one event for a response
/// that is incomplete because the upstream went away; what was held back is not in it.
pub proof fn law_upstream_gone(cfg: Config, st: FoldView)
    requires
        st.round.terminal is None,
    ensures
        ({
            let (end, step) = finish_round(cfg, st);
            let ev = step.events[0];
            let told = ev.get("response"@);
            &&& step.events.len() == 1
            &&& end.phase == Phase::Finished
            &&& ev.get("type"@) == Some(JsonView::Text("response.incomplete"@))
            &&& opt_get(told, "output"@) == Some(JsonView::Array(st.output))
            &&& opt_get(opt_get(told, "incomplete_details"@), "reason"@) == Some(
                JsonView::Text("upstream_eof"@),
            )
            &&& end.output == st.output
            &&& end.total == st.total
            &&& step.open is None
            &&& step.logs.len() == 2
            &&& step.logs[1] == (Level::Warn, eof_line(st.rid, st.round_no))
            &&& !step.done
        }),
{
    lemma_broken(counted(cfg, st), None, "upstream_eof"@);
}

/// A round that ended is logged with its number, its count and its tier, and with whether another
/// one follows; what follows is logged after it.
pub proof fn law_round_logged(
    cfg: Config,
    st: FoldView,
    ending: JsonView,
    usage: JsonView,
    t: i64,
    n: i64,
)
    requires
        reported(st, ending, usage),
        reasoned(usage, t),
        cfg.cont.truncation_step > 0,
        t + 2 <= i64::MAX,
        n >= 1,
        t == cfg.cont.truncation_step * n - 2,
        st.round_no < usize::MAX,
    ensures
        ({
            let step = finish_round(cfg, st).1;
            let on = step.open is Some;
            &&& step.logs.len() == 2
            &&& step.logs[0] == (Level::Info, round_line(st.rid, st.round_no, Some(t), Some(n), on))
            &&& step.logs[1].0 == Level::Info
            &&& on ==> step.logs[1].1 == continue_line(st.rid, (st.round_no + 1) as usize)
            &&& !on ==> exists|why: Seq<char>|
                step.logs[1].1 == #[trigger] stopped_line(st.rid, why, st.round_no)
        }),
{
    law_truncation_counts(t, cfg.cont.truncation_step, n as int);
    assert(t == (cfg.cont.truncation_step * n) - 2);
}

/// With the settings that hold where nothing is configured, every round whose reasoning came to two
/// below a multiple of the step is in the window; what asks to go on is a comment, which the
/// client does not see; and nothing is remembered.
pub proof fn law_default_continuing(cfg: Config, st: FoldView, t: i64, n: int)
    requires
        cfg.cont.is_default(),
        n >= 1,
        t == 518 * n - 2,
    ensures
        cfg.cont.enabled,
        in_window(Some(t), cfg.cont.min_n, cfg.cont.max_n, cfg.cont.truncation_step),
        marker(cfg, st) == seq![commentary("Continue thinking..."@)],
        finish_round(cfg, st).1.open is Some ==> finish_round(cfg, st).1.events.len() == 0,
        finish_round(cfg, st).1.open is Some ==> st.round_no <= 8,
        finish_round(cfg, st).1.open is Some ==> finish_round(cfg, st).1.remember is None,
{
    law_window(t, cfg.cont.truncation_step, n, cfg.cont.min_n, cfg.cont.max_n);
}

/// A round whose reasoning was not cut off ends the fold without a reason: the response tells of
/// none but what the upstream told.
pub proof fn law_no_stop_reason(
    cfg: Config,
    st: FoldView,
    ending: JsonView,
    usage: JsonView,
    t: i64,
    base: JsonView,
)
    requires
        reported(st, ending, usage),
        st.base == Some(base),
        cfg.cont.truncation_step > 0,
        reasoning_count(usage) is None || (reasoned(usage, t) && forall|k: int|
            k >= 1 ==> t != #[trigger] (cfg.cont.truncation_step * k) - 2),
    ensures
        ({
            let step = finish_round(cfg, st).1;
            let told = step.events.last().get("response"@);
            &&& opt_get(opt_get(told, "metadata"@), "proxy_stopped_reason"@) == opt_get(
                base.get("metadata"@),
                "proxy_stopped_reason"@,
            )
            &&& step.logs == seq![
                (
                    Level::Info,
                    round_line(st.rid, st.round_no, reasoning_count(usage), None, false),
                ),
            ]
        }),
{
    law_truncation_counts(t, cfg.cont.truncation_step, 1);
    lemma_told(cfg, st, ending);
    let now = counted(cfg, st);
    law_metadata(
        base.get("metadata"@),
        now.rounds,
        None,
        Some(now.total),
        "proxy_stopped_reason"@,
    );
    assert(stop_reason(cfg, st) is None);
}

/// What the end of a round's stream leaves of an event still counts: it is taken as if it had been
/// complete, before the round ends.
pub proof fn law_end_takes_pending(cfg: Config, st: FoldView)
    requires
        st.phase == Phase::Reading,
    ensures
        ({
            let data = st.round.parser.data;
            let (end, step) = fold_step(cfg, st, InputView::EndOfBody);
            &&& data.len() == 0 ==> end == finish_round(cfg, st).0 && step.events == finish_round(
                cfg,
                st,
            ).1.events
            &&& flushed(data) matches Some(item) ==> {
                let (mid, first) = take_item(st, item);
                &&& end == finish_round(cfg, mid).0
                &&& step.events == first + finish_round(cfg, mid).1.events
                &&& step.open == finish_round(cfg, mid).1.open
            }
        }),
{
    reveal_with_fuel(take_items, 2);
    let data = st.round.parser.data;
    if data.len() == 0 {
        assert(fold_step(cfg, st, InputView::EndOfBody).1.events =~= finish_round(
            cfg,
            st,
        ).1.events);
    }
    if flushed(data) is Some {
        let item = flushed(data)->Some_0;
        assert(seq![item].drop_last() =~= Seq::empty());
        assert(take_items(st, seq![item]).1 =~= take_item(st, item).1);
        assert(take_items(st, seq![item]).0 == take_item(st, item).0);
    }
}

/// A chunk of a round's stream is taken item by item; while the round's response has not ended,
/// that is all, and once it has, the round ends.
pub proof fn law_chunk_taken(cfg: Config, st: FoldView, chunk: Seq<u8>)
    requires
        st.phase == Phase::Reading,
    ensures
        ({
            let (parser, items) = sse_run(st.round.parser, chunk);
            let now = FoldView { round: RoundView { parser, ..st.round }, ..st };
            let (mid, first) = take_items(now, items);
            let (end, step) = fold_step(cfg, st, InputView::Chunk(chunk));
            &&& mid.round.terminal is None ==> {
                &&& end == mid
                &&& step.events == first
                &&& step.open is None
                &&& step.remember is None
                &&& step.logs.len() == 0
                &&& !step.done
            }
            &&& mid.round.terminal is Some ==> {
                &&& end == finish_round(cfg, mid).0
                &&& step.events == first + finish_round(cfg, mid).1.events
                &&& step.open == finish_round(cfg, mid).1.open
                &&& step.remember == finish_round(cfg, mid).1.remember
                &&& step.logs == finish_round(cfg, mid).1.logs
                &&& step.done == finish_round(cfg, mid).1.done
            }
        }),
{
}

/// Without a step, and without being enabled, no round is continued.
pub proof fn law_never_goes_on(cfg: Config, st: FoldView)
    requires
        cfg.cont.truncation_step == 0 || !cfg.cont.enabled || cfg.cont.max_continue == 0
            && st.round_no > 0,
    ensures
        finish_round(cfg, st).1.open is None,
        finish_round(cfg, st).0.phase == Phase::Finished,
{
}

} // verus!
