//! Laws on replies: what a client reads in the answer to a row.

use crate::http::HeadView;
use crate::le::{u32_at, u64_at};
use crate::server::{dealt, routed, text_reply, Dealt, Route, Verdict};
use crate::wire::{
    capped, decision_code, dense_error_words, dense_payload, law_short_verdict_layout, law_verdict_layout, qsb2,
    rsk1, Decision, Timings,
};
use vstd::prelude::*;

verus! {

/// The path at which rows are scored, with a verdict in full.
pub open spec fn full_path() -> Seq<char> {
    "/score_dense_f32_bin"@
}

/// The path at which rows are scored, with a verdict in short.
pub open spec fn short_path() -> Seq<char> {
    "/score_dense_f32_bin_v2"@
}

/// Each thing that can be asked for is found under its own method and path.
pub proof fn law_routes_are_told_apart()
    ensures
        routed("GET"@, "/health"@) == Route::Health,
        routed("GET"@, "/debug/backend"@) == Route::DebugBackend,
        routed("POST"@, full_path()) == Route::Score,
        routed("POST"@, short_path()) == Route::ScoreV2,
        routed("GET"@, "/metrics"@) == Route::Metrics,
        forall|method: Seq<char>, path: Seq<char>|
            method != "GET"@ && method != "POST"@ ==> #[trigger] routed(method, path)
                == Route::Unknown,
        forall|path: Seq<char>|
            path != full_path() && path != short_path() ==> #[trigger] routed("POST"@, path)
                == Route::Unknown,
        forall|path: Seq<char>|
            path != "/health"@ && path != "/debug/backend"@ && path != "/metrics"@
                ==> #[trigger] routed("GET"@, path) == Route::Unknown,
{
    reveal_strlit("GET");
    reveal_strlit("POST");
    reveal_strlit("/health");
    reveal_strlit("/debug/backend");
    reveal_strlit("/metrics");
    reveal_strlit("/score_dense_f32_bin");
    reveal_strlit("/score_dense_f32_bin_v2");
    assert("GET"@.len() == 3 && "POST"@.len() == 4);
    assert("/health"@.len() == 7 && "/debug/backend"@.len() == 14 && "/metrics"@.len() == 8);
    assert("/score_dense_f32_bin"@.len() == 20 && "/score_dense_f32_bin_v2"@.len() == 23);
}

/// The number by which a client is told a decision.
pub open spec fn told_decision(d: Decision) -> int {
    match d {
        Decision::Allow => 0,
        Decision::Deny => 1,
        Decision::ManualReview => 2,
        Decision::DegradeAllow => 3,
    }
}

/// The reply to a row that comes to a score tells what the row came to: behind the head stand, in
/// short or in full as the path asks, the number of the request, the score and the decision, each
/// where the client reads it.
pub proof fn law_scored_rows_are_told_their_verdict(
    meta: HeadView,
    body: Seq<u8>,
    dim: usize,
    v: Verdict,
    document: Seq<u8>,
    metrics: Seq<char>,
)
    requires
        meta.method == "POST"@,
        meta.path == full_path() || meta.path == short_path(),
        dense_payload(body, dim as int) is Ok,
    ensures
        ({
            let (how, sent) = dealt(meta, body, true, Some(dim), Ok(v), document, metrics);
            let n: int = if meta.path == full_path() {
                48
            } else {
                24
            };
            let b = sent.skip(sent.len() - n);
            &&& how == Dealt::Answered
            &&& sent.len() >= n
            &&& u64_at(b, 8) == v.trace_id
            &&& u32_at(b, 16) == v.score
            &&& meta.path == full_path() ==> {
                &&& b.take(4) == seq![82u8, 83u8, 75u8, 49u8]
                &&& b[20] == told_decision(v.decision)
                &&& u32_at(b, 24) == capped(v.timings.parse)
                &&& u32_at(b, 28) == capped(v.timings.feature)
                &&& u32_at(b, 32) == capped(v.timings.router)
                &&& u32_at(b, 36) == capped(v.timings.l1)
                &&& u32_at(b, 40) == capped(v.timings.l2)
                &&& u32_at(b, 44) == capped(v.serialize_us)
            }
            &&& meta.path == short_path() ==> {
                &&& b.take(4) == seq![81u8, 83u8, 66u8, 50u8]
                &&& b[6] == told_decision(v.decision)
                &&& b[7] == 1 <==> v.timings.l2 > 0
            }
        }),
{
    law_routes_are_told_apart();
    reveal_strlit("/score_dense_f32_bin");
    reveal_strlit("/score_dense_f32_bin_v2");
    assert("/score_dense_f32_bin"@.len() == 20 && "/score_dense_f32_bin_v2"@.len() == 23);
    let code = decision_code(v.decision);
    let t = Timings { serialize: v.serialize_us, ..v.timings };
    law_short_verdict_layout(v.trace_id, v.score, code, v.timings.l2 > 0);
    law_verdict_layout(v.trace_id, v.score, code, t);
    let sent = dealt(meta, body, true, Some(dim), Ok(v), document, metrics).1;
    if meta.path == full_path() {
        assert(sent.skip(sent.len() - 48) =~= rsk1(v.trace_id, v.score, code, t));
    } else {
        assert(sent.skip(sent.len() - 24) =~= qsb2(
            v.trace_id,
            v.score,
            code,
            v.timings.l2 > 0,
        ));
    }
}

/// A row that is not scored is told why: too many at once, no model, what is wrong with it, or how
/// scoring it failed; and what scoring came to is told to nobody else.
pub proof fn law_unscored_rows_are_told_why(
    meta: HeadView,
    body: Seq<u8>,
    room: bool,
    dim: Option<usize>,
    scored: Result<Verdict, Seq<char>>,
    document: Seq<u8>,
    metrics: Seq<char>,
)
    requires
        meta.method == "POST"@,
        meta.path == full_path() || meta.path == short_path(),
    ensures
        ({
            let (how, sent) = dealt(meta, body, room, dim, scored, document, metrics);
            let keep = !meta.want_close;
            &&& !room ==> how == Dealt::TurnedDown && sent == text_reply(
                429,
                "overloaded"@,
                keep,
            )
            &&& room && dim is None ==> how == Dealt::TurnedDown && sent == text_reply(
                500,
                "quickscorer not enabled"@,
                keep,
            )
            &&& room && dim is Some ==> match dense_payload(body, dim->Some_0 as int) {
                Err(e) => how == Dealt::TurnedDown && sent == text_reply(
                    400,
                    dense_error_words(e),
                    keep,
                ),
                Ok(_) => scored matches Err(reason) ==> how == Dealt::TurnedDown && sent
                    == text_reply(500, "quickscorer inference failed: "@ + reason, keep),
            }
        }),
{
    law_routes_are_told_apart();
}

} // verus!
