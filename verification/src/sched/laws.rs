//! What holds of the scheduler as a whole.
use vstd::prelude::*;

use super::model::{same_stream, BatchView, FinishedView, SchedView, SchedulerMetrics};
use super::order::{
    lemma_ended, lemma_fed_token, lemma_preempted, lemma_ranked, lemma_stepped, lemma_table_covers,
    lemma_victim,
};
use crate::ids::{RequestId, SequenceId};
use crate::kvcache::allocator::refs_of;
use crate::kvcache::cache::law_a_published_prompt_is_found_again;
use crate::request::{law_slack_is_the_distance_to_the_deadline, RequestView};
use crate::sequence::{FinishReason, SequenceState};
use crate::{Tick, TokenId};

verus! {

/// A step stays within the token budget and the sequence cap, runs only what a
/// sequence has, and loses no token of any sequence.
pub proof fn law_a_step_keeps_its_limits_and_every_token(s: SchedView, now: Tick)
    requires
        s.wf(),
    ensures
        s.stepped(now).1.num_tokens() <= s.cfg.max_batch_tokens,
        s.stepped(now).1.num_seqs() <= s.cfg.max_batch_seqs,
        s.stepped(now).0.runnable(s.stepped(now).1),
        s.same_streams(s.stepped(now).0),
        s.stepped(now).0.wf(),
{
    lemma_stepped(s, now);
}

/// Every preemption of a step is counted.
pub proof fn law_every_preemption_is_counted(s: SchedView, now: Tick)
    requires
        s.wf(),
    ensures
        s.stepped(now).0.metrics.preemptions as int == (s.metrics.preemptions + s.stepped(
            now,
        ).1.preempted.len()) % 0x1_0000_0000_0000_0000,
{
    lemma_stepped(s, now);
}

/// No sequence is lost: until it ends, it is in exactly one of the two lists.
pub proof fn law_every_open_sequence_runs_or_waits(s: SchedView, id: SequenceId)
    requires
        s.wf(),
    ensures
        s.open(id) <==> s.running.contains(id) || s.waiting.contains(id),
        !(s.running.contains(id) && s.waiting.contains(id)),
{
    assert(s.running.contains(id) <==> s.runs(id));
    assert(s.waiting.contains(id) <==> s.waits(id));
}

/// The queue is ranked by urgency: nobody stands behind someone less urgent,
/// and nobody is added or dropped.
pub proof fn law_the_queue_is_ranked_by_urgency(s: SchedView, now: Tick, i: int, j: int)
    requires
        s.wf(),
        0 <= i < j < s.waiting.len(),
    ensures
        s.ranked(now).len() == s.waiting.len(),
        s.slack(s.ranked(now)[i], now) <= s.slack(s.ranked(now)[j], now),
        s.no_less_urgent(s.ranked(now)[i], s.ranked(now)[j], now),
        forall|id: SequenceId| #[trigger] s.ranked(now).contains(id) <==> s.waiting.contains(id),
{
    lemma_ranked(s, now);
    let leq = |a: SequenceId, b: SequenceId| s.no_less_urgent(a, b, now);
    assert(leq(s.ranked(now)[i], s.ranked(now)[j]));
}

/// The class sets the deadline, not the rank: whoever has the earlier deadline
/// is the more urgent, whatever the two classes are.
pub proof fn law_urgency_is_by_deadline(s: SchedView, a: SequenceId, b: SequenceId, now: Tick)
    requires
        s.known(a),
        s.known(b),
        now <= i64::MAX,
        s.deadline(a) <= i64::MAX,
        s.deadline(b) <= i64::MAX,
    ensures
        s.no_less_urgent(a, b, now) <==> s.deadline(a) < s.deadline(b) || (s.deadline(a)
            == s.deadline(b) && a.0 <= b.0),
{
    law_slack_is_the_distance_to_the_deadline(s.deadline(a), now);
    law_slack_is_the_distance_to_the_deadline(s.deadline(b), now);
}

proof fn lemma_victim_is_maximal(s: SchedView, n: nat, now: Tick, protect: SequenceId)
    requires
        n <= s.running.len(),
    ensures
        match s.victim_among(n, now, protect) {
            Some(v) => forall|i: int|
                0 <= i < n && s.running[i] != protect ==> s.yields_no_sooner(
                    #[trigger] s.running[i],
                    v,
                    now,
                ),
            None => true,
        },
    decreases n,
{
    if n > 0 {
        lemma_victim_is_maximal(s, (n - 1) as nat, now, protect);
        lemma_victim(s, (n - 1) as nat, now, protect);
    }
}

/// The victim of a preemption is a running sequence other than the protected
/// one, with the most slack and, among equals, the fewest generated tokens. It
/// exists wherever another sequence runs.
pub proof fn law_the_victim_can_wait_longest(
    s: SchedView,
    now: Tick,
    protect: SequenceId,
    other: SequenceId,
)
    requires
        s.wf(),
        s.running.contains(other),
        other != protect,
    ensures
        s.victim(now, protect) is Some,
        s.victim(now, protect)->0 != protect,
        s.running.contains(s.victim(now, protect)->0),
        s.slack(other, now) <= s.slack(s.victim(now, protect)->0, now),
        s.slack(other, now) == s.slack(s.victim(now, protect)->0, now) ==> s.seq_of(
            other,
        ).output_len() >= s.seq_of(s.victim(now, protect)->0).output_len(),
{
    lemma_victim(s, s.running.len(), now, protect);
    lemma_victim_is_maximal(s, s.running.len(), now, protect);
    let k = s.running.index_of(other);
    assert(s.running[k] == other);
}

/// A preempted sequence keeps its tokens, holds no block, and waits to resume.
pub proof fn law_a_preempted_sequence_can_resume(s: SchedView, id: SequenceId)
    requires
        s.wf(),
        s.running.contains(id),
    ensures
        s.preempted(id).waiting.contains(id),
        s.preempted(id).seq_of(id).tokens == s.seq_of(id).tokens,
        s.preempted(id).table_of(id).len() == 0,
        s.preempted(id).wf(),
{
    lemma_preempted(s, id);
    let w = s.preempted(id);
    assert(w.waiting[s.waiting.len() as int] == id);
}

proof fn lemma_victim_ignores_the_queue(
    s: SchedView,
    t: SchedView,
    n: nat,
    now: Tick,
    protect: SequenceId,
)
    requires
        t == (SchedView { waiting: t.waiting, ..s }),
    ensures
        s.victim_among(n, now, protect) == t.victim_among(n, now, protect),
    decreases n,
{
    if n > 0 {
        lemma_victim_ignores_the_queue(s, t, (n - 1) as nat, now, protect);
    }
}

proof fn lemma_room_ignores_the_queue(
    s: SchedView,
    t: SchedView,
    id: SequenceId,
    need: nat,
    now: Tick,
    gone: Seq<SequenceId>,
)
    requires
        t == (SchedView { waiting: t.waiting, ..s }),
    ensures
        ({
            let (u, a) = s.made_room(id, need, now, gone);
            let (w, b) = t.made_room(id, need, now, gone);
            a == b && w == (SchedView { waiting: w.waiting, ..u })
        }),
    decreases s.running.len(),
{
    lemma_victim_ignores_the_queue(s, t, s.running.len(), now, id);
    let (grown, enough) = s.ensured(id, need, 0);
    assert(t.ensured(id, need, 0) == (SchedView { waiting: t.waiting, ..grown }, enough));
    if !enough && s.victim(now, id) is Some && s.running.contains(s.victim(now, id)->0) {
        let v = s.victim(now, id)->0;
        lemma_room_ignores_the_queue(
            s.preempted(v),
            t.preempted(v),
            id,
            need,
            now,
            gone.push(v),
        );
    }
}

pub proof fn lemma_decode_ignores_the_queue(
    s: SchedView,
    t: SchedView,
    batch: BatchView,
    order: Seq<SequenceId>,
    i: nat,
    now: Tick,
)
    requires
        t == (SchedView { waiting: t.waiting, ..s }),
    ensures
        ({
            let (u, a) = s.decode_from(batch, order, i, now);
            let (w, b) = t.decode_from(batch, order, i, now);
            a == b && w == (SchedView { waiting: w.waiting, ..u })
        }),
    decreases order.len() - i,
{
    if i >= order.len() || batch.decode.len() >= s.cfg.max_batch_seqs || batch.num_tokens()
        >= s.cfg.max_batch_tokens {
    } else {
        let id = order[i as int];
        if !s.in_state(id, SequenceState::Decoding) {
            lemma_decode_ignores_the_queue(s, t, batch, order, i + 1, now);
        } else {
            let need = s.next_len(id);
            lemma_room_ignores_the_queue(s, t, id, need, now, batch.preempted);
            let (u, gone) = s.made_room(id, need, now, batch.preempted);
            let (w, _) = t.made_room(id, need, now, batch.preempted);
            let decode = if u.table_of(id).len() >= u.cache.blocks_for(need) {
                batch.decode.push(id)
            } else {
                batch.decode
            };
            lemma_decode_ignores_the_queue(
                u,
                w,
                BatchView { decode, preempted: gone, ..batch },
                order,
                i + 1,
                now,
            );
        }
    }
}

pub proof fn lemma_prefill_keeps_decodes(
    s: SchedView,
    batch: BatchView,
    order: Seq<SequenceId>,
    i: nat,
    reserve: nat,
)
    ensures
        s.prefill_from(batch, order, i, reserve).1.decode == batch.decode,
        s.prefill_from(batch, order, i, reserve).1.preempted == batch.preempted,
    decreases order.len() - i,
{
    if i < order.len() && !s.full(batch) {
        let id = order[i as int];
        if !s.in_state(id, SequenceState::Prefilling) {
            lemma_prefill_keeps_decodes(s, batch, order, i + 1, reserve);
        } else {
            let (next, chunk) = s.prefilled(id, s.budget_left(batch), reserve);
            lemma_prefill_keeps_decodes(next, batch.with_chunk(chunk), order, i + 1, reserve);
        }
    }
}

pub proof fn lemma_admission_keeps_decodes(
    s: SchedView,
    batch: BatchView,
    deferred: Seq<SequenceId>,
    ranked: Seq<SequenceId>,
    i: nat,
    reserve: nat,
)
    ensures
        s.admit_from(batch, deferred, ranked, i, reserve).1.decode == batch.decode,
        s.admit_from(batch, deferred, ranked, i, reserve).1.preempted == batch.preempted,
    decreases ranked.len() - i,
{
    if i < ranked.len() {
        let id = ranked[i as int];
        if s.full(batch) {
            lemma_admission_keeps_decodes(s, batch, deferred.push(id), ranked, i + 1, reserve);
        } else {
            let (next, chunk) = s.prefilled(id, s.budget_left(batch), reserve);
            lemma_admission_keeps_decodes(
                next,
                batch.with_chunk(chunk),
                if chunk is Some {
                    deferred
                } else {
                    deferred.push(id)
                },
                ranked,
                i + 1,
                reserve,
            );
        }
    }
}

/// Decodes come first: which sequences generate a token in a step, and which
/// are preempted for them, does not depend on what is waiting to start.
pub proof fn law_waiting_work_displaces_no_decode(
    s: SchedView,
    queue: Seq<SequenceId>,
    now: Tick,
)
    ensures
        (SchedView { waiting: queue, ..s }).stepped(now).1.decode == s.stepped(now).1.decode,
        (SchedView { waiting: queue, ..s }).stepped(now).1.preempted == s.stepped(now).1.preempted,
{
    let t = SchedView { waiting: queue, ..s };
    let metrics = SchedulerMetrics { steps: s.metrics.steps.wrapping_add(1), ..s.metrics };
    let s0 = SchedView { metrics, ..s };
    let t0 = SchedView { metrics, ..t };
    lemma_decode_ignores_the_queue(s0, t0, BatchView::empty(), s.running, 0, now);
    let (s1, b0) = s0.decode_from(BatchView::empty(), s.running, 0, now);
    let (t1, c0) = t0.decode_from(BatchView::empty(), s.running, 0, now);
    let b1 = b0.surviving();
    let c1 = c0.surviving();
    lemma_prefill_keeps_decodes(s1, b1, s.running, 0, s.reserve());
    lemma_prefill_keeps_decodes(t1, c1, s.running, 0, s.reserve());
    let (s2, b2) = s1.prefill_from(b1, s.running, 0, s.reserve());
    let (t2, c2) = t1.prefill_from(c1, s.running, 0, s.reserve());
    lemma_admission_keeps_decodes(s2, b2, Seq::empty(), s2.ranked(now), 0, s.reserve());
    lemma_admission_keeps_decodes(t2, c2, Seq::empty(), t2.ranked(now), 0, s.reserve());
}

proof fn lemma_cancelled(s: SchedView, request: RequestId, n: nat)
    requires
        s.wf(),
        n <= s.seqs.len(),
    ensures
        ({
            let w = s.cancelled(request, n).0;
            &&& w.wf()
            &&& w.seqs.len() == s.seqs.len()
            &&& forall|i: int|
                0 <= i < s.seqs.len() ==> (#[trigger] w.seqs[i]).request == s.seqs[i].request
            &&& forall|i: int|
                0 <= i < n && s.seqs[i].request == request ==> (
                #[trigger] w.seqs[i]).state is Finished
            &&& forall|i: int|
                0 <= i < s.seqs.len() && s.seqs[i].request != request ==> #[trigger] w.seqs[i]
                    == s.seqs[i] && w.tables[i] == s.tables[i]
        }),
    decreases n,
{
    if n > 0 {
        let m = (n - 1) as nat;
        lemma_cancelled(s, request, m);
        let before = s.cancelled(request, m).0;
        let id = SequenceId(n as u64);
        let w = s.cancelled(request, n).0;
        if before.seq_of(id).request == request && before.open(id) {
            lemma_ended(before, id, FinishReason::Cancelled);
            assert forall|i: int| 0 <= i < s.seqs.len() implies (#[trigger] w.seqs[i]).request
                == s.seqs[i].request by {
                assert(before.seqs[i].request == s.seqs[i].request);
            }
            assert forall|i: int| 0 <= i < n && s.seqs[i].request == request implies (
            #[trigger] w.seqs[i]).state is Finished by {
                if i < m {
                    assert(before.seqs[i].state is Finished);
                }
            }
            assert forall|i: int|
                0 <= i < s.seqs.len() && s.seqs[i].request != request implies #[trigger] w.seqs[i]
                == s.seqs[i] && w.tables[i] == s.tables[i] by {
                assert(before.seqs[i] == s.seqs[i]);
                assert(i != n - 1);
            }
        } else {
            assert(before.seqs[n - 1].request == s.seqs[n - 1].request);
        }
    }
}

/// Cancelling a request ends every sequence of it, leaves none of them a block,
/// and touches no sequence of another request.
pub proof fn law_cancellation_releases_memory(s: SchedView, request: RequestId, id: SequenceId)
    requires
        s.wf(),
        s.known(id),
    ensures
        ({
            let w = s.cancelled(request, s.seqs.len()).0;
            &&& w.wf()
            &&& s.seq_of(id).request == request ==> w.seq_of(id).state is Finished && w.table_of(
                id,
            ).len() == 0
            &&& s.seq_of(id).request != request ==> w.seq_of(id) == s.seq_of(id) && w.table_of(id)
                == s.table_of(id)
        }),
{
    lemma_cancelled(s, request, s.seqs.len());
    let w = s.cancelled(request, s.seqs.len()).0;
    assert(w.seqs[id.0 - 1].request == s.seqs[id.0 - 1].request);
    assert(w.tables[id.0 - 1].len() == 0 || !(w.seqs[id.0 - 1].state is Finished));
}

/// A sequence that ends on its limit has generated exactly as many tokens as
/// were asked for.
pub proof fn law_the_limit_is_exact(s: SchedView, id: SequenceId, token: TokenId, now: Tick)
    requires
        s.wf(),
        s.in_state(id, SequenceState::Decoding),
        s.seq_of(id).output_len() < s.seq_of(id).max_tokens,
        s.seq_of(id).tokens.len() < usize::MAX,
    ensures
        ({
            let done = s.fed_one(id, token, now).1;
            &&& done.len() == 1 <==> s.seq_of(id).output_len() + 1 == s.seq_of(id).max_tokens
            &&& done.len() == 1 ==> {
                &&& done[0].reason == FinishReason::Length
                &&& done[0].output == s.seq_of(id).output().push(token)
                &&& done[0].output.len() == s.seq_of(id).max_tokens
            }
        }),
{
    lemma_fed_token(s, id, token, now);
    let next = s.fed_token(id, token, now);
    assert(s.seqs[id.0 - 1].wf());
    assert(next.seq_of(id).output() =~= s.seq_of(id).output().push(token));
}

/// Every sequence that has not ended may still generate a token.
pub open spec fn below_limits(s: SchedView) -> bool {
    forall|id: SequenceId| #[trigger]
        s.open(id) ==> s.seq_of(id).output_len() < s.seq_of(id).max_tokens
}

proof fn lemma_retired_below_limits(s: SchedView, id: SequenceId, reason: FinishReason)
    requires
        below_limits(s),
    ensures
        below_limits(s.retired(id, reason).0),
{
    let w = s.retired(id, reason).0;
    assert forall|p: SequenceId| #[trigger] w.open(p) implies w.seq_of(p).output_len()
        < w.seq_of(p).max_tokens by {
        if s.open(id) && p != id {
            assert(w.seq_of(p) == s.seq_of(p));
        }
        assert(s.open(p));
    }
}

/// No sequence outlives its limit: queueing a request, a step, feeding tokens
/// back, a stop and a cancellation all leave every open sequence below the
/// number of tokens that were asked of it.
pub proof fn law_open_sequences_stay_below_their_limits(
    s: SchedView,
    request: RequestView,
    n: nat,
    now: Tick,
    outputs: Seq<(SequenceId, TokenId)>,
    id: SequenceId,
    reason: FinishReason,
    cancelled: RequestId,
)
    requires
        s.wf(),
        below_limits(s),
    ensures
        s.refusal(request) is None && s.seqs.len() + n <= u64::MAX ==> below_limits(
            s.queued(request, n),
        ),
        below_limits(s.stepped(now).0),
        below_limits(s.fed(outputs, outputs.len(), now).0),
        below_limits(s.retired(id, reason).0),
        below_limits(s.cancelled(cancelled, s.seqs.len()).0),
{
    if s.refusal(request) is None && s.seqs.len() + n <= u64::MAX {
        let w = s.queued(request, n);
        assert forall|p: SequenceId| #[trigger] w.open(p) implies w.seq_of(p).output_len()
            < w.seq_of(p).max_tokens by {
            if p.0 <= s.seqs.len() {
                assert(w.seq_of(p) == s.seq_of(p));
                assert(s.open(p));
            }
        }
    }
    lemma_stepped(s, now);
    let w = s.stepped(now).0;
    assert forall|p: SequenceId| #[trigger] w.open(p) implies w.seq_of(p).output_len()
        < w.seq_of(p).max_tokens by {
        assert(same_stream(s.seqs[p.0 - 1], w.seqs[p.0 - 1]));
        assert(s.open(p));
    }
    lemma_fed_below_limits(s, outputs, outputs.len(), now);
    lemma_retired_below_limits(s, id, reason);
    lemma_cancelled_below_limits(s, cancelled, s.seqs.len());
}

proof fn lemma_fed_below_limits(
    s: SchedView,
    outputs: Seq<(SequenceId, TokenId)>,
    n: nat,
    now: Tick,
)
    requires
        below_limits(s),
    ensures
        below_limits(s.fed(outputs, n, now).0),
    decreases n,
{
    if n > 0 {
        lemma_fed_below_limits(s, outputs, (n - 1) as nat, now);
        let before = s.fed(outputs, (n - 1) as nat, now).0;
        let (id, token) = outputs[n - 1];
        if before.in_state(id, SequenceState::Decoding) {
            let next = before.fed_token(id, token, now);
            let after = before.fed_one(id, token, now).0;
            assert forall|p: SequenceId| #[trigger] after.open(p) implies after.seq_of(
                p,
            ).output_len() < after.seq_of(p).max_tokens by {
                if p != id {
                    assert(next.seq_of(p) == before.seq_of(p));
                    assert(after.seq_of(p) == before.seq_of(p));
                    assert(before.open(p));
                }
            }
        }
    }
}

proof fn lemma_cancelled_below_limits(s: SchedView, request: RequestId, n: nat)
    requires
        below_limits(s),
    ensures
        below_limits(s.cancelled(request, n).0),
    decreases n,
{
    if n > 0 {
        lemma_cancelled_below_limits(s, request, (n - 1) as nat);
        let before = s.cancelled(request, (n - 1) as nat).0;
        lemma_retired_below_limits(before, SequenceId(n as u64), FinishReason::Cancelled);
    }
}

/// Cancelling is safe after the end: a request none of whose sequences is open
/// is left alone, and nothing is reported of it.
pub proof fn law_cancelling_an_ended_request_does_nothing(s: SchedView, request: RequestId)
    requires
        forall|id: SequenceId| #[trigger] s.open(id) ==> s.seq_of(id).request != request,
    ensures
        s.cancelled(request, s.seqs.len()) == (s, Seq::<FinishedView>::empty()),
{
    lemma_nothing_to_cancel(s, request, s.seqs.len());
}

proof fn lemma_nothing_to_cancel(s: SchedView, request: RequestId, n: nat)
    requires
        forall|id: SequenceId| #[trigger] s.open(id) ==> s.seq_of(id).request != request,
    ensures
        s.cancelled(request, n) == (s, Seq::<FinishedView>::empty()),
    decreases n,
{
    if n > 0 {
        lemma_nothing_to_cancel(s, request, (n - 1) as nat);
        let id = SequenceId(n as u64);
        if s.seq_of(id).request == request {
            assert(!s.open(id));
        }
        assert(Seq::<FinishedView>::empty() + Seq::<FinishedView>::empty()
            =~= Seq::<FinishedView>::empty());
    }
}

/// What a finished sequence computed stays reusable: looking its tokens up again
/// for its tenant matches every block it held but the one that ends at its last
/// token.
pub proof fn law_a_finished_context_is_found_again(
    s: SchedView,
    id: SequenceId,
    reason: FinishReason,
)
    requires
        s.wf(),
        s.open(id),
        s.table_of(id).len() >= s.cache.matchable(
            s.seq_of(id).tenant,
            s.seq_of(id).tokens,
        ).len(),
        forall|b: crate::kvcache::BlockId| #[trigger]
            refs_of(s.cache.refs, b) + s.cache.matchable(
                s.seq_of(id).tenant,
                s.seq_of(id).tokens,
            ).len() < u32::MAX,
    ensures
        ({
            let q = s.seq_of(id);
            let usable = s.cache.matchable(q.tenant, q.tokens);
            s.ended(id, reason).cache.acquired(usable).1.len() == usable.len()
        }),
{
    lemma_table_covers(s, id);
    law_a_published_prompt_is_found_again(
        s.cache,
        s.seq_of(id).tenant,
        s.seq_of(id).tokens,
        s.table_of(id),
    );
}

} // verus!
