//! What the scheduler owes each sequence, in numbers: how long it has left, what a
//! token changes, what is put on record of its end, and which requests are taken.
use vstd::prelude::*;

use super::model::SchedView;
use super::order::{lemma_ended, lemma_stepped};
use super::urgency::{has_blocks_to_spare, law_the_more_urgent_start_first};
use crate::error::{Error, SamplingFault};
use crate::ids::{RequestId, SequenceId};
use crate::lists::lemma_without;
use crate::request::{law_slack_is_the_distance_to_the_deadline, RequestView, ServiceClass};
use crate::sequence::{FinishReason, SequenceState};
use crate::{Tick, TokenId};

verus! {

/// What is left to a sequence is its budget less the time that it has waited.
/// Before its first token that is half a second, ten seconds or two minutes from
/// its arrival; after it, 50, 200 or 1000 milliseconds from its last token.
pub proof fn law_slack_is_what_is_left_of_the_budget(s: SchedView, id: SequenceId, now: Tick)
    requires
        s.known(id),
        now <= i64::MAX,
        s.seq_of(id).arrived_at + 120_000_000 <= i64::MAX,
        s.seq_of(id).last_token_at is Some ==> s.seq_of(id).last_token_at->0 + 120_000_000
            <= i64::MAX,
    ensures
        s.seq_of(id).last_token_at is None ==> s.slack(id, now) == s.seq_of(id).arrived_at - now
            + match s.seq_of(id).class {
            ServiceClass::Interactive => 500_000int,
            ServiceClass::Batch => 10_000_000,
            ServiceClass::Background => 120_000_000,
        },
        s.seq_of(id).last_token_at is Some ==> s.slack(id, now) == s.seq_of(id).last_token_at->0
            - now + match s.seq_of(id).class {
            ServiceClass::Interactive => 50_000int,
            ServiceClass::Batch => 200_000,
            ServiceClass::Background => 1_000_000,
        },
{
    law_slack_is_the_distance_to_the_deadline(s.deadline(id), now);
}

/// Of two sequences that wait for their first token, the one whose arrival and
/// budget add up to the earlier time starts first: one that was left, though there
/// were blocks to spare for it, is due no sooner than one that was started.
pub proof fn law_the_sooner_due_start_first(
    s: SchedView,
    now: Tick,
    started: SequenceId,
    left: SequenceId,
)
    requires
        s.wf(),
        s.cfg.chunked_prefill,
        s.waiting.contains(started),
        s.waiting.contains(left),
        s.stepped(now).0.running.contains(started),
        s.stepped(now).0.waiting.contains(left),
        has_blocks_to_spare(s.stepped(now).0, left),
        s.seq_of(started).last_token_at is None,
        s.seq_of(left).last_token_at is None,
        now <= i64::MAX,
        s.seq_of(started).arrived_at + 120_000_000 <= i64::MAX,
        s.seq_of(left).arrived_at + 120_000_000 <= i64::MAX,
    ensures
        s.seq_of(started).arrived_at + (match s.seq_of(started).class {
            ServiceClass::Interactive => 500_000int,
            ServiceClass::Batch => 10_000_000,
            ServiceClass::Background => 120_000_000,
        }) <= s.seq_of(left).arrived_at + (match s.seq_of(left).class {
            ServiceClass::Interactive => 500_000int,
            ServiceClass::Batch => 10_000_000,
            ServiceClass::Background => 120_000_000,
        }),
{
    law_the_more_urgent_start_first(s, now, started, left);
    assert(s.waits(started) && s.waits(left));
    law_slack_is_what_is_left_of_the_budget(s, started, now);
    law_slack_is_what_is_left_of_the_budget(s, left, now);
}

/// The victim of a preemption, a running sequence that generates, has the latest
/// due time of all that generate, budgets counted from their last tokens.
pub proof fn law_the_victim_is_due_last(
    s: SchedView,
    now: Tick,
    protect: SequenceId,
    other: SequenceId,
)
    requires
        s.wf(),
        s.victim(now, protect) is Some,
        s.running.contains(other),
        other != protect,
        s.seq_of(other).last_token_at is Some,
        s.seq_of(s.victim(now, protect)->0).last_token_at is Some,
        now <= i64::MAX,
        s.seq_of(other).arrived_at + 120_000_000 <= i64::MAX,
        s.seq_of(other).last_token_at->0 + 120_000_000 <= i64::MAX,
        s.seq_of(s.victim(now, protect)->0).arrived_at + 120_000_000 <= i64::MAX,
        s.seq_of(s.victim(now, protect)->0).last_token_at->0 + 120_000_000 <= i64::MAX,
    ensures
        ({
            let v = s.victim(now, protect)->0;
            let due = |id: SequenceId|
                s.seq_of(id).last_token_at->0 + match s.seq_of(id).class {
                    ServiceClass::Interactive => 50_000int,
                    ServiceClass::Batch => 200_000,
                    ServiceClass::Background => 1_000_000,
                };
            &&& s.running.contains(v)
            &&& v != protect
            &&& due(other) < due(v) || (due(other) == due(v) && s.seq_of(other).tokens.len()
                - s.seq_of(other).prompt_len >= s.seq_of(v).tokens.len() - s.seq_of(v).prompt_len)
        }),
{
    let v = s.victim(now, protect)->0;
    super::order::lemma_victim(s, s.running.len(), now, protect);
    super::laws::law_the_victim_can_wait_longest(s, now, protect, other);
    assert(s.runs(v) && s.runs(other));
    law_slack_is_what_is_left_of_the_budget(s, other, now);
    law_slack_is_what_is_left_of_the_budget(s, v, now);
}

/// A generated token goes to the end of its sequence and to no other. It is on
/// record as the latest, and as the first where there was none.
pub proof fn law_a_token_goes_to_its_sequence(
    s: SchedView,
    id: SequenceId,
    token: TokenId,
    now: Tick,
    other: SequenceId,
)
    requires
        s.wf(),
        s.in_state(id, SequenceState::Decoding),
        s.known(other),
        other != id,
    ensures
        ({
            let (w, done) = s.fed_one(id, token, now);
            let (p, q) = (s.seq_of(id), w.seq_of(id));
            &&& q.tokens == p.tokens.push(token)
            &&& q.prompt_len == p.prompt_len
            &&& q.last_token_at == Some(now)
            &&& q.first_token_at == if p.first_token_at is Some {
                p.first_token_at
            } else {
                Some(now)
            }
            &&& q.arrived_at == p.arrived_at
            &&& w.seq_of(other) == s.seq_of(other)
            &&& w.table_of(other) == s.table_of(other)
            &&& done.len() == if p.tokens.len() + 1 - p.prompt_len >= p.max_tokens {
                1int
            } else {
                0int
            }
            &&& done.len() == 0 ==> q.state is Decoding && w.running == s.running && w.tables
                == s.tables && w.cache == s.cache
            &&& done.len() == 1 ==> q.state == SequenceState::Finished(FinishReason::Length)
                && done[0].reason == FinishReason::Length && done[0].seq == id && done[0].output
                == p.tokens.push(token).skip(p.prompt_len as int) && w.table_of(id).len() == 0
        }),
{
    let next = s.fed_token(id, token, now);
    assert(next.seq_of(id) == s.seq_of(id).pushed(token, now));
    assert(next.open(id));
}

/// A sequence that does not generate takes no token.
pub proof fn law_only_generating_sequences_take_tokens(
    s: SchedView,
    id: SequenceId,
    token: TokenId,
    now: Tick,
)
    requires
        !s.in_state(id, SequenceState::Decoding),
    ensures
        s.fed_one(id, token, now).0 == s,
        s.fed_one(id, token, now).1.len() == 0,
{
}

/// A first token that comes later than half a second, ten seconds or two minutes
/// after the arrival, by class, is counted as missed; one in time is not, nor is
/// any later token.
pub proof fn law_late_first_tokens_are_counted(
    s: SchedView,
    id: SequenceId,
    token: TokenId,
    now: Tick,
)
    requires
        s.wf(),
        s.in_state(id, SequenceState::Decoding),
        s.metrics.ttft_deadline_misses < u64::MAX,
    ensures
        s.fed_one(id, token, now).0.metrics.ttft_deadline_misses == s.metrics.ttft_deadline_misses
            + if s.seq_of(id).first_token_at is None && now - s.seq_of(id).arrived_at > (match s.seq_of(
            id,
        ).class {
            ServiceClass::Interactive => 500_000int,
            ServiceClass::Batch => 10_000_000,
            ServiceClass::Background => 120_000_000,
        }) {
            1int
        } else {
            0int
        },
{
}

/// What is put on record of a sequence that ends is what happened to it: every
/// token after its prompt, the time from its arrival to its first token, the time
/// between its tokens on average, and how much of its context came from the
/// cache. It is reported once; nothing is reported of one that has ended.
pub proof fn law_an_end_is_reported_as_it_was(s: SchedView, id: SequenceId, reason: FinishReason)
    requires
        s.wf(),
        s.known(id),
    ensures
        ({
            let (w, done) = s.retired(id, reason);
            let q = s.seq_of(id);
            &&& q.state is Finished ==> w == s && done.len() == 0
            &&& !(q.state is Finished) ==> {
                &&& done.len() == 1
                &&& done[0].seq == id
                &&& done[0].request == q.request
                &&& done[0].reason == reason
                &&& done[0].output.len() == q.tokens.len() - q.prompt_len
                &&& q.tokens == q.tokens.take(q.prompt_len as int) + done[0].output
                &&& done[0].ttft_us is Some <==> q.first_token_at is Some
                &&& q.first_token_at is Some && q.first_token_at->0 >= q.arrived_at
                    ==> done[0].ttft_us->0 == q.first_token_at->0 - q.arrived_at
                &&& done[0].cached_prefix_len == q.cached_prefix_len
                &&& w.seq_of(id).state == SequenceState::Finished(reason)
                &&& w.seq_of(id).tokens == q.tokens
                &&& w.table_of(id).len() == 0
                &&& !w.running.contains(id)
                &&& !w.waiting.contains(id)
                &&& s.metrics.finished < u64::MAX ==> w.metrics.finished == s.metrics.finished + 1
            }
        }),
{
    let q = s.seq_of(id);
    assert(q.wf());
    if s.open(id) {
        lemma_ended(s, id, reason);
        lemma_without(s.running, id);
        lemma_without(s.waiting, id);
        assert(q.tokens =~= q.tokens.take(q.prompt_len as int) + s.report(id, reason).output);
    }
}

/// An end touches no other sequence: each stands in the list it stood in, with its
/// blocks.
pub proof fn law_an_end_touches_nobody_else(
    s: SchedView,
    id: SequenceId,
    reason: FinishReason,
    other: SequenceId,
)
    requires
        s.wf(),
        s.known(id),
        s.known(other),
        other != id,
    ensures
        ({
            let w = s.retired(id, reason).0;
            &&& w.seq_of(other) == s.seq_of(other)
            &&& w.table_of(other) == s.table_of(other)
            &&& w.running.contains(other) <==> s.running.contains(other)
            &&& w.waiting.contains(other) <==> s.waiting.contains(other)
        }),
{
    if s.open(id) {
        lemma_without(s.running, id);
        lemma_without(s.waiting, id);
    }
}

/// A request is taken exactly where its parameters are in range, and its prompt has
/// a token and leaves room for one in the context of the model; the reasons for
/// refusing it are given in that order.
pub proof fn law_requests_are_taken_if_they_fit(s: SchedView, request: RequestView)
    requires
        request.prompt.len() <= usize::MAX,
    ensures
        s.refusal(request) is None <==> {
            &&& request.params.temperature.bits <= 0x4000_0000 || request.params.temperature.bits
                == 0x8000_0000
            &&& 0 < request.params.top_p.bits <= 0x3f80_0000
            &&& request.params.top_k != Some(0u32)
            &&& 1 <= request.params.max_tokens
            &&& request.params.min_tokens <= request.params.max_tokens
            &&& 1 <= request.prompt.len() < s.cfg.max_model_len
        },
        request.params.fault() is Some ==> s.refusal(request) == Some(
            Error::InvalidSampling(request.params.fault()->0),
        ),
        request.params.fault() is None && request.prompt.len() >= s.cfg.max_model_len ==> s.refusal(
            request,
        ) is Some && s.refusal(request)->0 is PromptTooLong && s.refusal(request)->0->got
            == request.prompt.len() && s.refusal(request)->0->max == s.cfg.max_model_len,
        request.params.fault() is None && request.prompt.len() == 0 && 0 < s.cfg.max_model_len
            ==> s.refusal(request) == Some(Error::InvalidSampling(SamplingFault::EmptyPrompt)),
{
}

/// A request that is taken becomes as many sequences as it asks for, and one at
/// least. Each has the prompt for its tokens and nothing computed, the next id, and
/// the last places in the queue; all are counted, and nothing else changes.
pub proof fn law_a_request_is_queued_as_it_says(
    s: SchedView,
    request: RequestView,
    k: int,
    old_id: SequenceId,
)
    requires
        s.wf(),
        s.known(old_id),
        s.seqs.len() + SchedView::streams(request) <= usize::MAX,
        s.metrics.admitted + SchedView::streams(request) <= u64::MAX,
        0 <= k < SchedView::streams(request),
    ensures
        ({
            let n = SchedView::streams(request);
            let w = s.queued(request, n);
            let id = SequenceId((s.seqs.len() + k + 1) as u64);
            let q = w.seq_of(id);
            &&& n == if request.n as int >= 1 {
                request.n as int
            } else {
                1
            }
            &&& w.seqs.len() == s.seqs.len() + n
            &&& w.waiting.len() == s.waiting.len() + n
            &&& w.waiting[s.waiting.len() + k] == id
            &&& s.next_ids(n).len() == n
            &&& s.next_ids(n)[k] == id
            &&& q.id == id
            &&& q.request == request.id
            &&& q.tenant == request.tenant
            &&& q.class == request.class
            &&& q.tokens == request.prompt
            &&& q.prompt_len == request.prompt.len()
            &&& q.computed == 0
            &&& q.cached_prefix_len == 0
            &&& q.arrived_at == request.arrived_at
            &&& q.max_tokens == request.params.max_tokens
            &&& q.state is Waiting
            &&& q.first_token_at is None
            &&& q.last_token_at is None
            &&& w.table_of(id).len() == 0
            &&& w.seq_of(old_id) == s.seq_of(old_id)
            &&& w.table_of(old_id) == s.table_of(old_id)
            &&& s.waiting.is_prefix_of(w.waiting)
            &&& w.running == s.running
            &&& w.cache == s.cache
            &&& w.metrics.admitted == s.metrics.admitted + n
        }),
{
    let n = SchedView::streams(request);
    let w = s.queued(request, n);
    assert(s.waiting =~= w.waiting.take(s.waiting.len() as int));
}

/// The blocks held back from admission are the configured share of the pool,
/// rounded up, and one at least.
pub proof fn law_the_reserve_is_its_share(s: SchedView)
    requires
        s.wf(),
        s.cfg.watermark.num <= s.cfg.watermark.den,
    ensures
        s.reserve() >= 1,
        s.reserve() * s.cfg.watermark.den >= s.cache.capacity() * s.cfg.watermark.num,
        s.reserve() > 1 ==> (s.reserve() - 1) * s.cfg.watermark.den < s.cache.capacity()
            * s.cfg.watermark.num,
{
    let f = s.cfg.watermark;
    let n = s.cache.capacity();
    crate::number::law_shares_are_rounded_to_the_nearest_side(f, n);
    let share = f.of_rounded_up(n);
    assert(share <= n) by (nonlinear_arith)
        requires
            share > 0 ==> (share - 1) * f.den < n * f.num,
            f.num <= f.den,
            f.den > 0,
            n >= 0,
            f.num >= 0,
    ;
    if share == 0 {
        assert(s.reserve() == 1);
        assert(n * f.num <= 0) by (nonlinear_arith)
            requires
                share == 0,
                share * f.den >= n * f.num,
        ;
        assert(1 * f.den >= n * f.num);
    }
}

/// Every open sequence of a request that is cancelled is reported once, as
/// cancelled, in the order of the ids.
pub proof fn law_a_cancellation_reports_what_it_ends(s: SchedView, request: RequestId, n: nat)
    requires
        s.wf(),
        n <= s.seqs.len(),
    ensures
        ({
            let (w, done) = s.cancelled(request, n);
            &&& forall|k: int|
                0 <= k < done.len() ==> (#[trigger] done[k]).reason == FinishReason::Cancelled
                    && done[k].request == request && s.open(done[k].seq) && done[k].seq.0 <= n
            &&& forall|k: int, l: int|
                0 <= k < l < done.len() ==> (#[trigger] done[k]).seq.0 < (#[trigger] done[l]).seq.0
            &&& forall|id: SequenceId|
                1 <= id.0 <= n && #[trigger] s.open(id) && s.seq_of(id).request == request ==> (
                exists|k: int| 0 <= k < done.len() && (#[trigger] done[k]).seq == id)
            &&& w.wf()
            &&& w.seqs.len() == s.seqs.len()
            &&& forall|i: int| n <= i < s.seqs.len() ==> #[trigger] w.seqs[i] == s.seqs[i]
        }),
    decreases n,
{
    if n > 0 {
        let m = (n - 1) as nat;
        law_a_cancellation_reports_what_it_ends(s, request, m);
        let (before, done) = s.cancelled(request, m);
        let id = SequenceId(n as u64);
        let (w, all) = s.cancelled(request, n);
        assert(before.seqs[n - 1] == s.seqs[n - 1]);
        assert(before.seq_of(id) == s.seq_of(id));
        if before.seq_of(id).request == request && before.open(id) {
            lemma_ended(before, id, FinishReason::Cancelled);
            assert(all == done.push(before.report(id, FinishReason::Cancelled)));
            assert(all[done.len() as int].seq == id);
        } else {
            assert(all =~= done);
        }
        assert forall|x: SequenceId|
            1 <= x.0 <= n && #[trigger] s.open(x) && s.seq_of(x).request == request implies (
        exists|k: int| 0 <= k < all.len() && (#[trigger] all[k]).seq == x) by {
            if x.0 <= m {
                let k = choose|k: int| 0 <= k < done.len() && (#[trigger] done[k]).seq == x;
                assert(all[k] == done[k]);
            } else {
                assert(x == id);
                assert(all[done.len() as int].seq == x);
            }
        }
        assert forall|k: int| 0 <= k < all.len() implies (#[trigger] all[k]).reason
            == FinishReason::Cancelled && all[k].request == request && s.open(all[k].seq)
            && all[k].seq.0 <= n by {
            if k < done.len() {
                assert(all[k] == done[k]);
            }
        }
        assert forall|k: int, l: int| 0 <= k < l < all.len() implies (#[trigger] all[k]).seq.0 < (
        #[trigger] all[l]).seq.0 by {
            assert(all[k] == done[k]);
            if l < done.len() {
                assert(all[l] == done[l]);
            }
        }
        assert forall|i: int| n <= i < s.seqs.len() implies #[trigger] w.seqs[i] == s.seqs[i] by {
            assert(before.seqs[i] == s.seqs[i]);
        }
    }
}

/// Whatever a step does, what a sequence was asked and what it said so far stay as
/// they were.
pub proof fn law_a_step_changes_no_stream(s: SchedView, now: Tick, id: SequenceId)
    requires
        s.wf(),
        s.known(id),
    ensures
        ({
            let (p, q) = (s.seq_of(id), s.stepped(now).0.seq_of(id));
            &&& q.tokens == p.tokens
            &&& q.prompt_len == p.prompt_len
            &&& q.request == p.request
            &&& q.tenant == p.tenant
            &&& q.class == p.class
            &&& q.arrived_at == p.arrived_at
            &&& q.first_token_at == p.first_token_at
            &&& q.last_token_at == p.last_token_at
            &&& q.max_tokens == p.max_tokens
            &&& q.state is Finished <==> p.state is Finished
        }),
{
    lemma_stepped(s, now);
    assert(super::model::same_stream(s.seqs[id.0 - 1], s.stepped(now).0.seqs[id.0 - 1]));
}

/// A deadline that lies beyond the end of time is the end of time: it never comes
/// before the moment that it counts from.
pub proof fn law_a_deadline_never_comes_before_its_start(s: SchedView, id: SequenceId)
    requires
        s.known(id),
    ensures
        ({
            let q = s.seq_of(id);
            let (start, budget) = match q.last_token_at {
                Some(last) => (
                    last as int,
                    match q.class {
                        ServiceClass::Interactive => 50_000int,
                        ServiceClass::Batch => 200_000,
                        ServiceClass::Background => 1_000_000,
                    },
                ),
                None => (
                    q.arrived_at as int,
                    match q.class {
                        ServiceClass::Interactive => 500_000int,
                        ServiceClass::Batch => 10_000_000,
                        ServiceClass::Background => 120_000_000,
                    },
                ),
            };
            &&& start + budget <= u64::MAX ==> s.deadline(id) == start + budget
            &&& start + budget > u64::MAX ==> s.deadline(id) == u64::MAX
        }),
{
}

/// A sequence that is not known is never urgent.
pub proof fn law_an_unknown_sequence_is_never_urgent(s: SchedView, id: SequenceId, now: Tick)
    requires
        !s.known(id),
    ensures
        s.slack(id, now) == i64::MAX,
{
}

} // verus!
