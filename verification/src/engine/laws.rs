//! What holds of the engine as a whole.
use vstd::prelude::*;

use super::model::{
    chunk_work, decode_work, decodes_work, pass_work, prefill_work, EngineView, NoticeView,
    WorkView,
};
use crate::backend::executor::context_seed_spec;
use crate::backend::tokenizer::Tokenizer;
use crate::backend::PassCost;
use crate::ids::{RequestId, SequenceId};
use crate::request::RequestView;
use crate::sched::backing::{backed, can_decode, can_prefill, law_a_pass_has_its_memory};
use crate::sched::model::{FinishedView, PrefillChunk, SchedView};
use crate::sched::order::lemma_stepped;
use crate::sched::urgency::lemma_more_tokens_more_blocks;
use crate::sequence::FinishReason;
use crate::TokenId;

verus! {

/// How many of the notices tell that the sequence has ended.
pub open spec fn endings(notices: Seq<NoticeView>, id: SequenceId) -> nat
    decreases notices.len(),
{
    if notices.len() == 0 {
        0
    } else {
        endings(notices.drop_last(), id) + if notices.last().seq == id
            && notices.last().event is Done {
            1nat
        } else {
            0nat
        }
    }
}

proof fn lemma_endings_concat(a: Seq<NoticeView>, b: Seq<NoticeView>, id: SequenceId)
    ensures
        endings(a + b, id) == endings(a, id) + endings(b, id),
    decreases b.len(),
{
    if b.len() == 0 {
        assert(a + b =~= a);
    } else {
        assert((a + b).drop_last() =~= a + b.drop_last());
        lemma_endings_concat(a, b.drop_last(), id);
    }
}

proof fn lemma_endings_one(n: NoticeView, id: SequenceId)
    ensures
        endings(seq![n], id) == if n.seq == id && n.event is Done {
            1nat
        } else {
            0nat
        },
{
    assert(seq![n].drop_last() =~= Seq::<NoticeView>::empty());
    assert(endings(Seq::<NoticeView>::empty(), id) == 0);
}

/// One where the engine lets go of the sequence between the two states.
pub open spec fn lets_go(v: EngineView, w: EngineView, id: SequenceId) -> nat {
    if v.serves(id) && !w.serves(id) {
        1
    } else {
        0
    }
}

proof fn lemma_emitting_ends_nothing<T: Tokenizer>(
    v: EngineView,
    t: T,
    tokens: Seq<(SequenceId, TokenId)>,
    n: nat,
    id: SequenceId,
)
    requires
        n <= tokens.len(),
    ensures
        endings(v.emitted_all(t, tokens, n).1, id) == 0,
        v.emitted_all(t, tokens, n).0.serves(id) <==> v.serves(id),
    decreases n,
{
    if n > 0 {
        let m = (n - 1) as nat;
        lemma_emitting_ends_nothing(v, t, tokens, m, id);
        let (u, told) = v.emitted_all(t, tokens, m);
        let more = u.emitted(t, tokens[n - 1].0, tokens[n - 1].1).1;
        lemma_endings_concat(told, more, id);
        if u.serves(tokens[n - 1].0) {
            lemma_endings_one(more[0], id);
            assert(more =~= seq![more[0]]);
        }
    }
}

proof fn lemma_retiring_ends_once(
    v: EngineView,
    seq: SequenceId,
    reason: FinishReason,
    id: SequenceId,
)
    ensures
        endings(v.retired(seq, reason).1, id) == lets_go(v, v.retired(seq, reason).0, id),
        v.retired(seq, reason).0.serves(id) ==> v.serves(id),
{
    if v.serves(seq) {
        lemma_endings_one(v.farewell(seq, reason), id);
    }
}

proof fn lemma_stops_end_once(v: EngineView, stops: Seq<SequenceId>, n: nat, id: SequenceId)
    requires
        n <= stops.len(),
    ensures
        endings(v.stopped_all(stops, n).1, id) == lets_go(v, v.stopped_all(stops, n).0, id),
        v.stopped_all(stops, n).0.serves(id) ==> v.serves(id),
    decreases n,
{
    if n > 0 {
        let m = (n - 1) as nat;
        lemma_stops_end_once(v, stops, m, id);
        let (u, told) = v.stopped_all(stops, m);
        let seq = stops[n - 1];
        let halted = EngineView { sched: u.sched.retired(seq, FinishReason::Stop).0, ..u };
        lemma_retiring_ends_once(halted, seq, FinishReason::Stop, id);
        lemma_endings_concat(told, halted.retired(seq, FinishReason::Stop).1, id);
        assert(halted.serves(id) <==> u.serves(id));
    }
}

proof fn lemma_finishes_end_once(v: EngineView, done: Seq<FinishedView>, n: nat, id: SequenceId)
    requires
        n <= done.len(),
    ensures
        endings(v.retired_all(done, n).1, id) == lets_go(v, v.retired_all(done, n).0, id),
        v.retired_all(done, n).0.serves(id) ==> v.serves(id),
    decreases n,
{
    if n > 0 {
        let m = (n - 1) as nat;
        lemma_finishes_end_once(v, done, m, id);
        let (u, told) = v.retired_all(done, m);
        lemma_retiring_ends_once(u, done[n - 1].seq, done[n - 1].reason, id);
        lemma_endings_concat(told, u.retired(done[n - 1].seq, done[n - 1].reason).1, id);
    }
}

/// A client is told that its sequence ended exactly when the engine lets go of
/// it, and once: settling a pass announces one end for every sequence it ends,
/// and none for any other.
pub proof fn law_settling_announces_every_end_once<T: Tokenizer>(
    v: EngineView,
    t: T,
    drawn: Seq<(SequenceId, TokenId)>,
    id: SequenceId,
)
    ensures
        endings(v.settled(t, drawn).1, id) == lets_go(v, v.settled(t, drawn).0, id),
{
    let kept = v.sampled(drawn, drawn.len());
    let stops = v.stopped(drawn, drawn.len());
    let (sched, done) = v.sched.fed(kept, kept.len(), v.now);
    let v0 = EngineView { sched, ..v };
    lemma_emitting_ends_nothing(v0, t, kept, kept.len(), id);
    let (v1, told1) = v0.emitted_all(t, kept, kept.len());
    lemma_stops_end_once(v1, stops, stops.len(), id);
    let (v2, told2) = v1.stopped_all(stops, stops.len());
    lemma_finishes_end_once(v2, done, done.len(), id);
    let (v3, told3) = v2.retired_all(done, done.len());
    lemma_endings_concat(told1, told2, id);
    lemma_endings_concat(told1 + told2, told3, id);
    assert(v0.serves(id) <==> v.serves(id));
}

/// Cancelling a request announces one end for every sequence it ends, and none
/// for any other.
pub proof fn law_cancelling_announces_every_end_once(
    v: EngineView,
    request: RequestId,
    id: SequenceId,
)
    ensures
        endings(v.cancelled(request).1, id) == lets_go(v, v.cancelled(request).0, id),
{
    let (sched, done) = v.sched.cancelled(request, v.sched.seqs.len());
    let v0 = EngineView { sched, ..v };
    lemma_finishes_end_once(v0, done, done.len(), id);
    assert(v0.serves(id) <==> v.serves(id));
}

/// How many of the notices bring the sequence a token.
pub open spec fn tokens_sent(notices: Seq<NoticeView>, id: SequenceId) -> nat
    decreases notices.len(),
{
    if notices.len() == 0 {
        0
    } else {
        tokens_sent(notices.drop_last(), id) + if notices.last().seq == id
            && notices.last().event is Token {
            1nat
        } else {
            0nat
        }
    }
}

proof fn lemma_tokens_sent_concat(a: Seq<NoticeView>, b: Seq<NoticeView>, id: SequenceId)
    ensures
        tokens_sent(a + b, id) == tokens_sent(a, id) + tokens_sent(b, id),
    decreases b.len(),
{
    if b.len() == 0 {
        assert(a + b =~= a);
    } else {
        assert((a + b).drop_last() =~= a + b.drop_last());
        lemma_tokens_sent_concat(a, b.drop_last(), id);
    }
}

proof fn lemma_tokens_sent_one(n: NoticeView, id: SequenceId)
    ensures
        tokens_sent(seq![n], id) == if n.seq == id && n.event is Token {
            1nat
        } else {
            0nat
        },
{
    assert(seq![n].drop_last() =~= Seq::<NoticeView>::empty());
    assert(tokens_sent(Seq::<NoticeView>::empty(), id) == 0);
}

/// The tokens that the notices bring the sequence are numbered one by one,
/// starting with `first`.
pub open spec fn numbered(notices: Seq<NoticeView>, id: SequenceId, first: nat) -> bool {
    forall|i: int|
        0 <= i < notices.len() && (#[trigger] notices[i]).seq == id && notices[i].event is Token
            ==> notices[i].event->index == first + tokens_sent(notices.take(i), id)
}

/// Every end that the notices bring the sequence reports `tokens` tokens.
pub open spec fn reported(notices: Seq<NoticeView>, id: SequenceId, tokens: nat) -> bool {
    forall|i: int|
        0 <= i < notices.len() && (#[trigger] notices[i]).seq == id && notices[i].event is Done
            ==> notices[i].event->usage.completion_tokens == tokens
}

proof fn lemma_emitting_counts<T: Tokenizer>(
    v: EngineView,
    t: T,
    tokens: Seq<(SequenceId, TokenId)>,
    n: nat,
    id: SequenceId,
)
    requires
        n <= tokens.len(),
        v.serves(id),
        v.active_of(id).emitted + n <= usize::MAX,
    ensures
        v.emitted_all(t, tokens, n).0.serves(id),
        tokens_sent(v.emitted_all(t, tokens, n).1, id) <= n,
        v.emitted_all(t, tokens, n).0.active_of(id).emitted == v.active_of(id).emitted
            + tokens_sent(v.emitted_all(t, tokens, n).1, id),
        numbered(v.emitted_all(t, tokens, n).1, id, v.active_of(id).emitted as nat),
        forall|i: int|
            0 <= i < v.emitted_all(t, tokens, n).1.len() ==> (#[trigger] v.emitted_all(
                t,
                tokens,
                n,
            ).1[i]).event is Token,
    decreases n,
{
    if n > 0 {
        let m = (n - 1) as nat;
        lemma_emitting_counts(v, t, tokens, m, id);
        let (u, told) = v.emitted_all(t, tokens, m);
        let more = u.emitted(t, tokens[n - 1].0, tokens[n - 1].1).1;
        lemma_tokens_sent_concat(told, more, id);
        if u.serves(tokens[n - 1].0) {
            lemma_tokens_sent_one(more[0], id);
            assert(more =~= seq![more[0]]);
        } else {
            assert(told + more =~= told);
        }
        let all = told + more;
        assert forall|i: int|
            0 <= i < all.len() && (#[trigger] all[i]).seq == id
                && all[i].event is Token implies all[i].event->index == v.active_of(id).emitted
            + tokens_sent(all.take(i), id) by {
            if i < told.len() {
                assert(all.take(i) =~= told.take(i));
                assert(told[i] == all[i]);
            } else {
                assert(all.take(i) =~= told);
            }
        }
    }
}

proof fn lemma_stops_report(v: EngineView, stops: Seq<SequenceId>, n: nat, id: SequenceId)
    requires
        n <= stops.len(),
        v.serves(id),
    ensures
        v.stopped_all(stops, n).0.serves(id) ==> v.stopped_all(stops, n).0.active_of(id)
            == v.active_of(id),
        reported(v.stopped_all(stops, n).1, id, v.active_of(id).emitted as nat),
        forall|i: int|
            0 <= i < v.stopped_all(stops, n).1.len() ==> (#[trigger] v.stopped_all(
                stops,
                n,
            ).1[i]).event is Done,
    decreases n,
{
    if n > 0 {
        let m = (n - 1) as nat;
        lemma_stops_report(v, stops, m, id);
        lemma_stops_end_once(v, stops, m, id);
        let (u, told) = v.stopped_all(stops, m);
        let halted = EngineView { sched: u.sched.retired(stops[n - 1], FinishReason::Stop).0, ..u };
        let more = halted.retired(stops[n - 1], FinishReason::Stop).1;
        let all = told + more;
        assert forall|i: int|
            0 <= i < all.len() && (#[trigger] all[i]).seq == id
                && all[i].event is Done implies all[i].event->usage.completion_tokens
            == v.active_of(id).emitted by {
            if i < told.len() {
                assert(told[i] == all[i]);
            } else {
                assert(all[i] == more[0]);
            }
        }
    }
}

proof fn lemma_finishes_report(v: EngineView, done: Seq<FinishedView>, n: nat, id: SequenceId)
    requires
        n <= done.len(),
        v.serves(id),
    ensures
        v.retired_all(done, n).0.serves(id) ==> v.retired_all(done, n).0.active_of(id)
            == v.active_of(id),
        reported(v.retired_all(done, n).1, id, v.active_of(id).emitted as nat),
    decreases n,
{
    if n > 0 {
        let m = (n - 1) as nat;
        lemma_finishes_report(v, done, m, id);
        lemma_finishes_end_once(v, done, m, id);
        let (u, told) = v.retired_all(done, m);
        let more = u.retired(done[n - 1].seq, done[n - 1].reason).1;
        let all = told + more;
        assert forall|i: int|
            0 <= i < all.len() && (#[trigger] all[i]).seq == id
                && all[i].event is Done implies all[i].event->usage.completion_tokens
            == v.active_of(id).emitted by {
            if i < told.len() {
                assert(told[i] == all[i]);
            } else {
                assert(all[i] == more[0]);
            }
        }
    }
}

proof fn lemma_ends_send_no_token(notices: Seq<NoticeView>, id: SequenceId)
    requires
        forall|i: int| 0 <= i < notices.len() ==> (#[trigger] notices[i]).event is Done,
    ensures
        tokens_sent(notices, id) == 0,
    decreases notices.len(),
{
    if notices.len() > 0 {
        let rest = notices.drop_last();
        assert forall|i: int| 0 <= i < rest.len() implies (#[trigger] rest[i]).event is Done by {
            assert(notices[i] == rest[i]);
        }
        lemma_ends_send_no_token(rest, id);
        assert(notices.last() == notices[notices.len() - 1]);
    }
}

proof fn lemma_no_end_is_reported(notices: Seq<NoticeView>, id: SequenceId)
    requires
        endings(notices, id) == 0,
    ensures
        forall|i: int|
            0 <= i < notices.len() ==> !((#[trigger] notices[i]).seq == id
                && notices[i].event is Done),
    decreases notices.len(),
{
    if notices.len() > 0 {
        let rest = notices.drop_last();
        lemma_no_end_is_reported(rest, id);
        assert forall|i: int| 0 <= i < notices.len() implies !((#[trigger] notices[i]).seq == id
            && notices[i].event is Done) by {
            if i < rest.len() {
                assert(rest[i] == notices[i]);
            } else {
                assert(notices[i] == notices.last());
            }
        }
    }
}

/// A client's accounting adds up: the tokens it is sent are numbered on from
/// those it had, and the usage at the end counts every token it was sent.
pub proof fn law_usage_counts_the_tokens_sent<T: Tokenizer>(
    v: EngineView,
    t: T,
    drawn: Seq<(SequenceId, TokenId)>,
    id: SequenceId,
)
    requires
        v.serves(id),
        v.active_of(id).emitted + drawn.len() <= usize::MAX,
    ensures
        numbered(v.settled(t, drawn).1, id, v.active_of(id).emitted as nat),
        reported(
            v.settled(t, drawn).1,
            id,
            v.active_of(id).emitted as nat + tokens_sent(v.settled(t, drawn).1, id),
        ),
{
    let kept = v.sampled(drawn, drawn.len());
    lemma_sampled_is_no_longer(v, drawn, drawn.len());
    let stops = v.stopped(drawn, drawn.len());
    let (sched, done) = v.sched.fed(kept, kept.len(), v.now);
    let v0 = EngineView { sched, ..v };
    lemma_emitting_counts(v0, t, kept, kept.len(), id);
    let (v1, told1) = v0.emitted_all(t, kept, kept.len());
    lemma_stops_report(v1, stops, stops.len(), id);
    lemma_stops_end_once(v1, stops, stops.len(), id);
    let (v2, told2) = v1.stopped_all(stops, stops.len());
    lemma_finishes_end_once(v2, done, done.len(), id);
    let (v3, told3) = v2.retired_all(done, done.len());
    if v2.serves(id) {
        lemma_finishes_report(v2, done, done.len(), id);
    } else {
        lemma_no_end_is_reported(told3, id);
    }
    lemma_finishes_are_ends(v2, done, done.len());
    lemma_ends_send_no_token(told2, id);
    lemma_ends_send_no_token(told3, id);
    lemma_tokens_sent_concat(told1, told2, id);
    lemma_tokens_sent_concat(told1 + told2, told3, id);
    let all = told1 + told2 + told3;
    assert forall|i: int|
        0 <= i < all.len() && (#[trigger] all[i]).seq == id
            && all[i].event is Token implies all[i].event->index == v.active_of(id).emitted
        + tokens_sent(all.take(i), id) by {
        assert(i < told1.len()) by {
            if told1.len() <= i < told1.len() + told2.len() {
                assert(all[i] == told2[i - told1.len()]);
            } else if told1.len() + told2.len() <= i {
                assert(all[i] == told3[i - told1.len() - told2.len()]);
            }
        }
        assert(all[i] == told1[i]);
        assert(all.take(i) =~= told1.take(i));
    }
    assert forall|i: int|
        0 <= i < all.len() && (#[trigger] all[i]).seq == id
            && all[i].event is Done implies all[i].event->usage.completion_tokens
        == v.active_of(id).emitted + tokens_sent(all, id) by {
        if i < told1.len() {
            assert(all[i] == told1[i]);
        } else if i < told1.len() + told2.len() {
            assert(all[i] == told2[i - told1.len()]);
        } else {
            assert(all[i] == told3[i - told1.len() - told2.len()]);
        }
    }
}

proof fn lemma_finishes_are_ends(v: EngineView, done: Seq<FinishedView>, n: nat)
    requires
        n <= done.len(),
    ensures
        forall|i: int|
            0 <= i < v.retired_all(done, n).1.len() ==> (#[trigger] v.retired_all(
                done,
                n,
            ).1[i]).event is Done,
    decreases n,
{
    if n > 0 {
        lemma_finishes_are_ends(v, done, (n - 1) as nat);
    }
}

proof fn lemma_sampled_is_no_longer(v: EngineView, drawn: Seq<(SequenceId, TokenId)>, n: nat)
    ensures
        v.sampled(drawn, n).len() <= n,
    decreases n,
{
    if n > 0 {
        lemma_sampled_is_no_longer(v, drawn, (n - 1) as nat);
    }
}

/// What a decode runs depends on the sequence's tokens alone: however much of
/// its context was served from the cache, the work is the same, and so is the
/// seed that stands for it.
pub proof fn law_a_decode_is_the_same_warm_or_cold(
    warm: SchedView,
    cold: SchedView,
    id: SequenceId,
)
    requires
        warm.seq_of(id).tokens == cold.seq_of(id).tokens,
        0 < warm.seq_of(id).tokens.len() <= usize::MAX,
    ensures
        decode_work(warm, id).tokens == decode_work(cold, id).tokens,
        decode_work(warm, id).position == decode_work(cold, id).position,
        context_seed_spec(
            decode_work(warm, id).tokens,
            decode_work(warm, id).position as usize,
        ) == context_seed_spec(
            decode_work(cold, id).tokens,
            decode_work(cold, id).position as usize,
        ),
{
}

/// The clock moves on with every pass, however short, until it runs out.
pub proof fn law_every_pass_takes_time(v: EngineView, cost: PassCost)
    requires
        v.now + cost.duration_us < u64::MAX,
    ensures
        v.passed(cost).now > v.now,
        v.passed(cost).now >= v.now + cost.duration_us,
{
}

/// Where nothing can run, the clock moves on all the same, until it runs out.
pub proof fn law_a_blocked_step_takes_time(v: EngineView)
    requires
        v.sched.stepped(v.now).1.prefill.len() == 0,
        v.sched.stepped(v.now).1.decode.len() == 0,
        v.now + 1_000 <= u64::MAX,
    ensures
        v.begun().now == v.now + 1_000,
{
}

/// A request that brings its own seed draws the same whatever the engine's seed
/// and whenever it arrives.
pub proof fn law_a_seeded_request_is_reproducible(
    v: EngineView,
    w: EngineView,
    request: RequestView,
    eos: TokenId,
)
    requires
        request.params.seed is Some,
    ensures
        v.newcomer(request, eos).sampler == w.newcomer(request, eos).sampler,
{
}

/// The blocks of the work hold all the tokens up to its last.
pub open spec fn has_its_blocks(s: SchedView, work: WorkView) -> bool {
    work.blocks.len() >= s.cache.blocks_for(work.position + work.tokens.len())
}

proof fn lemma_chunks_have_their_blocks(s: SchedView, chunks: Seq<PrefillChunk>, n: nat)
    requires
        n <= chunks.len(),
        forall|k: int| 0 <= k < chunks.len() ==> can_prefill(s, #[trigger] chunks[k]),
        forall|k: int|
            0 <= k < chunks.len() ==> (#[trigger] chunks[k]).start + chunks[k].len <= s.seq_of(
                chunks[k].seq,
            ).tokens.len(),
    ensures
        forall|k: int|
            0 <= k < prefill_work(s, chunks, n).len() ==> has_its_blocks(
                s,
                #[trigger] prefill_work(s, chunks, n)[k],
            ),
    decreases n,
{
    if n > 0 {
        lemma_chunks_have_their_blocks(s, chunks, (n - 1) as nat);
        let c = chunks[n - 1];
        assert(can_prefill(s, c));
        assert(has_its_blocks(s, chunk_work(s, c)));
        let earlier = prefill_work(s, chunks, (n - 1) as nat);
        let all = prefill_work(s, chunks, n);
        assert forall|k: int| 0 <= k < all.len() implies has_its_blocks(s, #[trigger] all[k]) by {
            if k < earlier.len() {
                assert(all[k] == earlier[k]);
            }
        }
    }
}

proof fn lemma_decodes_have_their_blocks(s: SchedView, ids: Seq<SequenceId>, n: nat)
    requires
        s.wf(),
        n <= ids.len(),
        forall|k: int| 0 <= k < ids.len() ==> can_decode(s, #[trigger] ids[k]),
    ensures
        forall|k: int|
            0 <= k < decodes_work(s, ids, n).len() ==> has_its_blocks(
                s,
                #[trigger] decodes_work(s, ids, n)[k],
            ),
    decreases n,
{
    if n > 0 {
        lemma_decodes_have_their_blocks(s, ids, (n - 1) as nat);
        let id = ids[n - 1];
        assert(can_decode(s, id));
        assert(s.seqs[id.0 - 1].wf());
        let len = s.seq_of(id).tokens.len();
        lemma_more_tokens_more_blocks(s.cache, len, s.next_len(id));
        assert(len > 0 ==> has_its_blocks(s, decode_work(s, id)));
        let earlier = decodes_work(s, ids, (n - 1) as nat);
        let all = decodes_work(s, ids, n);
        assert forall|k: int| 0 <= k < all.len() implies has_its_blocks(s, #[trigger] all[k]) by {
            if k < earlier.len() {
                assert(all[k] == earlier[k]);
            }
        }
    }
}

/// No pass asks for more than there is memory for: the blocks of every piece of
/// its work hold all the tokens up to the last one it computes.
pub proof fn law_the_work_of_a_pass_has_its_blocks(v: EngineView, i: int)
    requires
        v.wf(),
        0 <= i < pass_work(v.begun().sched, v.sched.stepped(v.now).1).len(),
    ensures
        has_its_blocks(
            v.begun().sched,
            pass_work(v.begun().sched, v.sched.stepped(v.now).1)[i],
        ),
{
    let (s, batch) = v.sched.stepped(v.now);
    lemma_stepped(v.sched, v.now);
    law_a_pass_has_its_memory(v.sched, v.now);
    assert(backed(s, batch));
    lemma_chunks_have_their_blocks(s, batch.prefill, batch.prefill.len());
    lemma_decodes_have_their_blocks(s, batch.decode, batch.decode.len());
    let chunks = prefill_work(s, batch.prefill, batch.prefill.len());
    let decodes = decodes_work(s, batch.decode, batch.decode.len());
    if i < chunks.len() {
        assert(pass_work(s, batch)[i] == chunks[i]);
    } else {
        assert(pass_work(s, batch)[i] == decodes[i - chunks.len()]);
    }
}

} // verus!
