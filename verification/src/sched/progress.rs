//! How far a pass takes the sequences it runs: what a chunk is made of, what may
//! cut it short, who owes a token after it, and that no one is run twice.
use vstd::prelude::*;

use super::backing::{
    backed, can_decode, has_room, lemma_backed_ignores_the_queue, lemma_chunk_is_backed,
    lemma_decodes_are_backed, lemma_made_room_frame, lemma_survivors_are_backed, listed,
    untouched,
};
use super::model::{
    chunk_tokens, same_stream, BatchView, PrefillChunk, SchedView, SchedulerMetrics,
};
use super::order::{
    lemma_chunk_tokens_push, lemma_decode_from, lemma_made_room, lemma_matched,
    lemma_metrics_are_free, lemma_prefill_from, lemma_prefill_ignores_the_queue, lemma_prefilled,
    lemma_queue_order_is_free, lemma_ranked, lemma_stepped, lemma_surviving,
};
use crate::ids::SequenceId;
use crate::kvcache::cache::lemma_acquired;
use crate::lists::{lemma_outside, lemma_without, outside, without};
use crate::sequence::SequenceState;
use crate::Tick;

verus! {

/// Trying a sequence with `budget` tokens left, and `reserve` blocks to keep, runs
/// it from where it stands: from its first token that is neither computed nor
/// found in the cache, over as many tokens as remain or as fit. Without chunked
/// prefill it runs to its end or not at all. Its blocks hold what was run, and it
/// generates from then on exactly where nothing remains.
pub proof fn law_a_chunk_runs_from_where_its_sequence_stands(
    s: SchedView,
    id: SequenceId,
    budget: nat,
    reserve: nat,
)
    requires
        s.wf(),
        s.open(id),
        s.prefilled(id, budget, reserve).1 is Some,
    ensures
        ({
            let q = s.seq_of(id);
            let (w, chunk) = s.prefilled(id, budget, reserve);
            let c = chunk->0;
            let found = s.cache.acquired(s.cache.matchable(q.tenant, q.tokens)).1;
            let remaining = q.tokens.len() - c.start;
            &&& c.seq == id
            &&& q.computed > 0 ==> c.start == q.computed && c.cached == q.cached_prefix_len
            &&& q.computed == 0 ==> c.start == found.len() * s.cache.block_size
            &&& q.computed == 0 && found.len() > 0 ==> c.cached == found.len() * s.cache.block_size
            &&& 0 < c.len <= remaining
            &&& c.len <= budget
            &&& c.len == remaining || (s.cfg.chunked_prefill && c.len == budget)
            &&& w.seq_of(id).computed == c.start + c.len
            &&& w.seq_of(id).tokens == q.tokens
            &&& w.seq_of(id).state == if c.len == remaining {
                SequenceState::Decoding
            } else {
                SequenceState::Prefilling
            }
            &&& w.running.contains(id)
            &&& w.table_of(id).len() * s.cache.block_size >= c.start + c.len
        }),
{
    lemma_prefilled(s, id, budget, reserve);
    let q = s.seq_of(id);
    assert(s.seqs[id.0 - 1].wf());
    lemma_acquired(s.cache, s.cache.matchable(q.tenant, q.tokens));
    if q.computed == 0 {
        lemma_matched(s, id);
    }
    let (w, chunk) = s.prefilled(id, budget, reserve);
    let c = chunk->0;
    assert(same_stream(s.seqs[id.0 - 1], w.seqs[id.0 - 1]));
    assert(w.running.contains(id)) by {
        let looked = if q.computed == 0 {
            s.matched(id)
        } else {
            s
        };
        let run = looked.running;
        if !run.contains(id) {
            assert(run.push(id)[run.len() as int] == id);
        }
    }
    crate::kvcache::reuse::law_blocks_hold_their_tokens(w.cache, (c.start + c.len) as nat);
    let (have, need, size) = (
        w.table_of(id).len(),
        w.cache.blocks_for((c.start + c.len) as nat),
        s.cache.block_size,
    );
    assert(have * size >= need * size) by (nonlinear_arith)
        requires
            have >= need,
            size >= 0,
    ;
}

/// The chunk is what its sequence was run by: it ends where the sequence stands,
/// leaves it generating exactly where that is its last token, and falls short of
/// it only where prompts may be split and the pass has no token left.
pub open spec fn charted(s: SchedView, batch: BatchView, c: PrefillChunk) -> bool {
    &&& s.known(c.seq)
    &&& c.len > 0
    &&& s.seq_of(c.seq).computed == c.start + c.len
    &&& c.start + c.len <= s.seq_of(c.seq).tokens.len()
    &&& s.seq_of(c.seq).state == if c.start + c.len == s.seq_of(c.seq).tokens.len() {
        SequenceState::Decoding
    } else {
        SequenceState::Prefilling
    }
    &&& c.start + c.len < s.seq_of(c.seq).tokens.len() ==> s.cfg.chunked_prefill
        && batch.num_tokens() >= s.cfg.max_batch_tokens
}

/// Every chunk of the pass is what its sequence was run by.
pub open spec fn all_charted(s: SchedView, batch: BatchView) -> bool {
    forall|k: int|
        0 <= k < batch.prefill.len() ==> charted(s, batch, #[trigger] batch.prefill[k])
}

/// No sequence is run twice: not by two chunks, not in two decode slots, and not by
/// a chunk and in a slot.
pub open spec fn run_once(batch: BatchView) -> bool {
    &&& forall|k: int, l: int|
        0 <= k < batch.prefill.len() && 0 <= l < batch.prefill.len() && k != l
            ==> (#[trigger] batch.prefill[k]).seq != (#[trigger] batch.prefill[l]).seq
    &&& forall|k: int, l: int|
        0 <= k < batch.prefill.len() && 0 <= l < batch.decode.len()
            ==> (#[trigger] batch.prefill[k]).seq != #[trigger] batch.decode[l]
    &&& batch.decode.no_duplicates()
}

/// The sequence is not run by a chunk.
pub open spec fn unchunked(batch: BatchView, id: SequenceId) -> bool {
    forall|k: int| 0 <= k < batch.prefill.len() ==> (#[trigger] batch.prefill[k]).seq != id
}

proof fn lemma_one_is_charted(s: SchedView, id: SequenceId, reserve: nat, batch: BatchView)
    requires
        s.wf(),
        s.open(id),
        !(s.seq_of(id).state is Decoding),
        !s.full(batch),
        backed(s, batch),
        all_charted(s, batch),
        run_once(batch),
        unchunked(batch, id),
    ensures
        ({
            let (w, chunk) = s.prefilled(id, s.budget_left(batch), reserve);
            let b = batch.with_chunk(chunk);
            &&& backed(w, b)
            &&& all_charted(w, b)
            &&& run_once(b)
            &&& forall|p: SequenceId|
                p != id && #[trigger] unchunked(batch, p) ==> unchunked(b, p)
        }),
{
    let budget = s.budget_left(batch);
    let (w, chunk) = s.prefilled(id, budget, reserve);
    let b = batch.with_chunk(chunk);
    lemma_prefilled(s, id, budget, reserve);
    lemma_chunk_is_backed(s, id, budget, reserve, batch);
    if chunk is Some {
        law_a_chunk_runs_from_where_its_sequence_stands(s, id, budget, reserve);
        lemma_chunk_tokens_push(batch.prefill, chunk->0);
        assert(b.num_tokens() == batch.num_tokens() + chunk->0.len);
    }
    assert forall|k: int| 0 <= k < b.prefill.len() implies charted(
        w,
        b,
        #[trigger] b.prefill[k],
    ) by {
        if k < batch.prefill.len() {
            let c = batch.prefill[k];
            assert(b.prefill[k] == c);
            assert(charted(s, batch, c));
            assert(c.seq != id);
            assert(w.seq_of(c.seq) == s.seq_of(c.seq));
        }
    }
    assert forall|k: int, l: int|
        0 <= k < b.prefill.len() && 0 <= l < b.decode.len() implies (#[trigger] b.prefill[k]).seq
        != #[trigger] b.decode[l] by {
        assert(can_decode(s, batch.decode[l]));
        if k < batch.prefill.len() {
            assert(b.prefill[k] == batch.prefill[k]);
        }
    }
    assert forall|k: int, l: int|
        0 <= k < b.prefill.len() && 0 <= l < b.prefill.len() && k != l implies (
    #[trigger] b.prefill[k]).seq != (#[trigger] b.prefill[l]).seq by {
        if k < batch.prefill.len() {
            assert(b.prefill[k] == batch.prefill[k]);
        }
        if l < batch.prefill.len() {
            assert(b.prefill[l] == batch.prefill[l]);
        }
    }
    assert forall|p: SequenceId| p != id && #[trigger] unchunked(batch, p) implies unchunked(
        b,
        p,
    ) by {
        assert forall|k: int| 0 <= k < b.prefill.len() implies (#[trigger] b.prefill[k]).seq
            != p by {
            if k < batch.prefill.len() {
                assert(b.prefill[k] == batch.prefill[k]);
            }
        }
    }
}

proof fn lemma_continued_are_charted(
    s: SchedView,
    batch: BatchView,
    order: Seq<SequenceId>,
    i: nat,
    reserve: nat,
)
    requires
        s.wf(),
        order.no_duplicates(),
        backed(s, batch),
        all_charted(s, batch),
        run_once(batch),
        forall|j: int| i <= j < order.len() ==> unchunked(batch, #[trigger] order[j]),
    ensures
        ({
            let (w, b) = s.prefill_from(batch, order, i, reserve);
            &&& backed(w, b)
            &&& all_charted(w, b)
            &&& run_once(b)
        }),
    decreases order.len() - i,
{
    if i >= order.len() || s.full(batch) {
    } else {
        let id = order[i as int];
        if !s.in_state(id, SequenceState::Prefilling) {
            lemma_continued_are_charted(s, batch, order, i + 1, reserve);
        } else {
            let budget = s.budget_left(batch);
            let (next, chunk) = s.prefilled(id, budget, reserve);
            let b2 = batch.with_chunk(chunk);
            assert(unchunked(batch, id));
            lemma_one_is_charted(s, id, reserve, batch);
            lemma_prefilled(s, id, budget, reserve);
            assert(!s.waiting.contains(id)) by {
                assert(s.waiting.contains(id) <==> s.waits(id));
            }
            assert(next =~= SchedView { waiting: without(s.waiting, id), ..next });
            assert forall|j: int| i + 1 <= j < order.len() implies unchunked(
                b2,
                #[trigger] order[j],
            ) by {
                assert(order[j] != id);
                assert(unchunked(batch, order[j]));
            }
            lemma_continued_are_charted(next, b2, order, i + 1, reserve);
        }
    }
}

proof fn lemma_charted_ignores_the_queue(s: SchedView, w: SchedView, batch: BatchView)
    requires
        all_charted(s, batch),
        w == (SchedView { waiting: w.waiting, ..s }),
    ensures
        all_charted(w, batch),
{
    assert forall|k: int| 0 <= k < batch.prefill.len() implies charted(
        w,
        batch,
        #[trigger] batch.prefill[k],
    ) by {
        assert(charted(s, batch, batch.prefill[k]));
    }
}

proof fn lemma_admitted_are_charted(
    s: SchedView,
    batch: BatchView,
    deferred: Seq<SequenceId>,
    ranked: Seq<SequenceId>,
    i: nat,
    reserve: nat,
)
    requires
        i <= ranked.len(),
        (SchedView { waiting: deferred + ranked.skip(i as int), ..s }).wf(),
        ranked.no_duplicates(),
        backed(s, batch),
        all_charted(s, batch),
        run_once(batch),
        forall|j: int| i <= j < ranked.len() ==> unchunked(batch, #[trigger] ranked[j]),
    ensures
        ({
            let (w, b, d) = s.admit_from(batch, deferred, ranked, i, reserve);
            &&& backed(w, b)
            &&& all_charted(w, b)
            &&& run_once(b)
        }),
    decreases ranked.len() - i,
{
    let left = ranked.skip(i as int);
    let whole = SchedView { waiting: deferred + left, ..s };
    if i < ranked.len() {
        let id = ranked[i as int];
        let rest = ranked.skip(i as int + 1);
        assert(left =~= seq![id] + rest);
        assert((deferred + left)[deferred.len() as int] == id);
        assert(whole.waiting.contains(id));
        assert(whole.waits(id));
        if s.full(batch) {
            assert(deferred.push(id) + rest =~= deferred + left);
            lemma_admitted_are_charted(s, batch, deferred.push(id), ranked, i + 1, reserve);
        } else {
            let budget = s.budget_left(batch);
            let (next, chunk) = s.prefilled(id, budget, reserve);
            lemma_prefill_ignores_the_queue(s, deferred + left, id, budget, reserve);
            lemma_prefilled(whole, id, budget, reserve);
            lemma_backed_ignores_the_queue(s, whole, batch);
            lemma_charted_ignores_the_queue(s, whole, batch);
            assert(unchunked(batch, id));
            assert(whole.full(batch) == s.full(batch));
            assert(whole.budget_left(batch) == budget);
            lemma_one_is_charted(whole, id, reserve, batch);
            let b2 = batch.with_chunk(chunk);
            let after = whole.prefilled(id, budget, reserve).0;
            lemma_backed_ignores_the_queue(after, next, b2);
            lemma_charted_ignores_the_queue(after, next, b2);
            assert forall|j: int| i + 1 <= j < ranked.len() implies unchunked(
                b2,
                #[trigger] ranked[j],
            ) by {
                assert(ranked[j] != id);
                assert(unchunked(batch, ranked[j]));
            }
            let d2 = if chunk is Some {
                deferred
            } else {
                deferred.push(id)
            };
            if chunk is Some {
                let queue = deferred + left;
                let at = queue.index_of(id);
                assert(queue[at] == id);
                assert(at == deferred.len());
                assert(without(queue, id) =~= deferred + rest);
                assert((SchedView { waiting: without(queue, id), ..next }) == SchedView {
                    waiting: deferred + rest,
                    ..next
                });
            } else {
                assert(deferred.push(id) + rest =~= deferred + left);
            }
            lemma_admitted_are_charted(next, b2, d2, ranked, i + 1, reserve);
        }
    }
}

proof fn lemma_decodes_are_distinct(
    s: SchedView,
    batch: BatchView,
    order: Seq<SequenceId>,
    i: nat,
    now: Tick,
)
    requires
        order.no_duplicates(),
        batch.decode.no_duplicates(),
        forall|j: int| i <= j < order.len() ==> !batch.decode.contains(#[trigger] order[j]),
    ensures
        s.decode_from(batch, order, i, now).1.decode.no_duplicates(),
    decreases order.len() - i,
{
    if i >= order.len() || batch.decode.len() >= s.cfg.max_batch_seqs || batch.num_tokens()
        >= s.cfg.max_batch_tokens {
    } else {
        let id = order[i as int];
        if !s.in_state(id, SequenceState::Decoding) {
            lemma_decodes_are_distinct(s, batch, order, i + 1, now);
        } else {
            let need = s.next_len(id);
            let (next, gone) = s.made_room(id, need, now, batch.preempted);
            let decode = if next.table_of(id).len() >= next.cache.blocks_for(need) {
                batch.decode.push(id)
            } else {
                batch.decode
            };
            crate::lists::lemma_push_keeps_distinct(batch.decode, id);
            let b2 = BatchView { decode, preempted: gone, ..batch };
            assert forall|j: int| i + 1 <= j < order.len() implies !b2.decode.contains(
                #[trigger] order[j],
            ) by {
                assert(order[j] != id);
                assert(!batch.decode.contains(order[j]));
            }
            lemma_decodes_are_distinct(next, b2, order, i + 1, now);
        }
    }
}

proof fn lemma_outside_is_distinct<A>(list: Seq<A>, others: Seq<A>)
    requires
        list.no_duplicates(),
    ensures
        outside(list, others).no_duplicates(),
    decreases list.len(),
{
    if list.len() > 0 {
        let rest = list.drop_last();
        lemma_outside_is_distinct(rest, others);
        lemma_outside(rest, others);
        let kept = outside(rest, others);
        if kept.contains(list.last()) {
            let k = rest.index_of(list.last());
            assert(list[k] == list.last());
        }
        if !others.contains(list.last()) {
            crate::lists::lemma_push_keeps_distinct(kept, list.last());
        }
    }
}

/// A pass runs no sequence twice, and takes each prompt as far as it can: a chunk
/// ends where its sequence stands after the step; it is cut short only with
/// chunked prefill, and then all of the token budget is in use; and its sequence
/// generates from then on exactly where the chunk ends at its last token. What has
/// a decode slot generates as well.
pub proof fn law_a_pass_takes_prompts_as_far_as_it_can(s: SchedView, now: Tick)
    requires
        s.wf(),
    ensures
        ({
            let (w, b) = s.stepped(now);
            &&& run_once(b)
            &&& forall|k: int|
                0 <= k < b.prefill.len() ==> {
                    let c = #[trigger] b.prefill[k];
                    let q = w.seq_of(c.seq);
                    &&& w.known(c.seq)
                    &&& 0 < c.len
                    &&& q.computed == c.start + c.len
                    &&& c.start + c.len <= q.tokens.len()
                    &&& q.state is Decoding <==> c.start + c.len == q.tokens.len()
                    &&& q.state is Prefilling <==> c.start + c.len < q.tokens.len()
                    &&& c.start + c.len < q.tokens.len() ==> s.cfg.chunked_prefill
                        && b.decode.len() + chunk_tokens(b.prefill) == s.cfg.max_batch_tokens
                }
            &&& forall|k: int|
                0 <= k < b.decode.len() ==> w.in_state(
                    #[trigger] b.decode[k],
                    SequenceState::Decoding,
                )
        }),
{
    let begun = SchedView {
        metrics: SchedulerMetrics { steps: s.metrics.steps.wrapping_add(1), ..s.metrics },
        ..s
    };
    lemma_stepped(s, now);
    lemma_metrics_are_free(s, begun);
    assert(chunk_tokens(Seq::empty()) == 0);
    assert forall|p: SequenceId| #[trigger] begun.running.contains(p) implies begun.known(p) by {
        assert(s.running.contains(p) <==> s.runs(p));
    }
    lemma_decode_from(begun, BatchView::empty(), s.running, 0, now);
    lemma_decodes_are_backed(begun, BatchView::empty(), s.running, 0, now);
    lemma_decodes_are_distinct(begun, BatchView::empty(), s.running, 0, now);
    let (decoded, b0) = begun.decode_from(BatchView::empty(), s.running, 0, now);
    lemma_survivors_are_backed(decoded, b0);
    lemma_outside_is_distinct(b0.decode, b0.preempted);
    lemma_surviving(decoded, b0);
    let b1 = b0.surviving();
    lemma_prefill_from(decoded, b1, s.running, 0, s.reserve());
    lemma_continued_are_charted(decoded, b1, s.running, 0, s.reserve());
    let (continued, b2) = decoded.prefill_from(b1, s.running, 0, s.reserve());
    let ranked = continued.ranked(now);
    lemma_ranked(continued, now);
    let none = Seq::<SequenceId>::empty();
    assert(none + ranked.skip(0) =~= ranked);
    let requeued = SchedView { waiting: ranked, ..continued };
    lemma_queue_order_is_free(continued, requeued);
    assert forall|j: int| 0 <= j < ranked.len() implies unchunked(b2, #[trigger] ranked[j]) by {
        assert(ranked.contains(ranked[j]));
        assert(continued.waits(ranked[j]));
        assert forall|k: int| 0 <= k < b2.prefill.len() implies (#[trigger] b2.prefill[k]).seq
            != ranked[j] by {
            assert(charted(continued, b2, b2.prefill[k]));
        }
    }
    lemma_admitted_are_charted(continued, b2, none, ranked, 0, s.reserve());
    let (admitted, b3, deferred) = continued.admit_from(b2, none, ranked, 0, s.reserve());
    lemma_backed_ignores_the_queue(admitted, s.stepped(now).0, b3);
    lemma_charted_ignores_the_queue(admitted, s.stepped(now).0, b3);
    let (w, b) = s.stepped(now);
    assert forall|k: int| 0 <= k < b.prefill.len() implies ({
        let c = #[trigger] b.prefill[k];
        let q = w.seq_of(c.seq);
        &&& w.known(c.seq)
        &&& 0 < c.len
        &&& q.computed == c.start + c.len
        &&& c.start + c.len <= q.tokens.len()
        &&& q.state is Decoding <==> c.start + c.len == q.tokens.len()
        &&& q.state is Prefilling <==> c.start + c.len < q.tokens.len()
        &&& c.start + c.len < q.tokens.len() ==> s.cfg.chunked_prefill && b.decode.len()
            + chunk_tokens(b.prefill) == s.cfg.max_batch_tokens
    }) by {
        assert(charted(w, b, b.prefill[k]));
    }
    assert forall|k: int| 0 <= k < b.decode.len() implies w.in_state(
        #[trigger] b.decode[k],
        SequenceState::Decoding,
    ) by {
        assert(can_decode(w, b.decode[k]));
    }
}

proof fn lemma_decoding_only_adds(
    s: SchedView,
    batch: BatchView,
    order: Seq<SequenceId>,
    i: nat,
    now: Tick,
)
    ensures
        batch.decode.is_prefix_of(s.decode_from(batch, order, i, now).1.decode),
    decreases order.len() - i,
{
    if i >= order.len() || batch.decode.len() >= s.cfg.max_batch_seqs || batch.num_tokens()
        >= s.cfg.max_batch_tokens {
    } else {
        let id = order[i as int];
        if !s.in_state(id, SequenceState::Decoding) {
            lemma_decoding_only_adds(s, batch, order, i + 1, now);
        } else {
            let need = s.next_len(id);
            let (next, gone) = s.made_room(id, need, now, batch.preempted);
            let decode = if next.table_of(id).len() >= next.cache.blocks_for(need) {
                batch.decode.push(id)
            } else {
                batch.decode
            };
            let b2 = BatchView { decode, preempted: gone, ..batch };
            lemma_decoding_only_adds(next, b2, order, i + 1, now);
            let all = next.decode_from(b2, order, i + 1, now).1.decode;
            assert(batch.decode =~= b2.decode.take(batch.decode.len() as int));
            assert(all.take(batch.decode.len() as int) =~= all.take(b2.decode.len() as int).take(
                batch.decode.len() as int,
            ));
        }
    }
}

/// Room that was made without evicting anyone was made, unless the sequence runs
/// alone.
proof fn lemma_room_without_eviction(
    s: SchedView,
    id: SequenceId,
    need: nat,
    now: Tick,
    gone: Seq<SequenceId>,
)
    requires
        s.wf(),
        s.in_state(id, SequenceState::Decoding),
        s.made_room(id, need, now, gone).1.len() == gone.len(),
    ensures
        ({
            let w = s.made_room(id, need, now, gone).0;
            &&& w.running == s.running
            &&& has_room(w, id, need) || s.running.len() <= 1
        }),
{
    lemma_runners_are_listed(s);
    super::backing::lemma_ensured_room(s, id, need, 0);
    let (grown, enough) = s.ensured(id, need, 0);
    if !enough {
        super::order::lemma_victim(s, s.running.len(), now, id);
        match s.victim(now, id) {
            Some(v) => {
                assert(s.runs(v));
                super::order::lemma_preempted(s, v);
                lemma_made_room(s.preempted(v), id, need, now, gone.push(v));
                assert(false);
            },
            None => {
                if s.running.len() > 1 {
                    assert(s.running[0] == s.running[1]);
                }
            },
        }
    }
}

proof fn lemma_runners_are_listed(s: SchedView)
    requires
        s.wf(),
    ensures
        listed(s),
{
    assert forall|p: SequenceId| #[trigger] s.running.contains(p) implies s.known(p) by {
        assert(s.running.contains(p) <==> s.runs(p));
    }
}

proof fn lemma_decoding_serves(
    s: SchedView,
    batch: BatchView,
    order: Seq<SequenceId>,
    i: nat,
    now: Tick,
    j: int,
)
    requires
        s.wf(),
        order.no_duplicates(),
        i <= j < order.len(),
        s.in_state(order[j], SequenceState::Decoding),
        s.running.len() > 1,
        super::order::within_limits(s, batch),
        s.runnable(batch),
        batch.prefill.len() == 0,
        batch.preempted.len() == 0,
        s.decode_from(batch, order, i, now).1.preempted.len() == 0,
    ensures
        ({
            let b = s.decode_from(batch, order, i, now).1;
            ||| b.decode.contains(order[j])
            ||| b.decode.len() >= s.cfg.max_batch_seqs
            ||| b.decode.len() >= s.cfg.max_batch_tokens
        }),
    decreases order.len() - i,
{
    assert(chunk_tokens(batch.prefill) == 0);
    if batch.decode.len() >= s.cfg.max_batch_seqs || batch.num_tokens() >= s.cfg.max_batch_tokens {
    } else {
        let id = order[i as int];
        if !s.in_state(id, SequenceState::Decoding) {
            lemma_decoding_serves(s, batch, order, i + 1, now, j);
        } else {
            let need = s.next_len(id);
            let (next, gone) = s.made_room(id, need, now, batch.preempted);
            let decode = if next.table_of(id).len() >= next.cache.blocks_for(need) {
                batch.decode.push(id)
            } else {
                batch.decode
            };
            let b2 = BatchView { decode, preempted: gone, ..batch };
            lemma_made_room(s, id, need, now, batch.preempted);
            lemma_runners_are_listed(s);
            lemma_made_room_frame(s, id, need, now, batch.preempted);
            assert(next.runnable(b2)) by {
                assert forall|k: int| 0 <= k < b2.decode.len() implies next.known(
                    #[trigger] b2.decode[k],
                ) by {
                    if k < batch.decode.len() {
                        assert(b2.decode[k] == batch.decode[k]);
                    }
                }
            }
            lemma_decode_from(next, b2, order, i + 1, now);
            lemma_room_without_eviction(s, id, need, now, batch.preempted);
            if i < j {
                assert(untouched(s, next, order[j]));
                lemma_decoding_serves(next, b2, order, i + 1, now, j);
            } else {
                lemma_decoding_only_adds(next, b2, order, i + 1, now);
                let all = next.decode_from(b2, order, i + 1, now).1.decode;
                assert(b2.decode[batch.decode.len() as int] == id);
                assert(all.take(b2.decode.len() as int)[batch.decode.len() as int] == id);
                assert(all[batch.decode.len() as int] == id);
            }
        }
    }
}

/// Every sequence that generates has a slot in the pass, as long as the pass has
/// slots: where nobody had to be evicted, and it does not run alone, it is left
/// out only where the pass is full of others that generate.
pub proof fn law_every_generating_sequence_has_a_slot(s: SchedView, now: Tick, id: SequenceId)
    requires
        s.wf(),
        s.in_state(id, SequenceState::Decoding),
        s.running.len() > 1,
        s.stepped(now).1.preempted.len() == 0,
    ensures
        ({
            let b = s.stepped(now).1;
            ||| b.decode.contains(id)
            ||| b.decode.len() >= s.cfg.max_batch_seqs
            ||| b.decode.len() >= s.cfg.max_batch_tokens
        }),
{
    let begun = SchedView {
        metrics: SchedulerMetrics { steps: s.metrics.steps.wrapping_add(1), ..s.metrics },
        ..s
    };
    lemma_metrics_are_free(s, begun);
    assert(chunk_tokens(Seq::empty()) == 0);
    lemma_decode_from(begun, BatchView::empty(), s.running, 0, now);
    let (decoded, b0) = begun.decode_from(BatchView::empty(), s.running, 0, now);
    lemma_surviving(decoded, b0);
    let b1 = b0.surviving();
    lemma_prefill_from(decoded, b1, s.running, 0, s.reserve());
    let (continued, b2) = decoded.prefill_from(b1, s.running, 0, s.reserve());
    let ranked = continued.ranked(now);
    lemma_ranked(continued, now);
    let none = Seq::<SequenceId>::empty();
    assert(none + ranked.skip(0) =~= ranked);
    let requeued = SchedView { waiting: ranked, ..continued };
    lemma_queue_order_is_free(continued, requeued);
    super::order::lemma_admit_from(continued, b2, none, ranked, 0, s.reserve());
    assert(s.runs(id));
    assert(s.running.contains(id));
    let j = s.running.index_of(id);
    lemma_decoding_serves(begun, BatchView::empty(), s.running, 0, now, j);
    lemma_nothing_outside(b0.decode, b0.preempted);
}

proof fn lemma_nothing_outside<A>(list: Seq<A>, others: Seq<A>)
    requires
        others.len() == 0,
    ensures
        outside(list, others) == list,
    decreases list.len(),
{
    if list.len() > 0 {
        lemma_nothing_outside(list.drop_last(), others);
        assert(outside(list, others) =~= list);
    }
}

proof fn lemma_making_room_makes_no_decoder(
    s: SchedView,
    id: SequenceId,
    need: nat,
    now: Tick,
    gone: Seq<SequenceId>,
    p: SequenceId,
)
    requires
        listed(s),
        s.known(id),
        s.made_room(id, need, now, gone).0.in_state(p, SequenceState::Decoding),
    ensures
        s.in_state(p, SequenceState::Decoding),
    decreases s.running.len(),
{
    let (grown, enough) = s.ensured(id, need, 0);
    if !enough {
        match s.victim(now, id) {
            Some(v) => if s.running.contains(v) {
                let next = s.preempted(v);
                lemma_without(s.running, v);
                assert forall|q: SequenceId| #[trigger] next.running.contains(
                    q,
                ) implies next.known(q) by {
                    assert(s.running.contains(q));
                }
                assert(s.known(v));
                lemma_making_room_makes_no_decoder(next, id, need, now, gone.push(v), p);
                assert(next.in_state(p, SequenceState::Decoding));
            },
            None => {},
        }
    }
}

/// All of these generate, and are among those.
spec fn generate_among(s: SchedView, order: Seq<SequenceId>, ids: Seq<SequenceId>) -> bool {
    forall|k: int|
        0 <= k < ids.len() ==> s.in_state(#[trigger] ids[k], SequenceState::Decoding)
            && order.contains(ids[k])
}

proof fn lemma_slots_are_for_generating(
    s0: SchedView,
    s: SchedView,
    batch: BatchView,
    order: Seq<SequenceId>,
    i: nat,
    now: Tick,
)
    requires
        listed(s),
        forall|p: SequenceId|
            #![trigger s.in_state(p, SequenceState::Decoding)]
            s.in_state(p, SequenceState::Decoding) ==> s0.in_state(p, SequenceState::Decoding),
        generate_among(s0, order, batch.decode),
    ensures
        generate_among(s0, order, s.decode_from(batch, order, i, now).1.decode),
    decreases order.len() - i,
{
    if i >= order.len() || batch.decode.len() >= s.cfg.max_batch_seqs || batch.num_tokens()
        >= s.cfg.max_batch_tokens {
    } else {
        let id = order[i as int];
        if !s.in_state(id, SequenceState::Decoding) {
            lemma_slots_are_for_generating(s0, s, batch, order, i + 1, now);
        } else {
            let need = s.next_len(id);
            let (next, gone) = s.made_room(id, need, now, batch.preempted);
            let decode = if next.table_of(id).len() >= next.cache.blocks_for(need) {
                batch.decode.push(id)
            } else {
                batch.decode
            };
            let b2 = BatchView { decode, preempted: gone, ..batch };
            lemma_made_room_frame(s, id, need, now, batch.preempted);
            assert forall|p: SequenceId|
                #![trigger next.in_state(p, SequenceState::Decoding)]
                next.in_state(p, SequenceState::Decoding) implies s0.in_state(
                p,
                SequenceState::Decoding,
            ) by {
                lemma_making_room_makes_no_decoder(s, id, need, now, batch.preempted, p);
                assert(s.in_state(p, SequenceState::Decoding));
            }
            assert forall|k: int| 0 <= k < b2.decode.len() implies s0.in_state(
                #[trigger] b2.decode[k],
                SequenceState::Decoding,
            ) && order.contains(b2.decode[k]) by {
                if k < batch.decode.len() {
                    assert(b2.decode[k] == batch.decode[k]);
                } else {
                    assert(b2.decode[k] == order[i as int]);
                }
            }
            assert(generate_among(s0, order, b2.decode));
            lemma_slots_are_for_generating(s0, next, b2, order, i + 1, now);
            assert(s.decode_from(batch, order, i, now) == next.decode_from(b2, order, i + 1, now));
        }
    }
}

/// Only a sequence that was generating before the step has a slot to generate in it.
pub proof fn law_slots_go_to_generating_sequences(s: SchedView, now: Tick, k: int)
    requires
        0 <= k < s.stepped(now).1.decode.len(),
        s.wf(),
    ensures
        s.in_state(s.stepped(now).1.decode[k], SequenceState::Decoding),
        s.running.contains(s.stepped(now).1.decode[k]),
{
    let begun = SchedView {
        metrics: SchedulerMetrics { steps: s.metrics.steps.wrapping_add(1), ..s.metrics },
        ..s
    };
    let none = BatchView::empty();
    lemma_runners_are_listed(s);
    assert(listed(begun)) by {
        assert forall|p: SequenceId| #[trigger] begun.running.contains(p) implies begun.known(
            p,
        ) by {
            assert(s.running.contains(p));
        }
    }
    lemma_slots_are_for_generating(begun, begun, none, s.running, 0, now);
    let (decoded, b0) = begun.decode_from(none, s.running, 0, now);
    let b1 = b0.surviving();
    lemma_outside(b0.decode, b0.preempted);
    super::laws::lemma_prefill_keeps_decodes(decoded, b1, s.running, 0, s.reserve());
    let (continued, b2) = decoded.prefill_from(b1, s.running, 0, s.reserve());
    let ranked = continued.ranked(now);
    super::laws::lemma_admission_keeps_decodes(
        continued,
        b2,
        Seq::empty(),
        ranked,
        0,
        s.reserve(),
    );
    let id = s.stepped(now).1.decode[k];
    assert(b1.decode[k] == id);
    assert(b1.decode.contains(id));
    let j = b0.decode.index_of(id);
    assert(b0.decode[j] == id);
    assert(begun.in_state(id, SequenceState::Decoding));
}

proof fn lemma_slots_go_in_order(
    s: SchedView,
    batch: BatchView,
    order: Seq<SequenceId>,
    i: nat,
    now: Tick,
    a: int,
    b: int,
)
    requires
        s.wf(),
        order.no_duplicates(),
        i <= a < b < order.len(),
        s.in_state(order[a], SequenceState::Decoding),
        !batch.decode.contains(order[b]),
        s.running.len() > 1,
        super::order::within_limits(s, batch),
        s.runnable(batch),
        batch.prefill.len() == 0,
        batch.preempted.len() == 0,
        s.decode_from(batch, order, i, now).1.preempted.len() == 0,
        s.decode_from(batch, order, i, now).1.decode.contains(order[b]),
    ensures
        s.decode_from(batch, order, i, now).1.decode.contains(order[a]),
    decreases order.len() - i,
{
    assert(chunk_tokens(batch.prefill) == 0);
    if batch.decode.len() >= s.cfg.max_batch_seqs || batch.num_tokens() >= s.cfg.max_batch_tokens {
    } else {
        let id = order[i as int];
        if !s.in_state(id, SequenceState::Decoding) {
            lemma_slots_go_in_order(s, batch, order, i + 1, now, a, b);
        } else {
            let need = s.next_len(id);
            let (next, gone) = s.made_room(id, need, now, batch.preempted);
            let decode = if next.table_of(id).len() >= next.cache.blocks_for(need) {
                batch.decode.push(id)
            } else {
                batch.decode
            };
            let b2 = BatchView { decode, preempted: gone, ..batch };
            lemma_made_room(s, id, need, now, batch.preempted);
            lemma_runners_are_listed(s);
            lemma_made_room_frame(s, id, need, now, batch.preempted);
            assert(next.runnable(b2)) by {
                assert forall|k: int| 0 <= k < b2.decode.len() implies next.known(
                    #[trigger] b2.decode[k],
                ) by {
                    if k < batch.decode.len() {
                        assert(b2.decode[k] == batch.decode[k]);
                    }
                }
            }
            lemma_decode_from(next, b2, order, i + 1, now);
            lemma_room_without_eviction(s, id, need, now, batch.preempted);
            assert(order[b] != id);
            if b2.decode.contains(order[b]) {
                let k = b2.decode.index_of(order[b]);
                assert(batch.decode[k] == order[b]);
            }
            if i < a {
                assert(untouched(s, next, order[a]));
                lemma_slots_go_in_order(next, b2, order, i + 1, now, a, b);
            } else {
                lemma_decoding_only_adds(next, b2, order, i + 1, now);
                let all = next.decode_from(b2, order, i + 1, now).1.decode;
                assert(b2.decode[batch.decode.len() as int] == id);
                assert(all.take(b2.decode.len() as int)[batch.decode.len() as int] == id);
                assert(all[batch.decode.len() as int] == id);
            }
        }
    }
}

/// Slots are given in the order of the running list: where nobody had to be evicted,
/// and one has a slot, all that generate and stand before it have one too.
pub proof fn law_slots_are_given_in_running_order(s: SchedView, now: Tick, a: int, b: int)
    requires
        s.wf(),
        0 <= a < b < s.running.len(),
        s.in_state(s.running[a], SequenceState::Decoding),
        s.stepped(now).1.preempted.len() == 0,
        s.stepped(now).1.decode.contains(s.running[b]),
    ensures
        s.stepped(now).1.decode.contains(s.running[a]),
{
    let begun = SchedView {
        metrics: SchedulerMetrics { steps: s.metrics.steps.wrapping_add(1), ..s.metrics },
        ..s
    };
    lemma_metrics_are_free(s, begun);
    assert(chunk_tokens(Seq::empty()) == 0);
    lemma_decode_from(begun, BatchView::empty(), s.running, 0, now);
    let (decoded, b0) = begun.decode_from(BatchView::empty(), s.running, 0, now);
    let b1 = b0.surviving();
    super::laws::lemma_prefill_keeps_decodes(decoded, b1, s.running, 0, s.reserve());
    let (continued, b2) = decoded.prefill_from(b1, s.running, 0, s.reserve());
    let ranked = continued.ranked(now);
    super::laws::lemma_admission_keeps_decodes(
        continued,
        b2,
        Seq::empty(),
        ranked,
        0,
        s.reserve(),
    );
    lemma_nothing_outside(b0.decode, b0.preempted);
    lemma_slots_go_in_order(begun, BatchView::empty(), s.running, 0, now, a, b);
}

/// A pass has no more tokens and no more sequences than it may: every decode slot is
/// a token, every chunk is as many as it is long, and both are sequences.
pub proof fn law_a_pass_stays_within_its_limits(s: SchedView, now: Tick)
    requires
        s.wf(),
    ensures
        ({
            let b = s.stepped(now).1;
            &&& b.decode.len() + chunk_tokens(b.prefill) <= s.cfg.max_batch_tokens
            &&& b.decode.len() + b.prefill.len() <= s.cfg.max_batch_seqs
        }),
{
    lemma_stepped(s, now);
}

/// The tokens of chunks add up.
pub proof fn law_chunks_add_up(chunks: Seq<PrefillChunk>, c: PrefillChunk)
    ensures
        chunk_tokens(Seq::empty()) == 0,
        chunk_tokens(chunks.push(c)) == chunk_tokens(chunks) + c.len,
{
    lemma_chunk_tokens_push(chunks, c);
}

/// A sequence that is tried is run wherever it can be: where something of it remains
/// that fits the pass, a part with chunked prefill and the whole without, and its
/// blocks hold that or the pool can give what is missing and keep the reserve.
pub proof fn law_a_sequence_is_run_wherever_it_fits(
    s: SchedView,
    id: SequenceId,
    budget: nat,
    reserve: nat,
)
    requires
        s.wf(),
        s.open(id),
    ensures
        ({
            let looked = if s.seq_of(id).computed == 0 {
                s.matched(id)
            } else {
                s
            };
            let q = looked.seq_of(id);
            let remaining = q.tokens.len() - q.computed;
            let run = if remaining <= budget {
                remaining
            } else if s.cfg.chunked_prefill {
                budget as int
            } else {
                0
            };
            let missing = looked.cache.blocks_for((q.computed + run) as nat) - looked.table_of(
                id,
            ).len();
            s.prefilled(id, budget, reserve).1 is Some <==> run > 0 && (missing <= 0
                || looked.cache.allocatable() >= missing + reserve)
        }),
{
    assert(s.seqs[id.0 - 1].wf());
    if s.seq_of(id).computed == 0 {
        lemma_matched(s, id);
        assert(s.matched(id).seqs[id.0 - 1].wf());
    }
}

proof fn lemma_continuing_ignores_the_queue(
    s: SchedView,
    t: SchedView,
    batch: BatchView,
    order: Seq<SequenceId>,
    i: nat,
    reserve: nat,
)
    requires
        t == (SchedView { waiting: t.waiting, ..s }),
    ensures
        s.prefill_from(batch, order, i, reserve).1 == t.prefill_from(batch, order, i, reserve).1,
        s.prefill_from(batch, order, i, reserve).0.waiting == s.waiting,
    decreases order.len() - i,
{
    if i >= order.len() || s.full(batch) {
    } else {
        let id = order[i as int];
        if !s.in_state(id, SequenceState::Prefilling) {
            lemma_continuing_ignores_the_queue(s, t, batch, order, i + 1, reserve);
        } else {
            let budget = s.budget_left(batch);
            lemma_prefill_ignores_the_queue(s, t.waiting, id, budget, reserve);
            let (next, chunk) = s.prefilled(id, budget, reserve);
            let other = t.prefilled(id, budget, reserve).0;
            assert(other == SchedView { waiting: t.waiting, ..next });
            lemma_continuing_ignores_the_queue(
                next,
                other,
                batch.with_chunk(chunk),
                order,
                i + 1,
                reserve,
            );
        }
    }
}

proof fn lemma_evicted_are_queued(
    s: SchedView,
    id: SequenceId,
    need: nat,
    now: Tick,
    gone: Seq<SequenceId>,
    p: SequenceId,
)
    ensures
        ({
            let (w, all) = s.made_room(id, need, now, gone);
            &&& w.waiting.contains(p) ==> s.waiting.contains(p) || all.contains(p)
            &&& gone.contains(p) ==> all.contains(p)
        }),
    decreases s.running.len(),
{
    let (grown, enough) = s.ensured(id, need, 0);
    if !enough {
        match s.victim(now, id) {
            Some(v) => if s.running.contains(v) {
                let k = s.running.index_of(v);
                assert(s.running[k] == v);
                let next = s.preempted(v);
                assert(next.running == s.running.remove(k));
                lemma_evicted_are_queued(next, id, need, now, gone.push(v), p);
                if next.waiting.contains(p) {
                    let j = next.waiting.index_of(p);
                    if j < s.waiting.len() {
                        assert(s.waiting[j] == p);
                    } else {
                        assert(gone.push(v)[gone.len() as int] == p);
                    }
                }
                if gone.contains(p) {
                    assert(gone.push(v)[gone.index_of(p)] == p);
                }
            },
            None => {},
        }
    }
}

proof fn lemma_decoding_queues_the_evicted(
    s: SchedView,
    batch: BatchView,
    order: Seq<SequenceId>,
    i: nat,
    now: Tick,
    p: SequenceId,
)
    ensures
        ({
            let (w, b) = s.decode_from(batch, order, i, now);
            &&& w.waiting.contains(p) ==> s.waiting.contains(p) || b.preempted.contains(p)
            &&& batch.preempted.contains(p) ==> b.preempted.contains(p)
        }),
    decreases order.len() - i,
{
    if i >= order.len() || batch.decode.len() >= s.cfg.max_batch_seqs || batch.num_tokens()
        >= s.cfg.max_batch_tokens {
    } else {
        let id = order[i as int];
        if !s.in_state(id, SequenceState::Decoding) {
            lemma_decoding_queues_the_evicted(s, batch, order, i + 1, now, p);
        } else {
            let need = s.next_len(id);
            lemma_evicted_are_queued(s, id, need, now, batch.preempted, p);
            let (next, gone) = s.made_room(id, need, now, batch.preempted);
            let decode = if next.table_of(id).len() >= next.cache.blocks_for(need) {
                batch.decode.push(id)
            } else {
                batch.decode
            };
            let b2 = BatchView { decode, preempted: gone, ..batch };
            lemma_decoding_queues_the_evicted(next, b2, order, i + 1, now, p);
        }
    }
}

/// The chunks from `n` on are of these sequences.
spec fn chunks_are_of(chunks: Seq<PrefillChunk>, n: nat, ids: Seq<SequenceId>) -> bool {
    forall|k: int| n <= k < chunks.len() ==> ids.contains((#[trigger] chunks[k]).seq)
}

proof fn lemma_admitted_were_queued(
    s: SchedView,
    batch: BatchView,
    deferred: Seq<SequenceId>,
    ranked: Seq<SequenceId>,
    i: nat,
    reserve: nat,
)
    ensures
        chunks_are_of(
            s.admit_from(batch, deferred, ranked, i, reserve).1.prefill,
            batch.prefill.len(),
            ranked,
        ),
    decreases ranked.len() - i,
{
    if i < ranked.len() {
        let id = ranked[i as int];
        if s.full(batch) {
            lemma_admitted_were_queued(s, batch, deferred.push(id), ranked, i + 1, reserve);
        } else {
            let (next, chunk) = s.prefilled(id, s.budget_left(batch), reserve);
            let b2 = batch.with_chunk(chunk);
            let d2 = if chunk is Some {
                deferred
            } else {
                deferred.push(id)
            };
            lemma_admitted_were_queued(next, b2, d2, ranked, i + 1, reserve);
            super::urgency::lemma_admitting_only_adds(next, b2, d2, ranked, i + 1, reserve);
            let b = next.admit_from(b2, d2, ranked, i + 1, reserve).1;
            assert(s.admit_from(batch, deferred, ranked, i, reserve) == next.admit_from(
                b2,
                d2,
                ranked,
                i + 1,
                reserve,
            ));
            assert forall|k: int|
                batch.prefill.len() <= k < b.prefill.len() implies ranked.contains(
                (#[trigger] b.prefill[k]).seq,
            ) by {
                if k < b2.prefill.len() {
                    assert(b.prefill.take(b2.prefill.len() as int)[k] == b2.prefill[k]);
                    assert(b2.prefill[k].seq == ranked[i as int]);
                }
            }
        }
    }
}

/// Prompts in flight come before new work: the first chunks of a pass are the same
/// whatever is waiting to start, and all others are of sequences that were waiting,
/// or were evicted in this step.
pub proof fn law_new_work_displaces_no_prompt_in_flight(
    s: SchedView,
    queue: Seq<SequenceId>,
    now: Tick,
) -> (first: nat)
    ensures
        ({
            let b = s.stepped(now).1;
            let c = (SchedView { waiting: queue, ..s }).stepped(now).1;
            &&& first <= b.prefill.len()
            &&& first <= c.prefill.len()
            &&& b.prefill.take(first as int) == c.prefill.take(first as int)
            &&& forall|k: int|
                first <= k < b.prefill.len() ==> s.waiting.contains((#[trigger] b.prefill[k]).seq)
                    || b.preempted.contains(b.prefill[k].seq)
            &&& forall|k: int|
                first <= k < c.prefill.len() ==> queue.contains((#[trigger] c.prefill[k]).seq)
                    || c.preempted.contains(c.prefill[k].seq)
        }),
{
    let t = SchedView { waiting: queue, ..s };
    let metrics = SchedulerMetrics { steps: s.metrics.steps.wrapping_add(1), ..s.metrics };
    let s0 = SchedView { metrics, ..s };
    let t0 = SchedView { metrics, ..t };
    let none = Seq::<SequenceId>::empty();
    super::laws::lemma_decode_ignores_the_queue(s0, t0, BatchView::empty(), s.running, 0, now);
    let (s1, b0) = s0.decode_from(BatchView::empty(), s.running, 0, now);
    let (t1, c0) = t0.decode_from(BatchView::empty(), s.running, 0, now);
    let b1 = b0.surviving();
    lemma_continuing_ignores_the_queue(s1, t1, b1, s.running, 0, s.reserve());
    lemma_continuing_ignores_the_queue(t1, s1, b1, s.running, 0, s.reserve());
    let (s2, b2) = s1.prefill_from(b1, s.running, 0, s.reserve());
    let (t2, c2) = t1.prefill_from(b1, s.running, 0, s.reserve());
    lemma_ranked(s2, now);
    lemma_ranked(t2, now);
    super::urgency::lemma_admitting_only_adds(s2, b2, none, s2.ranked(now), 0, s.reserve());
    super::urgency::lemma_admitting_only_adds(t2, c2, none, t2.ranked(now), 0, s.reserve());
    lemma_admitted_were_queued(s2, b2, none, s2.ranked(now), 0, s.reserve());
    lemma_admitted_were_queued(t2, c2, none, t2.ranked(now), 0, s.reserve());
    super::laws::lemma_prefill_keeps_decodes(s1, b1, s.running, 0, s.reserve());
    super::laws::lemma_prefill_keeps_decodes(t1, b1, s.running, 0, s.reserve());
    super::laws::lemma_admission_keeps_decodes(s2, b2, none, s2.ranked(now), 0, s.reserve());
    super::laws::lemma_admission_keeps_decodes(t2, c2, none, t2.ranked(now), 0, s.reserve());
    let b = s.stepped(now).1;
    let c = t.stepped(now).1;
    let first = b2.prefill.len();
    assert forall|k: int| first <= k < b.prefill.len() implies s.waiting.contains(
        (#[trigger] b.prefill[k]).seq,
    ) || b.preempted.contains(b.prefill[k].seq) by {
        let p = b.prefill[k].seq;
        lemma_decoding_queues_the_evicted(s0, BatchView::empty(), s.running, 0, now, p);
    }
    assert forall|k: int| first <= k < c.prefill.len() implies queue.contains(
        (#[trigger] c.prefill[k]).seq,
    ) || c.preempted.contains(c.prefill[k].seq) by {
        let p = c.prefill[k].seq;
        lemma_decoding_queues_the_evicted(t0, BatchView::empty(), s.running, 0, now, p);
    }
    first
}

} // verus!
