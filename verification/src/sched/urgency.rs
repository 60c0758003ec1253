//! That work starts in the order of its urgency.
use vstd::prelude::*;

use super::backing::{lemma_made_room_frame, listed, untouched};
use super::model::{chunk_tokens, same_stream, BatchView, SchedView, SchedulerMetrics};
use super::order::{
    lemma_admit_from, lemma_chunk_tokens_push, lemma_decode_from, lemma_matched,
    lemma_metrics_are_free, lemma_prefill_from, lemma_prefill_ignores_the_queue, lemma_prefilled,
    lemma_queue_order_is_free, lemma_ranked, lemma_runnable_with_chunk, lemma_stepped,
    lemma_surviving, within_limits,
};
use crate::ids::SequenceId;
use crate::kvcache::cache::CacheView;
use crate::kvcache::BlockHash;
use crate::lists::without;
use crate::sequence::SequenceState;
use crate::Tick;

verus! {

/// There are blocks for all that the sequence has, beyond those held back.
pub open spec fn has_blocks_to_spare(s: SchedView, id: SequenceId) -> bool {
    s.cache.allocatable() >= s.reserve() + s.cache.blocks_for(s.seq_of(id).tokens.len())
}

pub proof fn lemma_more_tokens_more_blocks(v: CacheView, a: nat, b: nat)
    requires
        a <= b,
        v.block_size > 0,
    ensures
        v.blocks_for(a) <= v.blocks_for(b),
{
    let n = v.block_size as int;
    vstd::arithmetic::div_mod::lemma_div_is_ordered(a as int, b as int, n);
    vstd::arithmetic::div_mod::lemma_fundamental_div_mod(a as int, n);
    vstd::arithmetic::div_mod::lemma_fundamental_div_mod(b as int, n);
    if a as int / n == b as int / n {
        assert(a as int % n <= b as int % n);
    }
}

proof fn lemma_without_is_shorter<A>(list: Seq<A>, item: A)
    ensures
        without(list, item).len() <= list.len(),
        forall|b: A| #[trigger] without(list, item).contains(b) ==> list.contains(b),
{
    let rest = without(list, item);
    assert forall|b: A| #[trigger] rest.contains(b) implies list.contains(b) by {
        let p = rest.index_of(b);
        if list.contains(item) && p >= list.index_of(item) {
            assert(list[p + 1] == b);
        } else {
            assert(list[p] == b);
        }
    }
}

proof fn lemma_acquiring_takes(v: CacheView, hashes: Seq<BlockHash>)
    ensures
        v.acquired(hashes).0.allocatable() <= v.allocatable(),
    decreases hashes.len(),
{
    if hashes.len() > 0 {
        let looked = CacheView { prefix: v.prefix.looked_up(hashes[0]), ..v };
        if v.prefix.by_hash.contains_key(hashes[0].0) {
            let b = v.prefix.by_hash[hashes[0].0];
            if v.refs[b.0 as int] != u32::MAX {
                lemma_without_is_shorter(looked.prefix.stale, b);
                lemma_acquiring_takes(looked.referenced(b), hashes.drop_first());
            }
        }
    }
}

proof fn lemma_allocating_takes(v: CacheView, n: nat)
    ensures
        v.allocated(n).allocatable() <= v.allocatable(),
    decreases n,
{
    if n > 0 {
        lemma_allocating_takes(v, (n - 1) as nat);
    }
}

/// Trying to start a sequence gives no block back. With chunks of any length,
/// blocks to spare and some budget, a sequence that waits starts.
proof fn lemma_try(s: SchedView, id: SequenceId, budget: nat, reserve: nat)
    requires
        s.wf(),
        s.waits(id),
        s.cfg.chunked_prefill,
        budget > 0,
    ensures
        ({
            let (next, chunk) = s.prefilled(id, budget, reserve);
            &&& next.cache.allocatable() <= s.cache.allocatable()
            &&& chunk is None ==> next.cache.allocatable() < reserve + s.cache.blocks_for(
                s.seq_of(id).tokens.len(),
            )
        }),
{
    let q0 = s.seq_of(id);
    let looked = if q0.computed == 0 {
        s.matched(id)
    } else {
        s
    };
    assert(s.seqs[id.0 - 1].has_work());
    if q0.computed == 0 {
        lemma_matched(s, id);
        lemma_acquiring_takes(s.cache, s.cache.matchable(q0.tenant, q0.tokens));
    }
    let q = looked.seq_of(id);
    let len = looked.chunk_len((q.tokens.len() - q.computed) as nat, budget);
    let have = looked.table_of(id).len();
    let need = looked.cache.blocks_for(q.computed + len);
    assert(same_stream(s.seqs[id.0 - 1], looked.seqs[id.0 - 1])) by {
        if q0.computed == 0 {
            assert(s.same_streams(looked));
        }
    }
    lemma_more_tokens_more_blocks(looked.cache, q.computed + len, q.tokens.len());
    if need > have {
        lemma_allocating_takes(looked.cache, (need - have) as nat);
    }
}

/// Once the pass is full, everyone who is left is deferred.
proof fn lemma_full_defers(
    s: SchedView,
    batch: BatchView,
    deferred: Seq<SequenceId>,
    ranked: Seq<SequenceId>,
    i: nat,
    reserve: nat,
)
    requires
        i <= ranked.len(),
        s.full(batch),
    ensures
        s.admit_from(batch, deferred, ranked, i, reserve) == (
            s,
            batch,
            deferred + ranked.skip(i as int),
        ),
    decreases ranked.len() - i,
{
    if i < ranked.len() {
        let id = ranked[i as int];
        lemma_full_defers(s, batch, deferred.push(id), ranked, i + 1, reserve);
        assert(deferred.push(id) + ranked.skip(i as int + 1) =~= deferred + ranked.skip(i as int));
    } else {
        assert(deferred + ranked.skip(i as int) =~= deferred);
    }
}

/// Who is deferred was deferred before or stands in what is left of the queue.
proof fn lemma_deferred_were_queued(
    s: SchedView,
    batch: BatchView,
    deferred: Seq<SequenceId>,
    ranked: Seq<SequenceId>,
    i: nat,
    reserve: nat,
    p: SequenceId,
)
    requires
        i <= ranked.len(),
        s.admit_from(batch, deferred, ranked, i, reserve).2.contains(p),
    ensures
        deferred.contains(p) || ranked.skip(i as int).contains(p),
    decreases ranked.len() - i,
{
    if i < ranked.len() {
        let id = ranked[i as int];
        let (next, b2, d2) = if s.full(batch) {
            (s, batch, deferred.push(id))
        } else {
            let (next, chunk) = s.prefilled(id, s.budget_left(batch), reserve);
            (
                next,
                batch.with_chunk(chunk),
                if chunk is Some {
                    deferred
                } else {
                    deferred.push(id)
                },
            )
        };
        lemma_deferred_were_queued(next, b2, d2, ranked, i + 1, reserve, p);
        let left = ranked.skip(i as int);
        let rest = ranked.skip(i as int + 1);
        assert(left[0] == id);
        if rest.contains(p) {
            assert(left[rest.index_of(p) + 1] == p);
        } else {
            let at = d2.index_of(p);
            if at < deferred.len() {
                assert(deferred[at] == p);
            }
        }
    }
}

/// The queue as it stands while sequences are tried.
spec fn trying(
    s: SchedView,
    batch: BatchView,
    deferred: Seq<SequenceId>,
    ranked: Seq<SequenceId>,
    i: nat,
) -> bool {
    &&& i <= ranked.len()
    &&& (SchedView { waiting: deferred + ranked.skip(i as int), ..s }).wf()
    &&& within_limits(s, batch)
    &&& s.runnable(batch)
    &&& s.cfg.chunked_prefill
}

/// What trying one more sequence leaves: the queue in order, no more blocks than
/// before, and blocks of the same size.
proof fn lemma_tried(
    s: SchedView,
    batch: BatchView,
    deferred: Seq<SequenceId>,
    ranked: Seq<SequenceId>,
    i: nat,
    reserve: nat,
)
    requires
        trying(s, batch, deferred, ranked, i),
        i < ranked.len(),
        !s.full(batch),
    ensures
        ({
            let id = ranked[i as int];
            let (next, chunk) = s.prefilled(id, s.budget_left(batch), reserve);
            let d2 = if chunk is Some {
                deferred
            } else {
                deferred.push(id)
            };
            &&& trying(next, batch.with_chunk(chunk), d2, ranked, i + 1)
            &&& s.same_streams(next)
            &&& next.cache.block_size == s.cache.block_size
            &&& next.cache.allocatable() <= s.cache.allocatable()
            &&& chunk is None ==> next.cache.allocatable() < reserve + s.cache.blocks_for(
                s.seq_of(id).tokens.len(),
            )
            &&& s.known(id)
        }),
{
    let left = ranked.skip(i as int);
    let whole = SchedView { waiting: deferred + left, ..s };
    let id = ranked[i as int];
    let rest = ranked.skip(i as int + 1);
    assert(left =~= seq![id] + rest);
    assert((deferred + left)[deferred.len() as int] == id);
    assert(whole.waiting.contains(id));
    assert(whole.waits(id));
    let budget = s.budget_left(batch);
    let (next, chunk) = s.prefilled(id, budget, reserve);
    lemma_prefill_ignores_the_queue(s, deferred + left, id, budget, reserve);
    lemma_prefilled(whole, id, budget, reserve);
    lemma_try(whole, id, budget, reserve);
    lemma_runnable_with_chunk(s, next, batch, chunk);
    if chunk is Some {
        lemma_chunk_tokens_push(batch.prefill, chunk->0);
        let queue = deferred + left;
        let at = queue.index_of(id);
        assert(queue[at] == id);
        assert(at == deferred.len());
        assert(without(queue, id) =~= deferred + rest);
        assert((SchedView { waiting: without(queue, id), ..next }) == SchedView {
            waiting: deferred + rest,
            ..next
        });
    } else {
        assert(deferred.push(id) + rest =~= deferred + left);
    }
}

/// Trying the rest of the queue gives no block back.
proof fn lemma_admission_takes(
    s: SchedView,
    batch: BatchView,
    deferred: Seq<SequenceId>,
    ranked: Seq<SequenceId>,
    i: nat,
    reserve: nat,
)
    requires
        trying(s, batch, deferred, ranked, i),
    ensures
        ({
            let w = s.admit_from(batch, deferred, ranked, i, reserve).0;
            &&& s.same_streams(w)
            &&& w.cache.block_size == s.cache.block_size
            &&& w.cache.allocatable() <= s.cache.allocatable()
        }),
    decreases ranked.len() - i,
{
    if i < ranked.len() {
        if s.full(batch) {
            lemma_full_defers(s, batch, deferred, ranked, i, reserve);
        } else {
            let id = ranked[i as int];
            let (next, chunk) = s.prefilled(id, s.budget_left(batch), reserve);
            let d2 = if chunk is Some {
                deferred
            } else {
                deferred.push(id)
            };
            lemma_tried(s, batch, deferred, ranked, i, reserve);
            lemma_admission_takes(next, batch.with_chunk(chunk), d2, ranked, i + 1, reserve);
            let w = next.admit_from(batch.with_chunk(chunk), d2, ranked, i + 1, reserve).0;
            assert forall|k: int| 0 <= k < s.seqs.len() implies same_stream(
                s.seqs[k],
                #[trigger] w.seqs[k],
            ) by {
                assert(same_stream(s.seqs[k], next.seqs[k]));
            }
        }
    }
}

/// Where a sequence is left although there are blocks for it, nobody behind it
/// in the queue starts.
proof fn lemma_nobody_behind_starts(
    s: SchedView,
    batch: BatchView,
    deferred: Seq<SequenceId>,
    ranked: Seq<SequenceId>,
    i: nat,
    reserve: nat,
    k: int,
    j: int,
)
    requires
        trying(s, batch, deferred, ranked, i),
        ranked.no_duplicates(),
        i <= k <= j < ranked.len(),
        !deferred.contains(ranked[k]),
        ({
            let (w, b, d) = s.admit_from(batch, deferred, ranked, i, reserve);
            &&& d.contains(ranked[k])
            &&& w.cache.allocatable() >= reserve + w.cache.blocks_for(
                w.seq_of(ranked[k]).tokens.len(),
            )
        }),
    ensures
        s.admit_from(batch, deferred, ranked, i, reserve).2.contains(ranked[j]),
    decreases ranked.len() - i,
{
    let id = ranked[i as int];
    if s.full(batch) {
        lemma_full_defers(s, batch, deferred, ranked, i, reserve);
        let all = deferred + ranked.skip(i as int);
        assert(all[deferred.len() + j - i] == ranked[j]);
    } else {
        let (next, chunk) = s.prefilled(id, s.budget_left(batch), reserve);
        let b2 = batch.with_chunk(chunk);
        let d2 = if chunk is Some {
            deferred
        } else {
            deferred.push(id)
        };
        lemma_tried(s, batch, deferred, ranked, i, reserve);
        lemma_admission_takes(next, b2, d2, ranked, i + 1, reserve);
        let (w, b, d) = next.admit_from(b2, d2, ranked, i + 1, reserve);
        if i < k {
            if d2.contains(ranked[k]) {
                let at = d2.index_of(ranked[k]);
                assert(at < deferred.len() ==> deferred[at] == ranked[k]);
                assert(id != ranked[k]);
            }
            lemma_nobody_behind_starts(next, b2, d2, ranked, i + 1, reserve, k, j);
        } else if chunk is Some {
            lemma_deferred_were_queued(next, b2, d2, ranked, i + 1, reserve, id);
            let rest = ranked.skip(i as int + 1);
            let at = rest.index_of(id);
            assert(ranked[at + i + 1] == id);
        } else {
            assert(same_stream(s.seqs[id.0 - 1], next.seqs[id.0 - 1]));
            assert(same_stream(next.seqs[id.0 - 1], w.seqs[id.0 - 1]));
            assert(false);
        }
    }
}

proof fn lemma_making_room_starts_nobody(
    s: SchedView,
    id: SequenceId,
    need: nat,
    now: Tick,
    gone: Seq<SequenceId>,
)
    ensures
        forall|p: SequenceId| #[trigger]
            s.made_room(id, need, now, gone).0.running.contains(p) ==> s.running.contains(p),
    decreases s.running.len(),
{
    if !s.ensured(id, need, 0).1 {
        match s.victim(now, id) {
            Some(v) => if s.running.contains(v) {
                lemma_without_is_shorter(s.running, v);
                let next = s.preempted(v);
                lemma_making_room_starts_nobody(next, id, need, now, gone.push(v));
                let w = next.made_room(id, need, now, gone.push(v)).0;
                assert forall|p: SequenceId| #[trigger] w.running.contains(
                    p,
                ) implies s.running.contains(p) by {
                    assert(next.running.contains(p));
                }
            },
            None => {},
        }
    }
}

proof fn lemma_decoding_starts_nobody(
    s: SchedView,
    batch: BatchView,
    order: Seq<SequenceId>,
    i: nat,
    now: Tick,
)
    ensures
        forall|p: SequenceId| #[trigger]
            s.decode_from(batch, order, i, now).0.running.contains(p) ==> s.running.contains(p),
    decreases order.len() - i,
{
    if i >= order.len() || batch.decode.len() >= s.cfg.max_batch_seqs || batch.num_tokens()
        >= s.cfg.max_batch_tokens {
    } else {
        let id = order[i as int];
        if !s.in_state(id, SequenceState::Decoding) {
            lemma_decoding_starts_nobody(s, batch, order, i + 1, now);
            assert(s.decode_from(batch, order, i, now) == s.decode_from(batch, order, i + 1, now));
        } else {
            let need = s.next_len(id);
            lemma_making_room_starts_nobody(s, id, need, now, batch.preempted);
            let (next, gone) = s.made_room(id, need, now, batch.preempted);
            let decode = if next.table_of(id).len() >= next.cache.blocks_for(need) {
                batch.decode.push(id)
            } else {
                batch.decode
            };
            let b2 = BatchView { decode, preempted: gone, ..batch };
            lemma_decoding_starts_nobody(next, b2, order, i + 1, now);
            let w = next.decode_from(b2, order, i + 1, now).0;
            assert(s.decode_from(batch, order, i, now).0 == w);
            assert forall|p: SequenceId| #[trigger] w.running.contains(
                p,
            ) implies s.running.contains(p) by {
                assert(next.running.contains(p));
            }
        }
    }
}

proof fn lemma_continuing_starts_nobody(
    s: SchedView,
    batch: BatchView,
    order: Seq<SequenceId>,
    i: nat,
    reserve: nat,
)
    requires
        s.wf(),
    ensures
        s.prefill_from(batch, order, i, reserve).0.running == s.running,
    decreases order.len() - i,
{
    if i >= order.len() || s.full(batch) {
    } else {
        let id = order[i as int];
        if !s.in_state(id, SequenceState::Prefilling) {
            lemma_continuing_starts_nobody(s, batch, order, i + 1, reserve);
        } else {
            let budget = s.budget_left(batch);
            let (next, chunk) = s.prefilled(id, budget, reserve);
            lemma_prefilled(s, id, budget, reserve);
            assert(s.runs(id));
            assert(s.running.contains(id));
            assert(!s.waiting.contains(id)) by {
                assert(s.waiting.contains(id) <==> s.waits(id));
            }
            assert(next =~= SchedView { waiting: without(s.waiting, id), ..next });
            lemma_continuing_starts_nobody(next, batch.with_chunk(chunk), order, i + 1, reserve);
        }
    }
}

/// Work starts in the order of its urgency: with chunked prefill, nobody who is
/// left waiting after a step, though there are blocks to spare for them, is more
/// urgent than someone whom the step started from the queue.
pub proof fn law_the_more_urgent_start_first(
    s: SchedView,
    now: Tick,
    started: SequenceId,
    left: SequenceId,
)
    requires
        s.wf(),
        s.cfg.chunked_prefill,
        s.waiting.contains(started),
        s.stepped(now).0.running.contains(started),
        s.stepped(now).0.waiting.contains(left),
        has_blocks_to_spare(s.stepped(now).0, left),
    ensures
        s.slack(started, now) <= s.slack(left, now),
{
    let begun = SchedView {
        metrics: SchedulerMetrics { steps: s.metrics.steps.wrapping_add(1), ..s.metrics },
        ..s
    };
    let (after, _) = s.stepped(now);
    lemma_stepped(s, now);
    lemma_metrics_are_free(s, begun);
    assert(chunk_tokens(Seq::empty()) == 0);
    lemma_decode_from(begun, BatchView::empty(), s.running, 0, now);
    lemma_decoding_starts_nobody(begun, BatchView::empty(), s.running, 0, now);
    let (decoded, b0) = begun.decode_from(BatchView::empty(), s.running, 0, now);
    lemma_surviving(decoded, b0);
    let b1 = b0.surviving();
    lemma_prefill_from(decoded, b1, s.running, 0, s.reserve());
    lemma_continuing_starts_nobody(decoded, b1, s.running, 0, s.reserve());
    let (continued, b2) = decoded.prefill_from(b1, s.running, 0, s.reserve());
    let ranked = continued.ranked(now);
    lemma_ranked(continued, now);
    let none = Seq::<SequenceId>::empty();
    assert(none + ranked.skip(0) =~= ranked);
    let requeued = SchedView { waiting: ranked, ..continued };
    lemma_queue_order_is_free(continued, requeued);
    lemma_admit_from(continued, b2, none, ranked, 0, s.reserve());
    lemma_admission_takes(continued, b2, none, ranked, 0, s.reserve());
    let (admitted, b3, deferred) = continued.admit_from(b2, none, ranked, 0, s.reserve());
    // The one who started stood in the queue until then.
    assert(continued.waiting.contains(started)) by {
        assert(s.waiting.contains(started) <==> s.waits(started));
        assert(s.running.contains(started) <==> s.runs(started));
        assert(!continued.running.contains(started));
        assert(same_stream(s.seqs[started.0 - 1], decoded.seqs[started.0 - 1]));
        assert(same_stream(decoded.seqs[started.0 - 1], continued.seqs[started.0 - 1]));
        assert(continued.running.contains(started) <==> continued.runs(started));
        assert(continued.waiting.contains(started) <==> continued.waits(started));
    }
    assert(!deferred.contains(started)) by {
        assert(after.running.contains(started) <==> after.runs(started));
        assert(after.waiting.contains(started) <==> after.waits(started));
    }
    lemma_deferred_were_queued(continued, b2, none, ranked, 0, s.reserve(), left);
    assert(ranked.skip(0) =~= ranked);
    let k = ranked.index_of(left);
    let j = ranked.index_of(started);
    assert(ranked.contains(started));
    assert(after.reserve() == s.reserve());
    if k <= j {
        lemma_nobody_behind_starts(continued, b2, none, ranked, 0, s.reserve(), k, j);
        assert(false);
    }
    let leq = |a: SequenceId, b: SequenceId| continued.no_less_urgent(a, b, now);
    assert(vstd::relations::sorted_by(ranked, leq));
    assert(leq(ranked[j], ranked[k]));
    assert(after.waiting.contains(left) <==> after.waits(left));
    assert(same_stream(s.seqs[started.0 - 1], decoded.seqs[started.0 - 1]));
    assert(same_stream(decoded.seqs[started.0 - 1], continued.seqs[started.0 - 1]));
    assert(same_stream(s.seqs[left.0 - 1], decoded.seqs[left.0 - 1]));
    assert(same_stream(decoded.seqs[left.0 - 1], continued.seqs[left.0 - 1]));
}

/// Where a sequence is left although there are blocks for it, the pass is full.
proof fn lemma_left_beside_blocks(
    s: SchedView,
    batch: BatchView,
    deferred: Seq<SequenceId>,
    ranked: Seq<SequenceId>,
    i: nat,
    reserve: nat,
    k: int,
)
    requires
        trying(s, batch, deferred, ranked, i),
        ranked.no_duplicates(),
        i <= k < ranked.len(),
        !deferred.contains(ranked[k]),
        ({
            let (w, b, d) = s.admit_from(batch, deferred, ranked, i, reserve);
            &&& d.contains(ranked[k])
            &&& w.cache.allocatable() >= reserve + w.cache.blocks_for(
                w.seq_of(ranked[k]).tokens.len(),
            )
        }),
    ensures
        s.full(s.admit_from(batch, deferred, ranked, i, reserve).1),
    decreases ranked.len() - i,
{
    let id = ranked[i as int];
    if s.full(batch) {
        lemma_full_defers(s, batch, deferred, ranked, i, reserve);
    } else {
        let (next, chunk) = s.prefilled(id, s.budget_left(batch), reserve);
        let b2 = batch.with_chunk(chunk);
        let d2 = if chunk is Some {
            deferred
        } else {
            deferred.push(id)
        };
        lemma_tried(s, batch, deferred, ranked, i, reserve);
        lemma_prefill_ignores_the_queue(
            s,
            deferred + ranked.skip(i as int),
            id,
            s.budget_left(batch),
            reserve,
        );
        let whole = SchedView { waiting: deferred + ranked.skip(i as int), ..s };
        assert(whole.open(id)) by {
            assert((deferred + ranked.skip(i as int))[deferred.len() as int] == id);
            assert(whole.waiting.contains(id));
        }
        lemma_prefilled(whole, id, s.budget_left(batch), reserve);
        assert(next.cfg == s.cfg);
        lemma_admission_takes(next, b2, d2, ranked, i + 1, reserve);
        let (w, b, d) = next.admit_from(b2, d2, ranked, i + 1, reserve);
        if i < k {
            if d2.contains(ranked[k]) {
                let at = d2.index_of(ranked[k]);
                assert(at < deferred.len() ==> deferred[at] == ranked[k]);
                assert(id != ranked[k]);
            }
            lemma_left_beside_blocks(next, b2, d2, ranked, i + 1, reserve, k);
        } else if chunk is Some {
            lemma_deferred_were_queued(next, b2, d2, ranked, i + 1, reserve, id);
            let rest = ranked.skip(i as int + 1);
            let at = rest.index_of(id);
            assert(ranked[at + i + 1] == id);
        } else {
            assert(same_stream(s.seqs[id.0 - 1], next.seqs[id.0 - 1]));
            assert(same_stream(next.seqs[id.0 - 1], w.seqs[id.0 - 1]));
            assert(false);
        }
    }
}

/// Nobody waits beside a free place: with chunked prefill, a sequence that is left
/// waiting after a step, though there are blocks to spare for it, is left because
/// the pass has all the tokens or all the sequences that it may have.
pub proof fn law_nobody_waits_beside_a_free_place(s: SchedView, now: Tick, left: SequenceId)
    requires
        s.wf(),
        s.cfg.chunked_prefill,
        s.stepped(now).0.waiting.contains(left),
        has_blocks_to_spare(s.stepped(now).0, left),
    ensures
        ({
            let b = s.stepped(now).1;
            ||| b.decode.len() + chunk_tokens(b.prefill) >= s.cfg.max_batch_tokens
            ||| b.decode.len() + b.prefill.len() >= s.cfg.max_batch_seqs
        }),
{
    let begun = SchedView {
        metrics: SchedulerMetrics { steps: s.metrics.steps.wrapping_add(1), ..s.metrics },
        ..s
    };
    let (after, _) = s.stepped(now);
    lemma_stepped(s, now);
    lemma_metrics_are_free(s, begun);
    assert(chunk_tokens(Seq::empty()) == 0);
    lemma_decode_from(begun, BatchView::empty(), s.running, 0, now);
    let (decoded, b0) = begun.decode_from(BatchView::empty(), s.running, 0, now);
    lemma_surviving(decoded, b0);
    let b1 = b0.surviving();
    lemma_prefill_from(decoded, b1, s.running, 0, s.reserve());
    let (continued, b2) = decoded.prefill_from(b1, s.running, 0, s.reserve());
    let ranked = continued.ranked(now);
    lemma_ranked(continued, now);
    let none = Seq::<SequenceId>::empty();
    assert(none + ranked.skip(0) =~= ranked);
    let requeued = SchedView { waiting: ranked, ..continued };
    lemma_queue_order_is_free(continued, requeued);
    lemma_deferred_were_queued(continued, b2, none, ranked, 0, s.reserve(), left);
    assert(ranked.skip(0) =~= ranked);
    let k = ranked.index_of(left);
    assert(after.reserve() == s.reserve());
    lemma_left_beside_blocks(continued, b2, none, ranked, 0, s.reserve(), k);
}

/// Going on with a prefill in flight gives no block back, and it is put off only
/// where the blocks that it needs are not to be had.
proof fn lemma_try_in_flight(s: SchedView, id: SequenceId, budget: nat, reserve: nat)
    requires
        s.wf(),
        s.in_state(id, SequenceState::Prefilling),
        s.cfg.chunked_prefill,
        budget > 0,
    ensures
        ({
            let (next, chunk) = s.prefilled(id, budget, reserve);
            let q = s.seq_of(id);
            &&& next.cache.allocatable() <= s.cache.allocatable()
            &&& chunk is None && q.computed < q.tokens.len() ==> next.cache.allocatable() < reserve
                + s.cache.blocks_for(q.tokens.len())
        }),
{
    let q = s.seq_of(id);
    assert(s.seqs[id.0 - 1].wf());
    assert(s.seqs[id.0 - 1].state.active() ==> s.seqs[id.0 - 1].computed > 0);
    let len = s.chunk_len((q.tokens.len() - q.computed) as nat, budget);
    let have = s.table_of(id).len();
    let need = s.cache.blocks_for(q.computed + len);
    lemma_more_tokens_more_blocks(s.cache, q.computed + len, q.tokens.len());
    if need > have {
        lemma_allocating_takes(s.cache, (need - have) as nat);
    }
}

proof fn lemma_continuing_takes(
    s: SchedView,
    batch: BatchView,
    order: Seq<SequenceId>,
    i: nat,
    reserve: nat,
)
    requires
        s.wf(),
        s.cfg.chunked_prefill,
    ensures
        ({
            let (w, b) = s.prefill_from(batch, order, i, reserve);
            &&& w.cache.allocatable() <= s.cache.allocatable()
            &&& w.cache.block_size == s.cache.block_size
            &&& batch.prefill.is_prefix_of(b.prefill)
            &&& w.seqs.len() == s.seqs.len()
            &&& forall|p: SequenceId|
                s.known(p) ==> (#[trigger] w.seq_of(p)).tokens == s.seq_of(p).tokens
        }),
    decreases order.len() - i,
{
    if i >= order.len() || s.full(batch) {
    } else {
        let id = order[i as int];
        if !s.in_state(id, SequenceState::Prefilling) {
            lemma_continuing_takes(s, batch, order, i + 1, reserve);
        } else {
            let budget = s.budget_left(batch);
            let (next, chunk) = s.prefilled(id, budget, reserve);
            lemma_try_in_flight(s, id, budget, reserve);
            lemma_prefilled(s, id, budget, reserve);
            assert(!s.waiting.contains(id)) by {
                assert(s.waiting.contains(id) <==> s.waits(id));
            }
            assert(next =~= SchedView { waiting: without(s.waiting, id), ..next });
            let b2 = batch.with_chunk(chunk);
            lemma_continuing_takes(next, b2, order, i + 1, reserve);
            let (w, b) = next.prefill_from(b2, order, i + 1, reserve);
            let n = batch.prefill.len() as int;
            assert(b.prefill.take(n) =~= b.prefill.take(b2.prefill.len() as int).take(n));
            assert(b2.prefill.take(n) =~= batch.prefill);
            assert forall|p: SequenceId| s.known(p) implies (#[trigger] w.seq_of(p)).tokens
                == s.seq_of(p).tokens by {
                assert(same_stream(s.seqs[p.0 - 1], next.seqs[p.0 - 1]));
                assert(next.seq_of(p).tokens == s.seq_of(p).tokens);
            }
        }
    }
}

proof fn lemma_in_flight_goes_on(
    s: SchedView,
    batch: BatchView,
    order: Seq<SequenceId>,
    i: nat,
    reserve: nat,
    j: int,
)
    requires
        s.wf(),
        s.cfg.chunked_prefill,
        order.no_duplicates(),
        i <= j < order.len(),
        s.in_state(order[j], SequenceState::Prefilling),
        s.seq_of(order[j]).computed < s.seq_of(order[j]).tokens.len(),
    ensures
        ({
            let (w, b) = s.prefill_from(batch, order, i, reserve);
            ||| exists|k: int| 0 <= k < b.prefill.len() && (#[trigger] b.prefill[k]).seq == order[j]
            ||| s.full(b)
            ||| w.cache.allocatable() < reserve + w.cache.blocks_for(
                w.seq_of(order[j]).tokens.len(),
            )
        }),
    decreases order.len() - i,
{
    if s.full(batch) {
    } else {
        let id = order[i as int];
        if !s.in_state(id, SequenceState::Prefilling) {
            lemma_in_flight_goes_on(s, batch, order, i + 1, reserve, j);
        } else {
            let budget = s.budget_left(batch);
            let (next, chunk) = s.prefilled(id, budget, reserve);
            lemma_try_in_flight(s, id, budget, reserve);
            lemma_prefilled(s, id, budget, reserve);
            assert(!s.waiting.contains(id)) by {
                assert(s.waiting.contains(id) <==> s.waits(id));
            }
            assert(next =~= SchedView { waiting: without(s.waiting, id), ..next });
            let b2 = batch.with_chunk(chunk);
            if i < j {
                assert(order[j] != id);
                assert(next.seq_of(order[j]) == s.seq_of(order[j]));
                lemma_in_flight_goes_on(next, b2, order, i + 1, reserve, j);
                let b = next.prefill_from(b2, order, i + 1, reserve).1;
                assert(next.full(b) == s.full(b));
            } else {
                lemma_continuing_takes(next, b2, order, i + 1, reserve);
                let (w, b) = next.prefill_from(b2, order, i + 1, reserve);
                if chunk is Some {
                    let at = batch.prefill.len() as int;
                    assert(b2.prefill[at].seq == id);
                    assert(b.prefill.take(b2.prefill.len() as int)[at] == b2.prefill[at]);
                    assert(b.prefill[at].seq == id);
                } else {
                    assert(same_stream(s.seqs[id.0 - 1], next.seqs[id.0 - 1]));
                    assert(w.seq_of(id).tokens == next.seq_of(id).tokens);
                    assert(w.cache.blocks_for(w.seq_of(id).tokens.len()) == s.cache.blocks_for(
                        s.seq_of(id).tokens.len(),
                    ));
                }
            }
        }
    }
}

pub proof fn lemma_admitting_only_adds(
    s: SchedView,
    batch: BatchView,
    deferred: Seq<SequenceId>,
    ranked: Seq<SequenceId>,
    i: nat,
    reserve: nat,
)
    ensures
        batch.prefill.is_prefix_of(s.admit_from(batch, deferred, ranked, i, reserve).1.prefill),
    decreases ranked.len() - i,
{
    if i < ranked.len() {
        let id = ranked[i as int];
        if s.full(batch) {
            lemma_admitting_only_adds(s, batch, deferred.push(id), ranked, i + 1, reserve);
        } else {
            let (next, chunk) = s.prefilled(id, s.budget_left(batch), reserve);
            let b2 = batch.with_chunk(chunk);
            let d2 = if chunk is Some {
                deferred
            } else {
                deferred.push(id)
            };
            lemma_admitting_only_adds(next, b2, d2, ranked, i + 1, reserve);
            let b = next.admit_from(b2, d2, ranked, i + 1, reserve).1;
            let n = batch.prefill.len() as int;
            assert(b.prefill.take(n) =~= b.prefill.take(b2.prefill.len() as int).take(n));
            assert(b2.prefill.take(n) =~= batch.prefill);
        }
    }
}

proof fn lemma_decoding_leaves_alone(
    s: SchedView,
    batch: BatchView,
    order: Seq<SequenceId>,
    i: nat,
    now: Tick,
    p: SequenceId,
)
    requires
        listed(s),
        s.known(p),
        !(s.seq_of(p).state is Decoding),
    ensures
        ({
            let (w, b) = s.decode_from(batch, order, i, now);
            &&& batch.preempted.contains(p) ==> b.preempted.contains(p)
            &&& !b.preempted.contains(p) ==> w.seq_of(p) == s.seq_of(p)
        }),
    decreases order.len() - i,
{
    if i >= order.len() || batch.decode.len() >= s.cfg.max_batch_seqs || batch.num_tokens()
        >= s.cfg.max_batch_tokens {
    } else {
        let id = order[i as int];
        if !s.in_state(id, SequenceState::Decoding) {
            lemma_decoding_leaves_alone(s, batch, order, i + 1, now, p);
        } else {
            let need = s.next_len(id);
            lemma_made_room_frame(s, id, need, now, batch.preempted);
            let (next, gone) = s.made_room(id, need, now, batch.preempted);
            let decode = if next.table_of(id).len() >= next.cache.blocks_for(need) {
                batch.decode.push(id)
            } else {
                batch.decode
            };
            let b2 = BatchView { decode, preempted: gone, ..batch };
            if gone.contains(p) {
                lemma_evicted_stay_listed(next, b2, order, i + 1, now, p);
            } else {
                assert(untouched(s, next, p));
                lemma_decoding_leaves_alone(next, b2, order, i + 1, now, p);
            }
        }
    }
}

proof fn lemma_evicted_stay_listed(
    s: SchedView,
    batch: BatchView,
    order: Seq<SequenceId>,
    i: nat,
    now: Tick,
    p: SequenceId,
)
    requires
        listed(s),
        batch.preempted.contains(p),
    ensures
        s.decode_from(batch, order, i, now).1.preempted.contains(p),
    decreases order.len() - i,
{
    if i >= order.len() || batch.decode.len() >= s.cfg.max_batch_seqs || batch.num_tokens()
        >= s.cfg.max_batch_tokens {
    } else {
        let id = order[i as int];
        if !s.in_state(id, SequenceState::Decoding) {
            lemma_evicted_stay_listed(s, batch, order, i + 1, now, p);
        } else {
            let need = s.next_len(id);
            lemma_made_room_frame(s, id, need, now, batch.preempted);
            let (next, gone) = s.made_room(id, need, now, batch.preempted);
            let decode = if next.table_of(id).len() >= next.cache.blocks_for(need) {
                batch.decode.push(id)
            } else {
                batch.decode
            };
            lemma_evicted_stay_listed(
                next,
                BatchView { decode, preempted: gone, ..batch },
                order,
                i + 1,
                now,
                p,
            );
        }
    }
}

/// A prompt in flight goes on: with chunked prefill, a sequence that was in the
/// middle of its prompt, and was not evicted, has a chunk in the next pass, unless
/// the pass has all the tokens or sequences that it may have, or the blocks for the
/// rest of the prompt are not to be had.
pub proof fn law_a_prompt_in_flight_goes_on(s: SchedView, now: Tick, id: SequenceId)
    requires
        s.wf(),
        s.cfg.chunked_prefill,
        s.in_state(id, SequenceState::Prefilling),
        s.seq_of(id).computed < s.seq_of(id).tokens.len(),
        !s.stepped(now).1.preempted.contains(id),
        has_blocks_to_spare(s.stepped(now).0, id),
    ensures
        ({
            let b = s.stepped(now).1;
            ||| exists|k: int| 0 <= k < b.prefill.len() && (#[trigger] b.prefill[k]).seq == id
            ||| b.decode.len() + chunk_tokens(b.prefill) >= s.cfg.max_batch_tokens
            ||| b.decode.len() + b.prefill.len() >= s.cfg.max_batch_seqs
        }),
{
    let begun = SchedView {
        metrics: SchedulerMetrics { steps: s.metrics.steps.wrapping_add(1), ..s.metrics },
        ..s
    };
    let (after, _) = s.stepped(now);
    lemma_stepped(s, now);
    lemma_metrics_are_free(s, begun);
    assert(chunk_tokens(Seq::empty()) == 0);
    assert forall|p: SequenceId| #[trigger] begun.running.contains(p) implies begun.known(p) by {
        assert(s.running.contains(p) <==> s.runs(p));
    }
    lemma_decode_from(begun, BatchView::empty(), s.running, 0, now);
    lemma_decoding_leaves_alone(begun, BatchView::empty(), s.running, 0, now, id);
    let (decoded, b0) = begun.decode_from(BatchView::empty(), s.running, 0, now);
    lemma_surviving(decoded, b0);
    let b1 = b0.surviving();
    lemma_prefill_from(decoded, b1, s.running, 0, s.reserve());
    let (continued, b2) = decoded.prefill_from(b1, s.running, 0, s.reserve());
    let ranked = continued.ranked(now);
    lemma_ranked(continued, now);
    let none = Seq::<SequenceId>::empty();
    assert(none + ranked.skip(0) =~= ranked);
    let requeued = SchedView { waiting: ranked, ..continued };
    lemma_queue_order_is_free(continued, requeued);
    lemma_admit_from(continued, b2, none, ranked, 0, s.reserve());
    lemma_admission_takes(continued, b2, none, ranked, 0, s.reserve());
    lemma_admitting_only_adds(continued, b2, none, ranked, 0, s.reserve());
    let (admitted, b3, deferred) = continued.admit_from(b2, none, ranked, 0, s.reserve());
    assert(s.running.contains(id) <==> s.runs(id));
    let j = s.running.index_of(id);
    assert(!b0.preempted.contains(id));
    assert(decoded.seq_of(id) == s.seq_of(id));
    lemma_in_flight_goes_on(decoded, b1, s.running, 0, s.reserve(), j);
    assert(after.reserve() == s.reserve());
    assert(same_stream(continued.seqs[id.0 - 1], admitted.seqs[id.0 - 1]));
    if decoded.full(b2) {
        assert(continued.full(b2));
        lemma_full_defers(continued, b2, none, ranked, 0, s.reserve());
    } else if exists|k: int| 0 <= k < b2.prefill.len() && (#[trigger] b2.prefill[k]).seq == id {
        let k = choose|k: int| 0 <= k < b2.prefill.len() && (#[trigger] b2.prefill[k]).seq == id;
        assert(b3.prefill.take(b2.prefill.len() as int)[k] == b2.prefill[k]);
        assert(b3.prefill[k].seq == id);
    }
}

} // verus!
