//! That what a pass runs has the memory it needs.
use vstd::prelude::*;

use super::model::{chunk_tokens, BatchView, PrefillChunk, SchedView, SchedulerMetrics};
use super::order::{
    lemma_decode_from, lemma_matched, lemma_metrics_are_free, lemma_prefill_from,
    lemma_prefill_ignores_the_queue, lemma_prefilled, lemma_queue_order_is_free, lemma_ranked,
    lemma_surviving, lemma_victim,
};
use crate::ids::SequenceId;
use crate::kvcache::cache::CacheView;
use crate::kvcache::{BlockHash, BlockId};
use crate::lists::{lemma_outside, lemma_without, without};
use crate::sequence::SequenceState;
use crate::Tick;

verus! {

/// The sequence's blocks have room for `n` tokens.
pub open spec fn has_room(s: SchedView, id: SequenceId, n: nat) -> bool {
    s.known(id) && s.table_of(id).len() >= s.cache.blocks_for(n)
}

/// The sequence can generate one more token.
pub open spec fn can_decode(s: SchedView, id: SequenceId) -> bool {
    s.in_state(id, SequenceState::Decoding) && has_room(s, id, s.next_len(id))
}

/// The blocks of the sequence hold what the chunk computes.
pub open spec fn can_prefill(s: SchedView, c: PrefillChunk) -> bool {
    &&& has_room(s, c.seq, (c.start + c.len) as nat)
    &&& s.seq_of(c.seq).state.active()
    &&& s.seq_of(c.seq).computed >= c.start + c.len
    &&& c.len > 0
}

/// Every decode slot has room for its token, unless its sequence was evicted for
/// another.
pub open spec fn backed_or_evicted(s: SchedView, batch: BatchView) -> bool {
    forall|k: int|
        0 <= k < batch.decode.len() ==> batch.preempted.contains(#[trigger] batch.decode[k])
            || can_decode(s, batch.decode[k])
}

/// Every decode slot of the pass has room for its token, and every chunk has
/// room for its tokens.
pub open spec fn backed(s: SchedView, batch: BatchView) -> bool {
    &&& forall|k: int|
        0 <= k < batch.decode.len() ==> can_decode(s, #[trigger] batch.decode[k])
    &&& forall|k: int| 0 <= k < batch.prefill.len() ==> can_prefill(s, #[trigger] batch.prefill[k])
}

/// There is a block table for every sequence.
pub open spec fn tabled(s: SchedView) -> bool {
    s.tables.len() == s.seqs.len()
}

/// The running list holds known sequences, each of them once.
pub open spec fn listed(s: SchedView) -> bool {
    &&& tabled(s)
    &&& s.running.no_duplicates()
    &&& forall|p: SequenceId| #[trigger] s.running.contains(p) ==> s.known(p)
}

/// What is known of the sequence is the same in both states.
pub open spec fn untouched(s: SchedView, w: SchedView, id: SequenceId) -> bool {
    w.seq_of(id) == s.seq_of(id) && w.table_of(id) == s.table_of(id)
}

proof fn lemma_handed_out_len(v: CacheView, n: nat)
    ensures
        v.handed_out(n).len() == n,
        v.allocated(n).block_size == v.block_size,
    decreases n,
{
    if n > 0 {
        lemma_handed_out_len(v, (n - 1) as nat);
    }
}

proof fn lemma_released_size(v: CacheView, blocks: Seq<BlockId>, n: nat)
    ensures
        v.released(blocks, n).block_size == v.block_size,
    decreases n,
{
    if n > 0 {
        lemma_released_size(v, blocks, (n - 1) as nat);
    }
}

proof fn lemma_acquired_size(v: CacheView, hashes: Seq<BlockHash>)
    ensures
        v.acquired(hashes).0.block_size == v.block_size,
    decreases hashes.len(),
{
    if hashes.len() > 0 {
        let looked = CacheView { prefix: v.prefix.looked_up(hashes[0]), ..v };
        if v.prefix.by_hash.contains_key(hashes[0].0) {
            let b = v.prefix.by_hash[hashes[0].0];
            if v.refs[b.0 as int] != u32::MAX {
                lemma_acquired_size(looked.referenced(b), hashes.drop_first());
            }
        }
    }
}

/// Growing a table touches no other, and leaves room where it says so.
pub proof fn lemma_ensured_room(s: SchedView, id: SequenceId, n: nat, reserve: nat)
    requires
        tabled(s),
        s.known(id),
    ensures
        ({
            let (w, enough) = s.ensured(id, n, reserve);
            &&& tabled(w)
            &&& w.seqs == s.seqs
            &&& w.cfg == s.cfg
            &&& w.running == s.running
            &&& w.waiting == s.waiting
            &&& w.cache.block_size == s.cache.block_size
            &&& enough ==> has_room(w, id, n)
            &&& w.table_of(id).len() >= s.table_of(id).len()
            &&& forall|p: SequenceId|
                p != id && s.known(p) ==> #[trigger] w.table_of(p) == s.table_of(p)
        }),
{
    let have = s.table_of(id).len();
    let need = s.cache.blocks_for(n);
    if need > have && s.cache.allocatable() >= (need - have) + reserve {
        lemma_handed_out_len(s.cache, (need - have) as nat);
    }
}

/// Making room touches the sequence it is made for and those it evicts.
pub proof fn lemma_made_room_frame(
    s: SchedView,
    id: SequenceId,
    need: nat,
    now: Tick,
    gone: Seq<SequenceId>,
)
    requires
        listed(s),
        s.known(id),
    ensures
        ({
            let (w, g) = s.made_room(id, need, now, gone);
            &&& listed(w)
            &&& w.seqs.len() == s.seqs.len()
            &&& w.cache.block_size == s.cache.block_size
            &&& w.seq_of(id) == s.seq_of(id)
            &&& w.table_of(id).len() >= s.table_of(id).len()
            &&& forall|p: SequenceId| gone.contains(p) ==> #[trigger] g.contains(p)
            &&& forall|p: SequenceId|
                p != id && s.known(p) && !g.contains(p) ==> #[trigger] untouched(s, w, p)
        }),
    decreases s.running.len(),
{
    lemma_ensured_room(s, id, need, 0);
    let (grown, enough) = s.ensured(id, need, 0);
    if !enough {
        lemma_victim(s, s.running.len(), now, id);
        match s.victim(now, id) {
            Some(v) => if s.running.contains(v) {
                let next = s.preempted(v);
                lemma_released_size(s.cache, s.table_of(v), s.table_of(v).len());
                lemma_without(s.running, v);
                assert forall|p: SequenceId| #[trigger] next.running.contains(
                    p,
                ) implies next.known(p) by {
                    assert(s.running.contains(p));
                }
                lemma_made_room_frame(next, id, need, now, gone.push(v));
                let (w, g) = next.made_room(id, need, now, gone.push(v));
                assert(gone.push(v)[gone.len() as int] == v);
                assert(g.contains(v));
                assert forall|p: SequenceId| gone.contains(p) implies #[trigger] g.contains(p) by {
                    let k = gone.index_of(p);
                    assert(gone.push(v)[k] == p);
                }
                assert forall|p: SequenceId|
                    p != id && s.known(p) && !g.contains(p) implies #[trigger] untouched(
                    s,
                    w,
                    p,
                ) by {
                    assert(p != v);
                    assert(untouched(next, w, p));
                }
            },
            None => {},
        }
    }
}

pub proof fn lemma_decodes_are_backed(
    s: SchedView,
    batch: BatchView,
    order: Seq<SequenceId>,
    i: nat,
    now: Tick,
)
    requires
        listed(s),
        backed_or_evicted(s, batch),
        batch.prefill.len() == 0,
    ensures
        ({
            let (w, b) = s.decode_from(batch, order, i, now);
            listed(w) && backed_or_evicted(w, b) && b.prefill.len() == 0
        }),
    decreases order.len() - i,
{
    if i >= order.len() || batch.decode.len() >= s.cfg.max_batch_seqs || batch.num_tokens()
        >= s.cfg.max_batch_tokens {
    } else {
        let id = order[i as int];
        if !s.in_state(id, SequenceState::Decoding) {
            lemma_decodes_are_backed(s, batch, order, i + 1, now);
        } else {
            let need = s.next_len(id);
            lemma_made_room_frame(s, id, need, now, batch.preempted);
            let (next, gone) = s.made_room(id, need, now, batch.preempted);
            let decode = if next.table_of(id).len() >= next.cache.blocks_for(need) {
                batch.decode.push(id)
            } else {
                batch.decode
            };
            let b2 = BatchView { decode, preempted: gone, ..batch };
            assert forall|k: int| 0 <= k < b2.decode.len() implies b2.preempted.contains(
                #[trigger] b2.decode[k],
            ) || can_decode(next, b2.decode[k]) by {
                let p = b2.decode[k];
                if k < batch.decode.len() {
                    assert(p == batch.decode[k]);
                    if !gone.contains(p) {
                        assert(!batch.preempted.contains(p));
                        assert(can_decode(s, p));
                        if p != id {
                            assert(untouched(s, next, p));
                        }
                    }
                }
            }
            lemma_decodes_are_backed(next, b2, order, i + 1, now);
        }
    }
}

pub proof fn lemma_survivors_are_backed(s: SchedView, batch: BatchView)
    requires
        backed_or_evicted(s, batch),
        batch.prefill.len() == 0,
    ensures
        backed(s, batch.surviving()),
{
    lemma_outside(batch.decode, batch.preempted);
    let kept = batch.surviving();
    assert forall|k: int| 0 <= k < kept.decode.len() implies can_decode(
        s,
        #[trigger] kept.decode[k],
    ) by {
        assert(kept.decode.contains(kept.decode[k]));
        let j = batch.decode.index_of(kept.decode[k]);
        assert(batch.decode[j] == kept.decode[k]);
    }
}

/// Trying a prefill touches no other sequence, and a chunk it yields has room.
proof fn lemma_prefilled_frame(s: SchedView, id: SequenceId, budget: nat, reserve: nat)
    requires
        tabled(s),
        s.known(id),
        s.seq_of(id).computed <= s.seq_of(id).tokens.len() <= usize::MAX,
        s.seq_of(id).computed == 0 ==> s.table_of(id).len() == 0 && s.matched(id).seq_of(
            id,
        ).computed <= s.seq_of(id).tokens.len(),
    ensures
        ({
            let (w, chunk) = s.prefilled(id, budget, reserve);
            &&& tabled(w)
            &&& w.seqs.len() == s.seqs.len()
            &&& w.cache.block_size == s.cache.block_size
            &&& w.table_of(id).len() >= s.table_of(id).len()
            &&& w.seq_of(id).computed >= s.seq_of(id).computed
            &&& s.seq_of(id).state.active() ==> w.seq_of(id).state.active()
            &&& chunk is Some ==> can_prefill(w, chunk->0)
            &&& forall|p: SequenceId|
                p != id && s.known(p) ==> #[trigger] untouched(s, w, p)
        }),
{
    let q0 = s.seq_of(id);
    let looked = if q0.computed == 0 {
        s.matched(id)
    } else {
        s
    };
    lemma_acquired_size(s.cache, s.cache.matchable(q0.tenant, q0.tokens));
    let q = looked.seq_of(id);
    let len = looked.chunk_len((q.tokens.len() - q.computed) as nat, budget);
    assert(tabled(looked));
    assert forall|p: SequenceId| p != id && s.known(p) implies #[trigger] untouched(
        s,
        looked,
        p,
    ) by {}
    lemma_ensured_room(looked, id, q.computed + len, reserve);
    let w = s.prefilled(id, budget, reserve).0;
    assert forall|p: SequenceId| p != id && s.known(p) implies #[trigger] untouched(s, w, p) by {
        assert(untouched(s, looked, p));
    }
}

/// After a chunk was tried for a sequence that does not decode, what was backed
/// stays backed, and so is the chunk.
pub proof fn lemma_chunk_is_backed(
    s: SchedView,
    id: SequenceId,
    budget: nat,
    reserve: nat,
    batch: BatchView,
)
    requires
        s.wf(),
        s.open(id),
        !(s.seq_of(id).state is Decoding),
        backed(s, batch),
    ensures
        ({
            let (w, chunk) = s.prefilled(id, budget, reserve);
            backed(w, batch.with_chunk(chunk))
        }),
{
    assert(s.seqs[id.0 - 1].wf());
    assert(s.seqs[id.0 - 1].state.active() ==> s.seqs[id.0 - 1].computed > 0);
    assert(s.tables[id.0 - 1].len() == 0 || s.seqs[id.0 - 1].computed > 0);
    if s.seq_of(id).computed == 0 {
        lemma_matched(s, id);
    }
    lemma_prefilled_frame(s, id, budget, reserve);
    let (w, chunk) = s.prefilled(id, budget, reserve);
    let b2 = batch.with_chunk(chunk);
    assert forall|k: int| 0 <= k < b2.decode.len() implies can_decode(
        w,
        #[trigger] b2.decode[k],
    ) by {
        let p = batch.decode[k];
        assert(can_decode(s, p));
        assert(untouched(s, w, p));
    }
    assert forall|k: int| 0 <= k < b2.prefill.len() implies can_prefill(
        w,
        #[trigger] b2.prefill[k],
    ) by {
        if k < batch.prefill.len() {
            let c = batch.prefill[k];
            assert(b2.prefill[k] == c);
            assert(can_prefill(s, c));
            if c.seq != id {
                assert(untouched(s, w, c.seq));
            }
        }
    }
}

pub proof fn lemma_continued_are_backed(
    s: SchedView,
    batch: BatchView,
    order: Seq<SequenceId>,
    i: nat,
    reserve: nat,
)
    requires
        s.wf(),
        backed(s, batch),
    ensures
        ({
            let (w, b) = s.prefill_from(batch, order, i, reserve);
            backed(w, b)
        }),
    decreases order.len() - i,
{
    if i >= order.len() || s.full(batch) {
    } else {
        let id = order[i as int];
        if !s.in_state(id, SequenceState::Prefilling) {
            lemma_continued_are_backed(s, batch, order, i + 1, reserve);
        } else {
            let budget = s.budget_left(batch);
            let (next, chunk) = s.prefilled(id, budget, reserve);
            lemma_chunk_is_backed(s, id, budget, reserve, batch);
            lemma_prefilled(s, id, budget, reserve);
            assert(!s.waiting.contains(id)) by {
                assert(s.waiting.contains(id) <==> s.waits(id));
            }
            assert(next =~= SchedView { waiting: without(s.waiting, id), ..next });
            lemma_continued_are_backed(next, batch.with_chunk(chunk), order, i + 1, reserve);
        }
    }
}

proof fn lemma_admitted_are_backed(
    s: SchedView,
    batch: BatchView,
    deferred: Seq<SequenceId>,
    ranked: Seq<SequenceId>,
    i: nat,
    reserve: nat,
)
    requires
        i <= ranked.len(),
        (SchedView { waiting: deferred + ranked.skip(i as int), ..s }).wf(),
        backed(s, batch),
    ensures
        ({
            let (w, b, d) = s.admit_from(batch, deferred, ranked, i, reserve);
            backed(w, b)
        }),
    decreases ranked.len() - i,
{
    let left = ranked.skip(i as int);
    let whole = SchedView { waiting: deferred + left, ..s };
    if i < ranked.len() {
        let id = ranked[i as int];
        let rest = ranked.skip(i as int + 1);
        assert(left =~= seq![id] + rest);
        assert((deferred + left)[deferred.len() as int] == id);
        assert(whole.waiting.contains(id));
        assert(whole.waits(id));
        if s.full(batch) {
            assert(deferred.push(id) + rest =~= deferred + left);
            lemma_admitted_are_backed(s, batch, deferred.push(id), ranked, i + 1, reserve);
        } else {
            let budget = s.budget_left(batch);
            let (next, chunk) = s.prefilled(id, budget, reserve);
            lemma_prefill_ignores_the_queue(s, deferred + left, id, budget, reserve);
            lemma_prefilled(whole, id, budget, reserve);
            lemma_backed_ignores_the_queue(s, whole, batch);
            lemma_chunk_is_backed(whole, id, budget, reserve, batch);
            let b2 = batch.with_chunk(chunk);
            lemma_backed_ignores_the_queue(whole.prefilled(id, budget, reserve).0, next, b2);
            let d2 = if chunk is Some {
                deferred
            } else {
                deferred.push(id)
            };
            if chunk is Some {
                let queue = deferred + left;
                let at = queue.index_of(id);
                assert(queue[at] == id);
                assert(at == deferred.len());
                assert(without(queue, id) =~= deferred + rest);
                assert((SchedView { waiting: without(queue, id), ..next }) == SchedView {
                    waiting: deferred + rest,
                    ..next
                });
            } else {
                assert(deferred.push(id) + rest =~= deferred + left);
            }
            lemma_admitted_are_backed(next, b2, d2, ranked, i + 1, reserve);
        }
    }
}

pub proof fn lemma_backed_ignores_the_queue(s: SchedView, w: SchedView, batch: BatchView)
    requires
        backed(s, batch),
        w == (SchedView { waiting: w.waiting, ..s }),
    ensures
        backed(w, batch),
{
    assert forall|k: int| 0 <= k < batch.decode.len() implies can_decode(
        w,
        #[trigger] batch.decode[k],
    ) by {
        assert(can_decode(s, batch.decode[k]));
    }
    assert forall|k: int| 0 <= k < batch.prefill.len() implies can_prefill(
        w,
        #[trigger] batch.prefill[k],
    ) by {
        assert(can_prefill(s, batch.prefill[k]));
    }
}

/// What a pass runs has its memory: the sequence of every prefill chunk holds
/// blocks for all the chunk computes, and that of every decode slot holds blocks
/// for its next token.
pub proof fn law_a_pass_has_its_memory(s: SchedView, now: Tick)
    requires
        s.wf(),
    ensures
        backed(s.stepped(now).0, s.stepped(now).1),
{
    let begun = SchedView {
        metrics: SchedulerMetrics { steps: s.metrics.steps.wrapping_add(1), ..s.metrics },
        ..s
    };
    lemma_metrics_are_free(s, begun);
    assert(chunk_tokens(Seq::empty()) == 0);
    assert forall|p: SequenceId| #[trigger] begun.running.contains(p) implies begun.known(p) by {
        assert(s.running.contains(p) <==> s.runs(p));
    }
    lemma_decode_from(begun, BatchView::empty(), s.running, 0, now);
    lemma_decodes_are_backed(begun, BatchView::empty(), s.running, 0, now);
    let (decoded, b0) = begun.decode_from(BatchView::empty(), s.running, 0, now);
    lemma_survivors_are_backed(decoded, b0);
    lemma_surviving(decoded, b0);
    let b1 = b0.surviving();
    lemma_prefill_from(decoded, b1, s.running, 0, s.reserve());
    lemma_continued_are_backed(decoded, b1, s.running, 0, s.reserve());
    let (continued, b2) = decoded.prefill_from(b1, s.running, 0, s.reserve());
    let ranked = continued.ranked(now);
    lemma_ranked(continued, now);
    let none = Seq::<SequenceId>::empty();
    assert(none + ranked.skip(0) =~= ranked);
    let requeued = SchedView { waiting: ranked, ..continued };
    lemma_queue_order_is_free(continued, requeued);
    lemma_admitted_are_backed(continued, b2, none, ranked, 0, s.reserve());
    let (admitted, b3, deferred) = continued.admit_from(b2, none, ranked, 0, s.reserve());
    lemma_backed_ignores_the_queue(admitted, s.stepped(now).0, b3);
}

} // verus!
