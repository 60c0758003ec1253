//! What the scheduler takes, gives back and counts.
use vstd::prelude::*;

use super::deadlines::law_the_reserve_is_its_share;
use super::model::{chunk_tokens, BatchView, SchedView, SchedulerMetrics};
use super::order::{lemma_chunk_tokens_push, lemma_preempted};
use crate::ids::SequenceId;
use crate::kvcache::cache::{lemma_allocated, CacheView};
use crate::kvcache::reuse::law_blocks_hold_their_tokens;
use crate::kvcache::BlockId;
use crate::lists::lemma_without;
use crate::sequence::SequenceState;
use crate::Tick;

verus! {

/// A block table grows exactly where the pool can give the missing blocks and keep
/// its reserve. It then holds the tokens, with no block more than they take; what it
/// held before comes first. Otherwise nothing changes.
pub proof fn law_a_table_grows_by_what_is_missing(
    s: SchedView,
    id: SequenceId,
    tokens: nat,
    reserve: nat,
)
    requires
        s.wf(),
        s.known(id),
    ensures
        ({
            let (w, enough) = s.ensured(id, tokens, reserve);
            let (had, has) = (s.table_of(id), w.table_of(id));
            let size = s.cache.block_size;
            &&& had.len() * size >= tokens ==> enough && w == s
            &&& enough ==> has.len() * size >= tokens
            &&& enough && had.len() * size < tokens ==> {
                &&& has.len() * size < tokens + size
                &&& had.is_prefix_of(has)
                &&& w.cache.allocatable() == s.cache.allocatable() - (has.len() - had.len())
                &&& w.cache.allocatable() >= reserve
            }
            &&& !enough ==> w == s && (had.len() + s.cache.allocatable() - reserve) * size < tokens
            &&& forall|p: SequenceId|
                p != id && s.known(p) ==> #[trigger] w.table_of(p) == s.table_of(p)
            &&& w.seqs == s.seqs
            &&& w.running == s.running
            &&& w.waiting == s.waiting
        }),
{
    let size = s.cache.block_size as int;
    let had = s.table_of(id);
    let need = s.cache.blocks_for(tokens) as int;
    law_blocks_hold_their_tokens(s.cache, tokens);
    let have = had.len() as int;
    assert(have * size >= tokens <==> need <= have) by (nonlinear_arith)
        requires
            tokens <= need * size,
            need * size < tokens + size,
            size > 0,
            have >= 0,
    ;
    let (w, enough) = s.ensured(id, tokens, reserve);
    if need > have {
        let want = (need - have) as nat;
        if enough {
            lemma_allocated(s.cache, want);
            assert(w.table_of(id).len() == need);
            assert(had =~= w.table_of(id).take(have));
        } else {
            let most = have + s.cache.allocatable() - reserve;
            assert(most * size < tokens) by (nonlinear_arith)
                requires
                    most <= need - 1,
                    need * size < tokens + size,
                    size > 0,
            ;
        }
    } else {
        assert(have * size >= need * size) by (nonlinear_arith)
            requires
                need <= have,
                size > 0,
        ;
    }
}

/// A preempted sequence gives all its blocks back and goes to the end of the queue;
/// it is counted, and nobody else is touched.
pub proof fn law_a_preemption_touches_nobody_else(
    s: SchedView,
    id: SequenceId,
    other: SequenceId,
)
    requires
        s.wf(),
        s.running.contains(id),
        s.known(other),
        other != id,
        s.metrics.preemptions < u64::MAX,
    ensures
        ({
            let w = s.preempted(id);
            &&& w.wf()
            &&& w.seq_of(id).state is Swapped
            &&& w.seq_of(id).computed == 0
            &&& w.seq_of(id).tokens == s.seq_of(id).tokens
            &&& w.table_of(id).len() == 0
            &&& w.waiting == s.waiting.push(id)
            &&& !w.running.contains(id)
            &&& w.seq_of(other) == s.seq_of(other)
            &&& w.table_of(other) == s.table_of(other)
            &&& w.running.contains(other) <==> s.running.contains(other)
            &&& w.metrics.preemptions == s.metrics.preemptions + 1
        }),
{
    lemma_preempted(s, id);
    lemma_without(s.running, id);
    assert(s.running.contains(id) <==> s.runs(id));
}

/// Nobody is evicted without need: where the pool has the blocks that are missing,
/// making room takes them and nothing else.
pub proof fn law_nobody_is_evicted_without_need(
    s: SchedView,
    id: SequenceId,
    tokens: nat,
    now: Tick,
    gone: Seq<SequenceId>,
)
    requires
        s.wf(),
        s.known(id),
        (s.table_of(id).len() + s.cache.allocatable()) * s.cache.block_size >= tokens,
    ensures
        ({
            let (w, all) = s.made_room(id, tokens, now, gone);
            &&& all == gone
            &&& w.running == s.running
            &&& w.seqs == s.seqs
            &&& w.table_of(id).len() * s.cache.block_size >= tokens
        }),
{
    law_a_table_grows_by_what_is_missing(s, id, tokens, 0);
}

/// A sequence generates one token more than it has, so it needs room for that many.
pub proof fn law_a_decode_needs_room_for_one_more(s: SchedView, id: SequenceId)
    requires
        s.seq_of(id).tokens.len() < usize::MAX,
    ensures
        s.next_len(id) == s.seq_of(id).tokens.len() + 1,
{
}

/// The two differ in what they count of tokens that were run, and the second counts
/// `more` of them.
spec fn counts_more(a: SchedulerMetrics, b: SchedulerMetrics, more: int) -> bool {
    &&& b.prefill_tokens_computed as int == (a.prefill_tokens_computed + more)
        % 0x1_0000_0000_0000_0000
    &&& b.steps == a.steps
    &&& b.admitted == a.admitted
    &&& b.finished == a.finished
    &&& b.ttft_deadline_misses == a.ttft_deadline_misses
}

proof fn lemma_counts_add_up(
    a: SchedulerMetrics,
    b: SchedulerMetrics,
    c: SchedulerMetrics,
    x: int,
    y: int,
)
    requires
        counts_more(a, b, x),
        counts_more(b, c, y),
        x >= 0,
        y >= 0,
    ensures
        counts_more(a, c, x + y),
{
}

proof fn lemma_trying_counts(s: SchedView, id: SequenceId, budget: nat, reserve: nat)
    requires
        budget <= usize::MAX,
    ensures
        ({
            let (w, chunk) = s.prefilled(id, budget, reserve);
            counts_more(
                s.metrics,
                w.metrics,
                if chunk is Some {
                    chunk->0.len as int
                } else {
                    0
                },
            ) && w.cfg == s.cfg
        }),
{
}

proof fn lemma_making_room_counts(
    s: SchedView,
    id: SequenceId,
    need: nat,
    now: Tick,
    gone: Seq<SequenceId>,
)
    ensures
        counts_more(s.metrics, s.made_room(id, need, now, gone).0.metrics, 0),
        s.made_room(id, need, now, gone).0.cfg == s.cfg,
    decreases s.running.len(),
{
    let (grown, enough) = s.ensured(id, need, 0);
    if !enough {
        match s.victim(now, id) {
            Some(v) => if s.running.contains(v) {
                lemma_shrinks(s, v);
                lemma_making_room_counts(s.preempted(v), id, need, now, gone.push(v));
            },
            None => {},
        }
    }
}

proof fn lemma_shrinks(s: SchedView, v: SequenceId)
    requires
        s.running.contains(v),
    ensures
        s.preempted(v).running.len() < s.running.len(),
{
    let k = s.running.index_of(v);
    assert(s.running[k] == v);
    assert(s.preempted(v).running == s.running.remove(k));
}

proof fn lemma_decoding_counts(
    s: SchedView,
    batch: BatchView,
    order: Seq<SequenceId>,
    i: nat,
    now: Tick,
)
    ensures
        ({
            let (w, b) = s.decode_from(batch, order, i, now);
            counts_more(s.metrics, w.metrics, 0) && b.prefill == batch.prefill && w.cfg == s.cfg
        }),
    decreases order.len() - i,
{
    if i >= order.len() || batch.decode.len() >= s.cfg.max_batch_seqs || batch.num_tokens()
        >= s.cfg.max_batch_tokens {
    } else {
        let id = order[i as int];
        if !s.in_state(id, SequenceState::Decoding) {
            lemma_decoding_counts(s, batch, order, i + 1, now);
        } else {
            let need = s.next_len(id);
            lemma_making_room_counts(s, id, need, now, batch.preempted);
            let (next, gone) = s.made_room(id, need, now, batch.preempted);
            let decode = if next.table_of(id).len() >= next.cache.blocks_for(need) {
                batch.decode.push(id)
            } else {
                batch.decode
            };
            let b2 = BatchView { decode, preempted: gone, ..batch };
            lemma_decoding_counts(next, b2, order, i + 1, now);
            let w = next.decode_from(b2, order, i + 1, now).0;
            lemma_counts_add_up(s.metrics, next.metrics, w.metrics, 0, 0);
        }
    }
}

proof fn lemma_continuing_counts(
    s: SchedView,
    batch: BatchView,
    order: Seq<SequenceId>,
    i: nat,
    reserve: nat,
)
    ensures
        ({
            let (w, b) = s.prefill_from(batch, order, i, reserve);
            &&& chunk_tokens(b.prefill) >= chunk_tokens(batch.prefill)
            &&& counts_more(
                s.metrics,
                w.metrics,
                chunk_tokens(b.prefill) - chunk_tokens(batch.prefill),
            )
            &&& w.cfg == s.cfg
        }),
    decreases order.len() - i,
{
    if i >= order.len() || s.full(batch) {
    } else {
        let id = order[i as int];
        if !s.in_state(id, SequenceState::Prefilling) {
            lemma_continuing_counts(s, batch, order, i + 1, reserve);
        } else {
            let budget = s.budget_left(batch);
            let (next, chunk) = s.prefilled(id, budget, reserve);
            lemma_trying_counts(s, id, budget, reserve);
            let b2 = batch.with_chunk(chunk);
            if chunk is Some {
                lemma_chunk_tokens_push(batch.prefill, chunk->0);
            }
            lemma_continuing_counts(next, b2, order, i + 1, reserve);
            let (w, b) = next.prefill_from(b2, order, i + 1, reserve);
            lemma_counts_add_up(
                s.metrics,
                next.metrics,
                w.metrics,
                chunk_tokens(b2.prefill) - chunk_tokens(batch.prefill),
                chunk_tokens(b.prefill) - chunk_tokens(b2.prefill),
            );
        }
    }
}

proof fn lemma_admitting_counts(
    s: SchedView,
    batch: BatchView,
    deferred: Seq<SequenceId>,
    ranked: Seq<SequenceId>,
    i: nat,
    reserve: nat,
)
    ensures
        ({
            let (w, b, d) = s.admit_from(batch, deferred, ranked, i, reserve);
            &&& chunk_tokens(b.prefill) >= chunk_tokens(batch.prefill)
            &&& counts_more(
                s.metrics,
                w.metrics,
                chunk_tokens(b.prefill) - chunk_tokens(batch.prefill),
            )
        }),
    decreases ranked.len() - i,
{
    if i < ranked.len() {
        let id = ranked[i as int];
        if s.full(batch) {
            lemma_admitting_counts(s, batch, deferred.push(id), ranked, i + 1, reserve);
        } else {
            let budget = s.budget_left(batch);
            let (next, chunk) = s.prefilled(id, budget, reserve);
            lemma_trying_counts(s, id, budget, reserve);
            let b2 = batch.with_chunk(chunk);
            let d2 = if chunk is Some {
                deferred
            } else {
                deferred.push(id)
            };
            if chunk is Some {
                lemma_chunk_tokens_push(batch.prefill, chunk->0);
            }
            lemma_admitting_counts(next, b2, d2, ranked, i + 1, reserve);
            let (w, b, d) = next.admit_from(b2, d2, ranked, i + 1, reserve);
            lemma_counts_add_up(
                s.metrics,
                next.metrics,
                w.metrics,
                chunk_tokens(b2.prefill) - chunk_tokens(batch.prefill),
                chunk_tokens(b.prefill) - chunk_tokens(b2.prefill),
            );
        }
    }
}

/// A step is counted, and so is every token that its chunks run; it admits, ends
/// and misses nothing by itself. Counters go round at `2^64`.
pub proof fn law_a_step_is_counted(s: SchedView, now: Tick)
    ensures
        ({
            let (w, b) = s.stepped(now);
            &&& w.metrics.steps as int == (s.metrics.steps + 1) % 0x1_0000_0000_0000_0000
            &&& w.metrics.prefill_tokens_computed as int == (s.metrics.prefill_tokens_computed
                + chunk_tokens(b.prefill)) % 0x1_0000_0000_0000_0000
            &&& w.metrics.admitted == s.metrics.admitted
            &&& w.metrics.finished == s.metrics.finished
            &&& w.metrics.ttft_deadline_misses == s.metrics.ttft_deadline_misses
        }),
{
    let begun = SchedView {
        metrics: SchedulerMetrics { steps: s.metrics.steps.wrapping_add(1), ..s.metrics },
        ..s
    };
    lemma_decoding_counts(begun, BatchView::empty(), s.running, 0, now);
    let (decoded, b0) = begun.decode_from(BatchView::empty(), s.running, 0, now);
    let b1 = b0.surviving();
    assert(chunk_tokens(b1.prefill) == 0);
    lemma_continuing_counts(decoded, b1, s.running, 0, s.reserve());
    let (continued, b2) = decoded.prefill_from(b1, s.running, 0, s.reserve());
    let ranked = continued.ranked(now);
    let none = Seq::<SequenceId>::empty();
    lemma_admitting_counts(continued, b2, none, ranked, 0, s.reserve());
    let (admitted, b3, deferred) = continued.admit_from(b2, none, ranked, 0, s.reserve());
    lemma_counts_add_up(
        begun.metrics,
        decoded.metrics,
        continued.metrics,
        0,
        chunk_tokens(b2.prefill) as int,
    );
    lemma_counts_add_up(
        begun.metrics,
        continued.metrics,
        admitted.metrics,
        chunk_tokens(b2.prefill) as int,
        chunk_tokens(b3.prefill) - chunk_tokens(b2.prefill),
    );
}

/// What a prompt finds in the cache is counted as reused, token by token, and is not
/// run; where it finds nothing, nothing is.
pub proof fn law_reused_tokens_are_counted(s: SchedView, id: SequenceId)
    requires
        s.wf(),
        s.open(id),
        s.seq_of(id).computed == 0,
    ensures
        ({
            let q = s.seq_of(id);
            let w = s.matched(id);
            let found = s.cache.acquired(s.cache.matchable(q.tenant, q.tokens)).1;
            let reused = found.len() * s.cache.block_size;
            &&& w.metrics.prefill_tokens_reused as int == (s.metrics.prefill_tokens_reused
                + reused) % 0x1_0000_0000_0000_0000
            &&& w.metrics.prefill_tokens_computed == s.metrics.prefill_tokens_computed
            &&& w.seq_of(id).computed == reused
            &&& found.len() > 0 ==> w.table_of(id) == found
            &&& found.len() > 0 ==> w.seq_of(id).cached_prefix_len == reused
        }),
{
    super::order::lemma_matched(s, id);
    assert(s.seqs[id.0 - 1].wf());
    let found = s.cache.acquired(
        s.cache.matchable(s.seq_of(id).tenant, s.seq_of(id).tokens),
    ).1;
    if found.len() == 0 {
        assert(found.len() * s.cache.block_size == 0) by (nonlinear_arith)
            requires
                found.len() == 0,
        ;
    }
}

/// The share of context that came from the cache is what was reused of all that was
/// reused or run.
pub proof fn law_the_reuse_rate_is_a_share(m: SchedulerMetrics)
    ensures
        m.prefill_tokens_reused + m.prefill_tokens_computed > 0 ==> {
            &&& m.reuse_rate().part == m.prefill_tokens_reused
            &&& m.reuse_rate().whole == m.prefill_tokens_reused + m.prefill_tokens_computed
        },
        m.prefill_tokens_reused + m.prefill_tokens_computed == 0 ==> m.reuse_rate().part == 0,
{
}

/// Nothing is cached, so that there is nothing to find and nothing to give up.
spec fn is_cold(v: CacheView) -> bool {
    v.prefix.by_hash =~= Map::<u64, BlockId>::empty() && v.prefix.stale.len() == 0
}

proof fn lemma_a_cold_pool_stays_cold(v: CacheView, n: nat)
    requires
        is_cold(v),
        n <= v.allocatable(),
    ensures
        is_cold(v.allocated(n)),
        v.allocated(n).allocatable() == v.allocatable() - n,
    decreases n,
{
    if n > 0 {
        lemma_a_cold_pool_stays_cold(v, (n - 1) as nat);
    }
}

/// The reserve is kept, or nothing was taken.
spec fn keeps(s: SchedView, w: SchedView, reserve: nat) -> bool {
    &&& is_cold(w.cache)
    &&& w.cache.allocatable() == s.cache.allocatable() || w.cache.allocatable() >= reserve
}

proof fn lemma_trying_keeps_the_reserve(s: SchedView, id: SequenceId, budget: nat, reserve: nat)
    requires
        is_cold(s.cache),
    ensures
        keeps(s, s.prefilled(id, budget, reserve).0, reserve),
{
    if s.known(id) {
        let q0 = s.seq_of(id);
        let hashes = s.cache.matchable(q0.tenant, q0.tokens);
        let looked = if q0.computed == 0 {
            s.matched(id)
        } else {
            s
        };
        assert(s.cache.acquired(hashes).1.len() == 0);
        assert(is_cold(looked.cache) && looked.cache.allocatable() == s.cache.allocatable());
        let q = looked.seq_of(id);
        let len = looked.chunk_len((q.tokens.len() - q.computed) as nat, budget);
        let have = looked.table_of(id).len();
        let need = looked.cache.blocks_for(q.computed + len);
        if need > have && looked.cache.allocatable() >= need - have + reserve {
            lemma_a_cold_pool_stays_cold(looked.cache, (need - have) as nat);
        }
    }
}

proof fn lemma_continuing_keeps_the_reserve(
    s: SchedView,
    batch: BatchView,
    order: Seq<SequenceId>,
    i: nat,
    reserve: nat,
)
    requires
        is_cold(s.cache),
    ensures
        keeps(s, s.prefill_from(batch, order, i, reserve).0, reserve),
    decreases order.len() - i,
{
    if i >= order.len() || s.full(batch) {
    } else {
        let id = order[i as int];
        if !s.in_state(id, SequenceState::Prefilling) {
            lemma_continuing_keeps_the_reserve(s, batch, order, i + 1, reserve);
        } else {
            let (next, chunk) = s.prefilled(id, s.budget_left(batch), reserve);
            lemma_trying_keeps_the_reserve(s, id, s.budget_left(batch), reserve);
            lemma_continuing_keeps_the_reserve(
                next,
                batch.with_chunk(chunk),
                order,
                i + 1,
                reserve,
            );
        }
    }
}

proof fn lemma_admitting_keeps_the_reserve(
    s: SchedView,
    batch: BatchView,
    deferred: Seq<SequenceId>,
    ranked: Seq<SequenceId>,
    i: nat,
    reserve: nat,
)
    requires
        is_cold(s.cache),
    ensures
        keeps(s, s.admit_from(batch, deferred, ranked, i, reserve).0, reserve),
    decreases ranked.len() - i,
{
    if i < ranked.len() {
        let id = ranked[i as int];
        if s.full(batch) {
            lemma_admitting_keeps_the_reserve(
                s,
                batch,
                deferred.push(id),
                ranked,
                i + 1,
                reserve,
            );
        } else {
            let (next, chunk) = s.prefilled(id, s.budget_left(batch), reserve);
            lemma_trying_keeps_the_reserve(s, id, s.budget_left(batch), reserve);
            lemma_admitting_keeps_the_reserve(
                next,
                batch.with_chunk(chunk),
                if chunk is Some {
                    deferred
                } else {
                    deferred.push(id)
                },
                ranked,
                i + 1,
                reserve,
            );
        }
    }
}

proof fn lemma_nobody_decodes(
    s: SchedView,
    batch: BatchView,
    order: Seq<SequenceId>,
    i: nat,
    now: Tick,
)
    requires
        forall|k: int|
            0 <= k < order.len() ==> !s.in_state(#[trigger] order[k], SequenceState::Decoding),
    ensures
        s.decode_from(batch, order, i, now) == (s, batch),
    decreases order.len() - i,
{
    if i >= order.len() || batch.decode.len() >= s.cfg.max_batch_seqs || batch.num_tokens()
        >= s.cfg.max_batch_tokens {
    } else {
        lemma_nobody_decodes(s, batch, order, i + 1, now);
    }
}

/// Prompts never take the blocks that are held back for those who generate: where
/// nobody generates and nothing is cached, a step takes no block at all, or leaves
/// at least the configured share of the pool, and one block at least.
pub proof fn law_prompts_leave_the_reserve(s: SchedView, now: Tick)
    requires
        s.wf(),
        s.cache.prefix.by_hash =~= Map::<u64, BlockId>::empty(),
        forall|k: int|
            0 <= k < s.running.len() ==> !s.in_state(
                #[trigger] s.running[k],
                SequenceState::Decoding,
            ),
    ensures
        ({
            let left = s.stepped(now).0.cache.allocatable();
            ||| left == s.cache.allocatable()
            ||| left >= 1 && left * s.cfg.watermark.den >= s.cache.capacity()
                * s.cfg.watermark.num
            ||| s.cfg.watermark.num > s.cfg.watermark.den
        }),
{
    let begun = SchedView {
        metrics: SchedulerMetrics { steps: s.metrics.steps.wrapping_add(1), ..s.metrics },
        ..s
    };
    assert(s.cache.prefix.stale.len() == 0) by {
        if s.cache.prefix.stale.len() > 0 {
            let b = s.cache.prefix.stale[0];
            assert(s.cache.prefix.by_block.contains_key(b.0));
            assert(s.cache.prefix.by_hash.contains_key(s.cache.prefix.by_block[b.0].0));
        }
    }
    assert forall|k: int| 0 <= k < s.running.len() implies !begun.in_state(
        #[trigger] s.running[k],
        SequenceState::Decoding,
    ) by {
        assert(!s.in_state(s.running[k], SequenceState::Decoding));
    }
    lemma_nobody_decodes(begun, BatchView::empty(), s.running, 0, now);
    let b1 = BatchView::empty().surviving();
    lemma_continuing_keeps_the_reserve(begun, b1, s.running, 0, s.reserve());
    let (continued, b2) = begun.prefill_from(b1, s.running, 0, s.reserve());
    let ranked = continued.ranked(now);
    lemma_admitting_keeps_the_reserve(continued, b2, Seq::empty(), ranked, 0, s.reserve());
    let left = s.stepped(now).0.cache.allocatable();
    if s.cfg.watermark.num <= s.cfg.watermark.den && left >= s.reserve() {
        law_the_reserve_is_its_share(s);
        let (den, reserve) = (s.cfg.watermark.den as int, s.reserve() as int);
        assert(left * den >= reserve * den) by (nonlinear_arith)
            requires
                left >= reserve,
                den >= 0,
        ;
    }
}

/// All counters start at zero.
pub proof fn law_counters_start_at_zero()
    ensures
        ({
            let m = SchedulerMetrics::zero();
            &&& m.admitted == 0
            &&& m.finished == 0
            &&& m.preemptions == 0
            &&& m.ttft_deadline_misses == 0
            &&& m.steps == 0
            &&& m.prefill_tokens_computed == 0
            &&& m.prefill_tokens_reused == 0
        }),
{
}

} // verus!
