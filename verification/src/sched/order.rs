//! Every scheduling decision keeps what the scheduler promises of its state.
use vstd::prelude::*;

use super::model::{
    chunk_tokens, held, same_stream, BatchView, PrefillChunk, SchedView, SchedulerMetrics,
};
use crate::ids::SequenceId;
use crate::kvcache::allocator::{
    lemma_occurrences_concat, lemma_occurrences_contains, occurrences, refs_of,
};
use crate::kvcache::cache::{
    law_a_match_follows_the_addresses, lemma_acquired, lemma_allocated, lemma_published,
    lemma_released, pairs,
};
use crate::kvcache::hash::{
    chain_spec, law_address_depends_on_the_prefix_alone, lemma_block_in_bounds, prefix_address,
};
use crate::kvcache::BlockId;
use crate::request::RequestView;
use crate::lists::{lemma_outside, lemma_push_keeps_distinct, lemma_without, without};
use crate::sequence::{FinishReason, SequenceState};
use crate::{Tick, TokenId};

verus! {

pub proof fn lemma_held_update(
    tables: Seq<Seq<BlockId>>,
    i: int,
    table: Seq<BlockId>,
    b: BlockId,
)
    requires
        0 <= i < tables.len(),
    ensures
        held(tables.update(i, table), b) == held(tables, b) - occurrences(tables[i], b)
            + occurrences(table, b),
        held(tables, b) >= occurrences(tables[i], b),
    decreases tables.len(),
{
    let next = tables.update(i, table);
    if i == tables.len() - 1 {
        assert(next.drop_last() =~= tables.drop_last());
    } else {
        assert(next.drop_last() =~= tables.drop_last().update(i, table));
        lemma_held_update(tables.drop_last(), i, table, b);
    }
}

pub proof fn lemma_held_two(tables: Seq<Seq<BlockId>>, i: int, j: int, b: BlockId)
    requires
        0 <= i < tables.len(),
        0 <= j < tables.len(),
        i != j,
    ensures
        held(tables, b) >= occurrences(tables[i], b) + occurrences(tables[j], b),
{
    let none = Seq::<BlockId>::empty();
    lemma_held_update(tables, i, none, b);
    lemma_held_update(tables.update(i, none), j, none, b);
}

pub proof fn lemma_held_append_empty(tables: Seq<Seq<BlockId>>, n: nat, b: BlockId)
    ensures
        held(tables + Seq::new(n, |i: int| Seq::<BlockId>::empty()), b) == held(tables, b),
    decreases n,
{
    let more = Seq::new(n, |i: int| Seq::<BlockId>::empty());
    if n == 0 {
        assert(tables + more =~= tables);
    } else {
        let fewer = Seq::new((n - 1) as nat, |i: int| Seq::<BlockId>::empty());
        assert((tables + more).drop_last() =~= tables + fewer);
        assert((tables + more).last() =~= Seq::<BlockId>::empty());
        lemma_held_append_empty(tables, (n - 1) as nat, b);
    }
}

/// Two positions of one table that hold one block count twice.
proof fn lemma_two_positions(table: Seq<BlockId>, i: int, j: int)
    requires
        0 <= i < j < table.len(),
        table[i] == table[j],
    ensures
        occurrences(table, table[i]) >= 2,
{
    let head = table.take(j);
    let tail = table.skip(j);
    assert(table =~= head + tail);
    lemma_occurrences_concat(head, tail, table[i]);
    assert(head[i] == table[i]);
    assert(tail[0] == table[i]);
    lemma_occurrences_contains(head, table[i]);
    lemma_occurrences_contains(tail, table[i]);
}

/// Growing a table keeps everything in order.
pub proof fn lemma_ensured(s: SchedView, id: SequenceId, num_tokens: nat, reserve: nat)
    requires
        s.wf_core(),
        s.known(id),
    ensures
        ({
            let (w, enough) = s.ensured(id, num_tokens, reserve);
            &&& w.wf_core()
            &&& !enough ==> w == s
            &&& enough ==> w.table_of(id).len() >= s.cache.blocks_for(num_tokens)
            &&& w.seqs == s.seqs
            &&& w.running == s.running
            &&& w.waiting == s.waiting
            &&& w.cache.block_size == s.cache.block_size
            &&& w.cache.capacity() == s.cache.capacity()
            &&& forall|i: int|
                0 <= i < s.tables.len() && i != id.0 - 1 ==> w.tables[i] == s.tables[i]
        }),
{
    let have = s.table_of(id).len();
    let need = s.cache.blocks_for(num_tokens);
    let k = id.0 - 1;
    if need > have && s.cache.allocatable() >= (need - have) + reserve {
        let want = (need - have) as nat;
        let w = s.ensured(id, num_tokens, reserve).0;
        let blocks = s.cache.handed_out(want);
        lemma_allocated(s.cache, want);
        assert forall|b: BlockId| #[trigger] refs_of(w.cache.refs, b) == held(w.tables, b) by {
            lemma_held_update(s.tables, k, s.table_of(id) + blocks, b);
            lemma_occurrences_concat(s.table_of(id), blocks, b);
            assert(refs_of(s.cache.refs, b) == held(s.tables, b));
        }
        assert forall|b: BlockId| !w.cache.indexed(b) implies #[trigger] held(w.tables, b) <= 1 by {
            assert(refs_of(w.cache.refs, b) == held(w.tables, b));
            if blocks.contains(b) {
                let p = blocks.index_of(b);
                assert(refs_of(w.cache.refs, blocks[p]) == 1);
            } else {
                lemma_occurrences_contains(blocks, b);
                assert(refs_of(w.cache.refs, b) == refs_of(s.cache.refs, b) + occurrences(
                    blocks,
                    b,
                ));
                assert(refs_of(s.cache.refs, b) == held(s.tables, b));
                assert(!s.cache.indexed(b));
            }
        }
        assert forall|i: int, j: int|
            0 <= i < w.tables.len() && 0 <= j < w.tables[i].len() implies #[trigger] w.addressed(
            i,
            j,
        ) by {
            let c = w.tables[i][j];
            if i == k && j >= have {
                assert(c == blocks[j - have]);
            } else {
                assert(s.tables[i][j] == c);
                assert(s.addressed(i, j));
                if w.cache.indexed(c) {
                    if blocks.contains(c) {
                        let p = blocks.index_of(c);
                        assert(!w.cache.indexed(blocks[p]));
                    }
                    assert(s.cache.indexed(c));
                }
            }
        }
        assert forall|q: SequenceId| #[trigger] w.running.contains(q) <==> w.runs(q) by {
            assert(s.running.contains(q) <==> s.runs(q));
        }
        assert forall|q: SequenceId| #[trigger] w.waiting.contains(q) <==> w.waits(q) by {
            assert(s.waiting.contains(q) <==> s.waits(q));
        }
    }
}

proof fn lemma_table_is_held(s: SchedView, k: int)
    requires
        s.wf_core(),
        0 <= k < s.tables.len(),
    ensures
        s.cache.holds(s.tables[k]),
{
    assert forall|b: BlockId| #[trigger]
        occurrences(s.tables[k], b) <= refs_of(s.cache.refs, b) by {
        lemma_held_update(s.tables, k, Seq::empty(), b);
        assert(refs_of(s.cache.refs, b) == held(s.tables, b));
    }
}

/// Emptying a table after its references were dropped keeps the block accounts.
proof fn lemma_table_released(s: SchedView, w: SchedView, k: int)
    requires
        s.wf_core(),
        0 <= k < s.tables.len(),
        w.tables == s.tables.update(k, Seq::empty()),
        w.cache.block_size == s.cache.block_size,
        forall|c: BlockId| #[trigger]
            refs_of(w.cache.refs, c) == refs_of(s.cache.refs, c) - occurrences(s.tables[k], c),
        forall|c: BlockId| s.cache.indexed(c) ==> #[trigger] w.cache.indexed(c),
    ensures
        forall|b: BlockId| #[trigger] refs_of(w.cache.refs, b) == held(w.tables, b),
        forall|b: BlockId| !w.cache.indexed(b) ==> #[trigger] held(w.tables, b) <= 1,
{
    assert forall|b: BlockId| #[trigger] refs_of(w.cache.refs, b) == held(w.tables, b) by {
        lemma_held_update(s.tables, k, Seq::empty(), b);
        assert(refs_of(s.cache.refs, b) == held(s.tables, b));
    }
    assert forall|b: BlockId| !w.cache.indexed(b) implies #[trigger] held(w.tables, b) <= 1 by {
        lemma_held_update(s.tables, k, Seq::empty(), b);
        assert(!s.cache.indexed(b));
    }
}

/// Preemption keeps everything in order.
pub proof fn lemma_preempted(s: SchedView, id: SequenceId)
    requires
        s.wf(),
        s.running.contains(id),
    ensures
        s.known(id),
        s.cache.holds(s.table_of(id)),
        s.preempted(id).wf(),
        s.preempted(id).running.len() == s.running.len() - 1,
        s.same_streams(s.preempted(id)),
        forall|q: SequenceId|
            q != id && s.known(q) ==> #[trigger] s.preempted(id).seq_of(q) == s.seq_of(q),
        s.preempted(id).cache.block_size == s.cache.block_size,
        s.preempted(id).cache.capacity() == s.cache.capacity(),
        s.preempted(id).cfg == s.cfg,
{
    assert(s.runs(id));
    let k = id.0 - 1;
    let w = s.preempted(id);
    let table = s.table_of(id);
    lemma_table_is_held(s, k);
    lemma_released(s.cache, table, table.len());
    assert(table.take(table.len() as int) =~= table);
    lemma_table_released(s, w, k);
    lemma_without(s.running, id);
    assert(!s.waiting.contains(id)) by {
        assert(s.waiting.contains(id) <==> s.waits(id));
    }
    lemma_push_keeps_distinct(s.waiting, id);
    assert forall|q: SequenceId| #[trigger] w.running.contains(q) <==> w.runs(q) by {
        assert(s.running.contains(q) <==> s.runs(q));
        if q != id && s.known(q) {
            assert(w.seq_of(q) == s.seq_of(q));
        }
    }
    assert forall|q: SequenceId| #[trigger] w.waiting.contains(q) <==> w.waits(q) by {
        assert(s.waiting.contains(q) <==> s.waits(q));
        if q != id && s.known(q) {
            assert(w.seq_of(q) == s.seq_of(q));
        }
    }
    assert forall|i: int, j: int|
        0 <= i < w.tables.len() && 0 <= j < w.tables[i].len() implies #[trigger] w.addressed(
        i,
        j,
    ) by {
        assert(i != k);
        assert(s.tables[i][j] == w.tables[i][j]);
        assert(s.addressed(i, j));
    }
    assert forall|i: int|
        0 <= i < w.seqs.len() && (w.seqs[i].computed == 0
            || w.seqs[i].state is Finished) implies (#[trigger] w.tables[i]).len() == 0 by {
        if i != k {
            assert(s.tables[i].len() == 0);
        }
    }
}

/// Taking a match over keeps everything in order.
pub proof fn lemma_matched(s: SchedView, id: SequenceId)
    requires
        s.wf(),
        s.open(id),
        s.seq_of(id).computed == 0,
    ensures
        ({
            let w = s.matched(id);
            let q = s.seq_of(id);
            let found = s.cache.acquired(s.cache.matchable(q.tenant, q.tokens)).1;
            &&& found.len() * s.cache.block_size <= q.tokens.len()
            &&& q.tokens.len() > 0 ==> w.seq_of(id).computed < q.tokens.len()
            &&& w.wf()
            &&& s.same_streams(w)
            &&& w.seq_of(id).state == q.state
            &&& w.running == s.running
            &&& w.waiting == s.waiting
            &&& w.cfg == s.cfg
            &&& w.cache.block_size == s.cache.block_size
            &&& w.cache.capacity() == s.cache.capacity()
            &&& forall|p: SequenceId|
                p != id && s.known(p) ==> #[trigger] w.seq_of(p) == s.seq_of(p)
        }),
{
    let k = id.0 - 1;
    let w = s.matched(id);
    let q = s.seq_of(id);
    let usable = s.cache.matchable(q.tenant, q.tokens);
    let (cache, found) = s.cache.acquired(usable);
    let size = s.cache.block_size;
    lemma_acquired(s.cache, usable);
    law_a_match_follows_the_addresses(s.cache, q.tenant, q.tokens);
    crate::kvcache::cache::lemma_match_stops_short(s.cache, q.tenant, q.tokens, found.len());
    assert(s.tables[k].len() == 0);
    let hashes = chain_spec(q.tenant, q.tokens, size);
    assert forall|p: SequenceId| #[trigger] w.running.contains(p) <==> w.runs(p) by {
        assert(s.running.contains(p) <==> s.runs(p));
    }
    assert forall|p: SequenceId| #[trigger] w.waiting.contains(p) <==> w.waits(p) by {
        assert(s.waiting.contains(p) <==> s.waits(p));
    }
    assert forall|b: BlockId| #[trigger] refs_of(w.cache.refs, b) == held(w.tables, b) by {
        lemma_held_update(s.tables, k, found, b);
        assert(refs_of(s.cache.refs, b) == held(s.tables, b));
        assert(refs_of(cache.refs, b) == refs_of(s.cache.refs, b) + occurrences(found, b));
        if found.len() == 0 {
            assert(found =~= Seq::<BlockId>::empty());
        }
    }
    assert forall|b: BlockId| !w.cache.indexed(b) implies #[trigger] held(w.tables, b) <= 1 by {
        lemma_held_update(s.tables, k, found, b);
        assert(!s.cache.indexed(b));
        if found.contains(b) {
            let p = found.index_of(b);
            assert(s.cache.indexed(found[p]));
        }
        lemma_occurrences_contains(found, b);
        assert(refs_of(s.cache.refs, b) == held(s.tables, b));
    }
    assert forall|i: int, j: int|
        0 <= i < w.tables.len() && 0 <= j < w.tables[i].len() implies #[trigger] w.addressed(
        i,
        j,
    ) by {
        if i == k && found.len() > 0 {
            assert(w.tables[i][j] == found[j]);
            assert(hashes[j] == prefix_address(q.tenant, q.tokens, size, (j + 1) as nat));
            lemma_block_in_bounds(q.tokens.len() as int, size as int, j);
        } else {
            assert(s.tables[i][j] == w.tables[i][j]);
            assert(s.addressed(i, j));
        }
    }
    assert(found.len() > 0 ==> found.len() * size > 0) by (nonlinear_arith)
        requires
            size > 0,
    ;
    assert forall|i: int|
        0 <= i < w.seqs.len() && (w.seqs[i].computed == 0
            || w.seqs[i].state is Finished) implies (#[trigger] w.tables[i]).len() == 0 by {
        if i != k {
            assert(s.tables[i].len() == 0);
        }
    }
}

/// Running a chunk keeps everything in order, once the sequence has left the
/// queue.
pub proof fn lemma_chunk_run(s: SchedView, id: SequenceId, len: nat)
    requires
        s.wf_core(),
        s.cleared_but(id.0 - 1),
        s.open(id),
        len > 0,
        s.seq_of(id).computed + len <= s.seq_of(id).tokens.len(),
    ensures
        ({
            let w = SchedView { waiting: without(s.waiting, id), ..s.chunk_run(id, len) };
            &&& w.wf()
            &&& w.runs(id)
            &&& s.same_streams(w)
            &&& forall|p: SequenceId|
                p != id && s.known(p) ==> #[trigger] w.seq_of(p) == s.seq_of(p)
        }),
{
    let k = id.0 - 1;
    let w = SchedView { waiting: without(s.waiting, id), ..s.chunk_run(id, len) };
    lemma_without(s.waiting, id);
    if !s.running.contains(id) {
        lemma_push_keeps_distinct(s.running, id);
    }
    assert forall|p: SequenceId| #[trigger] w.running.contains(p) <==> w.runs(p) by {
        assert(s.running.contains(p) <==> s.runs(p));
        if p != id && s.known(p) {
            assert(w.seq_of(p) == s.seq_of(p));
        }
    }
    assert forall|p: SequenceId| #[trigger] w.waiting.contains(p) <==> w.waits(p) by {
        assert(s.waiting.contains(p) <==> s.waits(p));
        if p != id && s.known(p) {
            assert(w.seq_of(p) == s.seq_of(p));
        }
    }
    assert forall|i: int, j: int|
        0 <= i < w.tables.len() && 0 <= j < w.tables[i].len() implies #[trigger] w.addressed(
        i,
        j,
    ) by {
        assert(s.addressed(i, j));
    }
    assert forall|i: int|
        0 <= i < w.seqs.len() && (w.seqs[i].computed == 0
            || w.seqs[i].state is Finished) implies (#[trigger] w.tables[i]).len() == 0 by {
        assert(i != k);
        assert(s.tables[i].len() == 0);
    }
}

/// Trying a prefill keeps everything in order, once a sequence that starts has
/// left the queue.
pub proof fn lemma_prefilled(s: SchedView, id: SequenceId, budget: nat, reserve: nat)
    requires
        s.wf(),
        s.open(id),
    ensures
        ({
            let (next, chunk) = s.prefilled(id, budget, reserve);
            let w = if chunk is Some {
                SchedView { waiting: without(s.waiting, id), ..next }
            } else {
                next
            };
            &&& w.wf()
            &&& next.waiting == s.waiting
            &&& next.cfg == s.cfg
            &&& s.same_streams(next)
            &&& next.cache.block_size == s.cache.block_size
            &&& next.cache.capacity() == s.cache.capacity()
            &&& forall|p: SequenceId|
                p != id && s.known(p) ==> #[trigger] next.seq_of(p) == s.seq_of(p)
            &&& match chunk {
                Some(c) => {
                    &&& c.seq == id
                    &&& 0 < c.len <= budget
                    &&& c.start + c.len <= s.seq_of(id).tokens.len()
                    &&& next.runs(id)
                    &&& next.seq_of(id).computed == c.start + c.len
                    &&& next.table_of(id).len() >= next.cache.blocks_for(
                        (c.start + c.len) as nat,
                    )
                },
                None => next.seq_of(id).state == s.seq_of(id).state && next.running == s.running,
            }
        }),
{
    let looked = if s.seq_of(id).computed == 0 {
        s.matched(id)
    } else {
        s
    };
    if s.seq_of(id).computed == 0 {
        lemma_matched(s, id);
    }
    let q = looked.seq_of(id);
    assert(looked.seqs[id.0 - 1].wf());
    let len = looked.chunk_len((q.tokens.len() - q.computed) as nat, budget);
    if len > 0 {
        let (grown, enough) = looked.ensured(id, q.computed + len, reserve);
        lemma_ensured(looked, id, q.computed + len, reserve);
        if enough {
            assert(grown.cleared_but(id.0 - 1)) by {
                assert forall|i: int|
                    0 <= i < grown.seqs.len() && i != id.0 - 1 && (grown.seqs[i].computed == 0
                        || grown.seqs[i].state is Finished) implies (
                #[trigger] grown.tables[i]).len() == 0 by {
                    assert(looked.tables[i].len() == 0);
                }
            }
            lemma_chunk_run(grown, id, len);
        }
    }
}

pub proof fn lemma_victim(s: SchedView, n: nat, now: Tick, protect: SequenceId)
    requires
        n <= s.running.len(),
    ensures
        match s.victim_among(n, now, protect) {
            Some(v) => v != protect && s.running.take(n as int).contains(v) && s.running.contains(
                v,
            ),
            None => forall|i: int| 0 <= i < n ==> s.running[i] == protect,
        },
    decreases n,
{
    if n > 0 {
        let m = (n - 1) as nat;
        lemma_victim(s, m, now, protect);
        let shorter = s.running.take(m as int);
        let longer = s.running.take(n as int);
        let id = s.running[m as int];
        assert(longer[m as int] == id);
        match s.victim_among(m, now, protect) {
            Some(v) => {
                let k = shorter.index_of(v);
                assert(longer[k] == v);
                assert(s.running[k] == v);
            },
            None => {},
        }
    }
}

/// Making room keeps everything in order and never evicts the sequence it is
/// made for.
pub proof fn lemma_made_room(
    s: SchedView,
    id: SequenceId,
    need: nat,
    now: Tick,
    gone: Seq<SequenceId>,
)
    requires
        s.wf(),
        s.in_state(id, SequenceState::Decoding),
    ensures
        ({
            let (w, all) = s.made_room(id, need, now, gone);
            &&& w.wf()
            &&& s.same_streams(w)
            &&& w.seq_of(id) == s.seq_of(id)
            &&& w.cfg == s.cfg
            &&& w.cache.block_size == s.cache.block_size
            &&& w.cache.capacity() == s.cache.capacity()
            &&& gone.len() <= all.len()
            &&& all.take(gone.len() as int) == gone
            &&& w.metrics.preemptions as int == (s.metrics.preemptions + (all.len() - gone.len()))
                % 0x1_0000_0000_0000_0000
            &&& w.running.len() == s.running.len() - (all.len() - gone.len())
        }),
    decreases s.running.len(),
{
    let (grown, enough) = s.ensured(id, need, 0);
    lemma_ensured(s, id, need, 0);
    if enough {
        assert(s.seqs[id.0 - 1].computed > 0);
        assert(grown.cleared_but(-1)) by {
            assert forall|i: int|
                0 <= i < grown.seqs.len() && (grown.seqs[i].computed == 0
                    || grown.seqs[i].state is Finished) implies (#[trigger] grown.tables[i]).len()
                == 0 by {
                assert(i != id.0 - 1);
                assert(s.tables[i].len() == 0);
            }
        }
        assert(gone.take(gone.len() as int) =~= gone);
    } else {
        lemma_victim(s, s.running.len(), now, id);
        match s.victim(now, id) {
            Some(v) => {
                lemma_preempted(s, v);
                let next = s.preempted(v);
                assert(next.seq_of(id) == s.seq_of(id));
                lemma_made_room(next, id, need, now, gone.push(v));
                let (w, all) = next.made_room(id, need, now, gone.push(v));
                assert(all.take(gone.len() as int) =~= all.take(gone.push(v).len() as int).take(
                    gone.len() as int,
                ));
                assert(gone.push(v).take(gone.len() as int) =~= gone);
            },
            None => {
                assert(gone.take(gone.len() as int) =~= gone);
            },
        }
    }
}

/// The pass keeps within its limits.
pub open spec fn within_limits(s: SchedView, batch: BatchView) -> bool {
    &&& batch.num_tokens() <= s.cfg.max_batch_tokens
    &&& batch.num_seqs() <= s.cfg.max_batch_seqs
}

pub proof fn lemma_chunk_tokens_push(chunks: Seq<PrefillChunk>, c: PrefillChunk)
    ensures
        chunk_tokens(chunks.push(c)) == chunk_tokens(chunks) + c.len,
{
    assert(chunks.push(c).drop_last() =~= chunks);
}

proof fn lemma_runnable_moves(s: SchedView, w: SchedView, batch: BatchView)
    requires
        s.runnable(batch),
        s.same_streams(w),
    ensures
        w.runnable(batch),
{
    assert forall|i: int| 0 <= i < batch.prefill.len() implies {
        let c = #[trigger] batch.prefill[i];
        &&& w.known(c.seq)
        &&& 0 < c.len
        &&& c.start + c.len <= w.seq_of(c.seq).tokens.len()
    } by {
        let c = batch.prefill[i];
        assert(same_stream(s.seqs[c.seq.0 - 1], w.seqs[c.seq.0 - 1]));
    }
}

pub proof fn lemma_runnable_with_chunk(
    s: SchedView,
    w: SchedView,
    batch: BatchView,
    chunk: Option<PrefillChunk>,
)
    requires
        s.runnable(batch),
        s.same_streams(w),
        match chunk {
            Some(c) => s.known(c.seq) && 0 < c.len && c.start + c.len <= s.seq_of(
                c.seq,
            ).tokens.len(),
            None => true,
        },
    ensures
        w.runnable(batch.with_chunk(chunk)),
{
    lemma_runnable_moves(s, w, batch);
    if chunk is Some {
        let c = chunk->0;
        assert(same_stream(s.seqs[c.seq.0 - 1], w.seqs[c.seq.0 - 1]));
        let longer = batch.with_chunk(chunk);
        assert forall|i: int| 0 <= i < longer.prefill.len() implies {
            let d = #[trigger] longer.prefill[i];
            &&& w.known(d.seq)
            &&& 0 < d.len
            &&& d.start + d.len <= w.seq_of(d.seq).tokens.len()
        } by {
            if i < batch.prefill.len() {
                assert(longer.prefill[i] == batch.prefill[i]);
            }
        }
    }
}

/// The decode part of a step keeps everything in order and within limits.
pub proof fn lemma_decode_from(
    s: SchedView,
    batch: BatchView,
    order: Seq<SequenceId>,
    i: nat,
    now: Tick,
)
    requires
        s.wf(),
        within_limits(s, batch),
        s.runnable(batch),
        batch.prefill.len() == 0,
    ensures
        ({
            let (w, b) = s.decode_from(batch, order, i, now);
            &&& w.wf()
            &&& s.same_streams(w)
            &&& w.cfg == s.cfg
            &&& w.cache.capacity() == s.cache.capacity()
            &&& within_limits(w, b)
            &&& w.runnable(b)
            &&& b.prefill == batch.prefill
            &&& batch.preempted.len() <= b.preempted.len()
            &&& w.metrics.preemptions as int == (s.metrics.preemptions + (b.preempted.len()
                - batch.preempted.len())) % 0x1_0000_0000_0000_0000
        }),
    decreases order.len() - i,
{
    if i >= order.len() || batch.decode.len() >= s.cfg.max_batch_seqs || batch.num_tokens()
        >= s.cfg.max_batch_tokens {
    } else {
        let id = order[i as int];
        if !s.in_state(id, SequenceState::Decoding) {
            lemma_decode_from(s, batch, order, i + 1, now);
        } else {
            let need = s.next_len(id);
            lemma_made_room(s, id, need, now, batch.preempted);
            let (next, gone) = s.made_room(id, need, now, batch.preempted);
            let decode = if next.table_of(id).len() >= next.cache.blocks_for(need) {
                batch.decode.push(id)
            } else {
                batch.decode
            };
            let b2 = BatchView { decode, preempted: gone, ..batch };
            assert(next.runnable(b2)) by {
                lemma_runnable_moves(s, next, batch);
                assert forall|k: int| 0 <= k < b2.decode.len() implies next.known(
                    #[trigger] b2.decode[k],
                ) by {
                    if k < batch.decode.len() {
                        assert(b2.decode[k] == batch.decode[k]);
                    }
                }
            }
            lemma_decode_from(next, b2, order, i + 1, now);
            let (w, b) = next.decode_from(b2, order, i + 1, now);
            assert(s.same_streams(w)) by {
                assert forall|k: int| 0 <= k < s.seqs.len() implies same_stream(
                    s.seqs[k],
                    #[trigger] w.seqs[k],
                ) by {
                    assert(same_stream(s.seqs[k], next.seqs[k]));
                }
            }
        }
    }
}

/// Leaving out evicted sequences keeps a pass within limits and runnable.
pub proof fn lemma_surviving(s: SchedView, batch: BatchView)
    requires
        within_limits(s, batch),
        s.runnable(batch),
    ensures
        within_limits(s, batch.surviving()),
        s.runnable(batch.surviving()),
{
    lemma_outside(batch.decode, batch.preempted);
    let kept = batch.surviving();
    assert forall|k: int| 0 <= k < kept.decode.len() implies s.known(#[trigger] kept.decode[k]) by {
        assert(kept.decode.contains(kept.decode[k]));
        let j = batch.decode.index_of(kept.decode[k]);
        assert(s.known(batch.decode[j]));
    }
}

/// The part of a step that continues prefills keeps everything in order and
/// within limits.
pub proof fn lemma_prefill_from(
    s: SchedView,
    batch: BatchView,
    order: Seq<SequenceId>,
    i: nat,
    reserve: nat,
)
    requires
        s.wf(),
        within_limits(s, batch),
        s.runnable(batch),
    ensures
        ({
            let (w, b) = s.prefill_from(batch, order, i, reserve);
            &&& w.wf()
            &&& s.same_streams(w)
            &&& w.cfg == s.cfg
            &&& w.cache.capacity() == s.cache.capacity()
            &&& within_limits(w, b)
            &&& w.runnable(b)
            &&& b.decode == batch.decode
            &&& b.preempted == batch.preempted
            &&& w.metrics.preemptions == s.metrics.preemptions
        }),
    decreases order.len() - i,
{
    if i >= order.len() || s.full(batch) {
    } else {
        let id = order[i as int];
        if !s.in_state(id, SequenceState::Prefilling) {
            lemma_prefill_from(s, batch, order, i + 1, reserve);
        } else {
            let (next, chunk) = s.prefilled(id, s.budget_left(batch), reserve);
            lemma_prefilled(s, id, s.budget_left(batch), reserve);
            assert(s.runs(id));
            assert(!s.waiting.contains(id)) by {
                assert(s.waiting.contains(id) <==> s.waits(id));
            }
            assert(next =~= SchedView { waiting: without(s.waiting, id), ..next });
            if chunk is Some {
                lemma_chunk_tokens_push(batch.prefill, chunk->0);
            }
            let b2 = batch.with_chunk(chunk);
            lemma_runnable_with_chunk(s, next, batch, chunk);
            lemma_prefill_from(next, b2, order, i + 1, reserve);
            let (w, b) = next.prefill_from(b2, order, i + 1, reserve);
            assert(s.same_streams(w)) by {
                assert forall|k: int| 0 <= k < s.seqs.len() implies same_stream(
                    s.seqs[k],
                    #[trigger] w.seqs[k],
                ) by {
                    assert(same_stream(s.seqs[k], next.seqs[k]));
                }
            }
        }
    }
}

/// Trying a prefill does not look at the queue.
pub proof fn lemma_prefill_ignores_the_queue(
    s: SchedView,
    queue: Seq<SequenceId>,
    id: SequenceId,
    budget: nat,
    reserve: nat,
)
    ensures
        ({
            let other = SchedView { waiting: queue, ..s };
            let (next, chunk) = s.prefilled(id, budget, reserve);
            other.prefilled(id, budget, reserve) == (SchedView { waiting: queue, ..next }, chunk)
        }),
{
    let other = SchedView { waiting: queue, ..s };
    let looked = if s.seq_of(id).computed == 0 {
        s.matched(id)
    } else {
        s
    };
    let other_looked = if other.seq_of(id).computed == 0 {
        other.matched(id)
    } else {
        other
    };
    assert(other_looked == SchedView { waiting: queue, ..looked });
    let q = looked.seq_of(id);
    let len = looked.chunk_len((q.tokens.len() - q.computed) as nat, budget);
    let (grown, enough) = looked.ensured(id, q.computed + len, reserve);
    assert(other_looked.ensured(id, q.computed + len, reserve) == (
        SchedView { waiting: queue, ..grown },
        enough,
    ));
    assert((SchedView { waiting: queue, ..grown }).chunk_run(id, len) == SchedView {
        waiting: queue,
        ..grown.chunk_run(id, len)
    });
}

/// The admission part of a step keeps everything in order and within limits,
/// counting as queued who was deferred and who is still to be looked at.
pub proof fn lemma_admit_from(
    s: SchedView,
    batch: BatchView,
    deferred: Seq<SequenceId>,
    ranked: Seq<SequenceId>,
    i: nat,
    reserve: nat,
)
    requires
        i <= ranked.len(),
        (SchedView { waiting: deferred + ranked.skip(i as int), ..s }).wf(),
        within_limits(s, batch),
        s.runnable(batch),
    ensures
        ({
            let (w, b, d) = s.admit_from(batch, deferred, ranked, i, reserve);
            &&& (SchedView { waiting: d, ..w }).wf()
            &&& s.same_streams(w)
            &&& w.cfg == s.cfg
            &&& w.cache.capacity() == s.cache.capacity()
            &&& within_limits(w, b)
            &&& w.runnable(b)
            &&& b.decode == batch.decode
            &&& b.preempted == batch.preempted
            &&& w.metrics.preemptions == s.metrics.preemptions
        }),
    decreases ranked.len() - i,
{
    let left = ranked.skip(i as int);
    let whole = SchedView { waiting: deferred + left, ..s };
    if i >= ranked.len() {
        assert(deferred + left =~= deferred);
    } else {
        let id = ranked[i as int];
        let rest = ranked.skip(i as int + 1);
        assert(left =~= seq![id] + rest);
        assert((deferred + left)[deferred.len() as int] == id);
        assert(whole.waiting.contains(id));
        assert(whole.waits(id));
        if s.full(batch) {
            assert(deferred.push(id) + rest =~= deferred + left);
            lemma_admit_from(s, batch, deferred.push(id), ranked, i + 1, reserve);
        } else {
            let budget = s.budget_left(batch);
            let (next, chunk) = s.prefilled(id, budget, reserve);
            lemma_prefill_ignores_the_queue(s, deferred + left, id, budget, reserve);
            lemma_prefilled(whole, id, budget, reserve);
            let b2 = batch.with_chunk(chunk);
            lemma_runnable_with_chunk(s, next, batch, chunk);
            let d2 = if chunk is Some {
                deferred
            } else {
                deferred.push(id)
            };
            if chunk is Some {
                lemma_chunk_tokens_push(batch.prefill, chunk->0);
                let queue = deferred + left;
                let at = queue.index_of(id);
                assert(queue[at] == id);
                assert(at == deferred.len());
                assert(without(queue, id) =~= deferred + rest);
                assert((SchedView { waiting: without(queue, id), ..next }) == SchedView {
                    waiting: deferred + rest,
                    ..next
                });
            } else {
                assert(deferred.push(id) + rest =~= deferred + left);
            }
            lemma_admit_from(next, b2, d2, ranked, i + 1, reserve);
            let (w, b, d) = next.admit_from(b2, d2, ranked, i + 1, reserve);
            assert(s.same_streams(w)) by {
                assert forall|k: int| 0 <= k < s.seqs.len() implies same_stream(
                    s.seqs[k],
                    #[trigger] w.seqs[k],
                ) by {
                    assert(same_stream(s.seqs[k], next.seqs[k]));
                }
            }
        }
    }
}

/// Urgency is a total order.
pub proof fn lemma_urgency_is_total(s: SchedView, now: Tick)
    ensures
        vstd::relations::total_ordering(
            |a: SequenceId, b: SequenceId| s.no_less_urgent(a, b, now),
        ),
{
    let leq = |a: SequenceId, b: SequenceId| s.no_less_urgent(a, b, now);
    assert(vstd::relations::reflexive(leq));
    assert forall|a: SequenceId, b: SequenceId| #[trigger] leq(a, b) && #[trigger] leq(
        b,
        a,
    ) implies a == b by {
        assert(a.0 == b.0);
    }
    assert(vstd::relations::antisymmetric(leq));
    assert(vstd::relations::transitive(leq));
    assert(vstd::relations::strongly_connected(leq));
}

/// Ranking the queue changes its order only.
pub proof fn lemma_ranked(s: SchedView, now: Tick)
    ensures
        s.ranked(now).to_multiset() == s.waiting.to_multiset(),
        s.ranked(now).len() == s.waiting.len(),
        vstd::relations::sorted_by(
            s.ranked(now),
            |a: SequenceId, b: SequenceId| s.no_less_urgent(a, b, now),
        ),
        forall|id: SequenceId| #[trigger] s.ranked(now).contains(id) <==> s.waiting.contains(id),
        s.waiting.no_duplicates() ==> s.ranked(now).no_duplicates(),
{
    broadcast use vstd::seq_lib::group_to_multiset_ensures;

    lemma_urgency_is_total(s, now);
    s.waiting.lemma_sort_by_ensures(
        |a: SequenceId, b: SequenceId| s.no_less_urgent(a, b, now),
    );
    let r = s.ranked(now);
    assert(r.len() == r.to_multiset().len());
    assert forall|id: SequenceId| #[trigger] r.contains(id) <==> s.waiting.contains(id) by {
        assert(r.contains(id) <==> r.to_multiset().count(id) > 0);
        assert(s.waiting.contains(id) <==> s.waiting.to_multiset().count(id) > 0);
    }
    if s.waiting.no_duplicates() {
        s.waiting.lemma_multiset_has_no_duplicates();
        r.lemma_multiset_has_no_duplicates_conv();
    }
}

/// A step keeps everything in order and within limits.
pub proof fn lemma_stepped(s: SchedView, now: Tick)
    requires
        s.wf(),
    ensures
        ({
            let (w, b) = s.stepped(now);
            &&& w.wf()
            &&& s.same_streams(w)
            &&& w.cfg == s.cfg
            &&& w.cache.capacity() == s.cache.capacity()
            &&& within_limits(w, b)
            &&& w.runnable(b)
            &&& w.metrics.preemptions as int == (s.metrics.preemptions + b.preempted.len())
                % 0x1_0000_0000_0000_0000
        }),
{
    let begun = SchedView {
        metrics: SchedulerMetrics {
            steps: s.metrics.steps.wrapping_add(1),
            ..s.metrics
        },
        ..s
    };
    lemma_metrics_are_free(s, begun);
    assert(chunk_tokens(Seq::empty()) == 0);
    lemma_decode_from(begun, BatchView::empty(), s.running, 0, now);
    let (decoded, b0) = begun.decode_from(BatchView::empty(), s.running, 0, now);
    lemma_surviving(decoded, b0);
    let b1 = b0.surviving();
    lemma_prefill_from(decoded, b1, s.running, 0, s.reserve());
    let (continued, b2) = decoded.prefill_from(b1, s.running, 0, s.reserve());
    let ranked = continued.ranked(now);
    lemma_ranked(continued, now);
    let none = Seq::<SequenceId>::empty();
    assert(none + ranked.skip(0) =~= ranked);
    let requeued = SchedView { waiting: ranked, ..continued };
    lemma_queue_order_is_free(continued, requeued);
    lemma_admit_from(continued, b2, none, ranked, 0, s.reserve());
    let (admitted, b3, deferred) = continued.admit_from(b2, none, ranked, 0, s.reserve());
    assert forall|k: int| 0 <= k < s.seqs.len() implies same_stream(
        s.seqs[k],
        #[trigger] admitted.seqs[k],
    ) by {
        assert(same_stream(s.seqs[k], decoded.seqs[k]));
        assert(same_stream(decoded.seqs[k], continued.seqs[k]));
    }
}

pub proof fn lemma_queue_order_is_free(s: SchedView, w: SchedView)
    requires
        s.wf(),
        w == (SchedView { waiting: w.waiting, ..s }),
        w.waiting.no_duplicates(),
        forall|id: SequenceId| #[trigger] w.waiting.contains(id) <==> s.waiting.contains(id),
    ensures
        w.wf(),
{
    assert forall|p: SequenceId| #[trigger] w.running.contains(p) <==> w.runs(p) by {
        assert(s.running.contains(p) <==> s.runs(p));
    }
    assert forall|p: SequenceId| #[trigger] w.waiting.contains(p) <==> w.waits(p) by {
        assert(s.waiting.contains(p) <==> s.waits(p));
    }
    assert forall|i: int, j: int|
        0 <= i < w.tables.len() && 0 <= j < w.tables[i].len() implies #[trigger] w.addressed(
        i,
        j,
    ) by {
        assert(s.addressed(i, j));
    }
}

pub proof fn lemma_metrics_are_free(s: SchedView, w: SchedView)
    requires
        s.wf(),
        w == (SchedView { metrics: w.metrics, ..s }),
    ensures
        w.wf(),
{
    assert forall|p: SequenceId| #[trigger] w.running.contains(p) <==> w.runs(p) by {
        assert(s.running.contains(p) <==> s.runs(p));
    }
    assert forall|p: SequenceId| #[trigger] w.waiting.contains(p) <==> w.waits(p) by {
        assert(s.waiting.contains(p) <==> s.waits(p));
    }
    assert forall|i: int, j: int|
        0 <= i < w.tables.len() && 0 <= j < w.tables[i].len() implies #[trigger] w.addressed(
        i,
        j,
    ) by {
        assert(s.addressed(i, j));
    }
}

/// Queueing a request keeps everything in order.
pub proof fn lemma_queued(s: SchedView, request: RequestView, n: nat)
    requires
        s.wf(),
        s.seqs.len() + n <= usize::MAX,
        0 < request.prompt.len() <= usize::MAX,
    ensures
        s.queued(request, n).wf(),
{
    let w = s.queued(request, n);
    let old_len = s.seqs.len() as int;
    assert forall|i: int| 0 <= i < w.seqs.len() implies (#[trigger] w.seqs[i]).wf()
        && w.seqs[i].id.0 == i + 1 && (w.seqs[i].state.active() ==> w.seqs[i].computed > 0)
        && w.seqs[i].has_work() by {
        if i < old_len {
            assert(w.seqs[i] == s.seqs[i]);
        }
    }
    let ids = s.next_ids(n);
    assert forall|i: int, j: int|
        0 <= i < w.waiting.len() && 0 <= j < w.waiting.len() && i != j implies w.waiting[i]
        != w.waiting[j] by {
        let m = s.waiting.len() as int;
        if i < m {
            assert(s.waiting.contains(s.waiting[i]));
            assert(s.waits(s.waiting[i]));
        }
        if j < m {
            assert(s.waiting.contains(s.waiting[j]));
            assert(s.waits(s.waiting[j]));
        }
    }
    assert forall|p: SequenceId| #[trigger] w.running.contains(p) <==> w.runs(p) by {
        assert(s.running.contains(p) <==> s.runs(p));
        if w.known(p) {
            if s.known(p) {
                assert(w.seq_of(p) == s.seq_of(p));
            } else {
                assert(w.seq_of(p).state is Waiting);
            }
        }
    }
    assert forall|p: SequenceId| #[trigger] w.waiting.contains(p) <==> w.waits(p) by {
        assert(s.waiting.contains(p) <==> s.waits(p));
        if w.waiting.contains(p) {
            let k = w.waiting.index_of(p);
            if k < s.waiting.len() {
                assert(s.waiting[k] == p);
                assert(w.seq_of(p) == s.seq_of(p));
            } else {
                assert(ids[k - s.waiting.len()] == p);
                assert(w.seq_of(p).state is Waiting);
            }
        }
        if w.waits(p) {
            if s.known(p) {
                assert(w.seq_of(p) == s.seq_of(p));
                let k = s.waiting.index_of(p);
                assert(w.waiting[k] == p);
            } else {
                let k = p.0 - 1 - old_len;
                assert(ids[k] == p);
                assert(w.waiting[s.waiting.len() + k] == p);
            }
        }
    }
    assert forall|b: BlockId| #[trigger] refs_of(w.cache.refs, b) == held(w.tables, b) by {
        lemma_held_append_empty(s.tables, n, b);
        assert(refs_of(s.cache.refs, b) == held(s.tables, b));
    }
    assert forall|b: BlockId| !w.cache.indexed(b) implies #[trigger] held(w.tables, b) <= 1 by {
        lemma_held_append_empty(s.tables, n, b);
    }
    assert forall|i: int, j: int|
        0 <= i < w.tables.len() && 0 <= j < w.tables[i].len() implies #[trigger] w.addressed(
        i,
        j,
    ) by {
        assert(i < old_len);
        assert(w.tables[i] == s.tables[i]);
        assert(s.addressed(i, j));
    }
    assert forall|i: int|
        0 <= i < w.seqs.len() && (w.seqs[i].computed == 0
            || w.seqs[i].state is Finished) implies (#[trigger] w.tables[i]).len() == 0 by {
        if i < old_len {
            assert(s.tables[i].len() == 0);
        }
    }
}

/// The blocks of a sequence cover its tokens, as publishing demands.
pub proof fn lemma_table_covers(s: SchedView, id: SequenceId)
    requires
        s.wf_core(),
        s.known(id),
    ensures
        s.cache.covers(
            chain_spec(s.seq_of(id).tenant, s.seq_of(id).tokens, s.cache.block_size),
            s.table_of(id),
        ),
        s.cache.holds(s.table_of(id)),
{
    let k = id.0 - 1;
    let table = s.table_of(id);
    let q = s.seq_of(id);
    let hashes = chain_spec(q.tenant, q.tokens, s.cache.block_size);
    lemma_table_is_held(s, k);
    assert forall|i: int| 0 <= i < table.len() implies s.cache.is_live(#[trigger] table[i]) by {
        assert(table.contains(table[i]));
        lemma_occurrences_contains(table, table[i]);
        assert(occurrences(table, table[i]) <= refs_of(s.cache.refs, table[i]));
    }
    assert forall|i: int|
        0 <= i < hashes.len() && i < table.len() && s.cache.indexed(
            #[trigger] table[i],
        ) implies s.cache.prefix.by_block[table[i].0] == hashes[i] by {
        assert(s.addressed(k, i));
    }
    assert forall|i: int, j: int|
        0 <= i < hashes.len() && i < table.len() && 0 <= j < hashes.len() && j < table.len()
            && #[trigger] table[i] == #[trigger] table[j] implies hashes[i] == hashes[j] by {
        assert(s.addressed(k, i));
        assert(s.addressed(k, j));
        if !s.cache.indexed(table[i]) && i != j {
            if i < j {
                lemma_two_positions(table, i, j);
            } else {
                lemma_two_positions(table, j, i);
            }
            lemma_held_update(s.tables, k, Seq::empty(), table[i]);
            assert(held(s.tables, table[i]) <= 1);
        }
    }
}

/// Ending a sequence keeps everything in order.
pub proof fn lemma_ended(s: SchedView, id: SequenceId, reason: FinishReason)
    requires
        s.wf(),
        s.open(id),
    ensures
        s.ended(id, reason).wf(),
        s.ended(id, reason).seqs.len() == s.seqs.len(),
        forall|p: SequenceId|
            p != id && s.known(p) ==> #[trigger] s.ended(id, reason).seq_of(p) == s.seq_of(p),
{
    let k = id.0 - 1;
    let w = s.ended(id, reason);
    let q = s.seq_of(id);
    let table = s.table_of(id);
    let hashes = chain_spec(q.tenant, q.tokens, s.cache.block_size);
    let n = pairs(hashes.len(), table.len());
    lemma_table_covers(s, id);
    lemma_published(s.cache, hashes, table, n);
    let mid = s.cache.published(hashes, table, n);
    assert(mid.holds(table));
    lemma_released(mid, table, table.len());
    assert(table.take(table.len() as int) =~= table);
    assert forall|c: BlockId| #[trigger]
        refs_of(w.cache.refs, c) == refs_of(s.cache.refs, c) - occurrences(s.tables[k], c) by {
        assert(refs_of(w.cache.refs, c) == refs_of(mid.refs, c) - occurrences(table, c));
    }
    lemma_table_released(s, w, k);
    lemma_without(s.running, id);
    lemma_without(s.waiting, id);
    assert forall|p: SequenceId| #[trigger] w.running.contains(p) <==> w.runs(p) by {
        assert(s.running.contains(p) <==> s.runs(p));
        if p != id && s.known(p) {
            assert(w.seq_of(p) == s.seq_of(p));
        }
    }
    assert forall|p: SequenceId| #[trigger] w.waiting.contains(p) <==> w.waits(p) by {
        assert(s.waiting.contains(p) <==> s.waits(p));
        if p != id && s.known(p) {
            assert(w.seq_of(p) == s.seq_of(p));
        }
    }
    assert forall|i: int, j: int|
        0 <= i < w.tables.len() && 0 <= j < w.tables[i].len() implies #[trigger] w.addressed(
        i,
        j,
    ) by {
        let c = w.tables[i][j];
        assert(i != k);
        assert(s.tables[i][j] == c);
        assert(s.addressed(i, j));
        if w.cache.indexed(c) && !s.cache.indexed(c) {
            let p = choose|p: int|
                0 <= p < n && #[trigger] table[p] == BlockId(c.0) && mid.prefix.by_block[c.0]
                    == hashes[p];
            assert(table[p] == c);
            assert(table.contains(c));
            assert(s.tables[i].contains(c));
            lemma_occurrences_contains(table, c);
            lemma_occurrences_contains(s.tables[i], c);
            lemma_held_two(s.tables, i, k, c);
            assert(held(s.tables, c) <= 1);
        }
    }
    assert forall|i: int|
        0 <= i < w.seqs.len() && (w.seqs[i].computed == 0
            || w.seqs[i].state is Finished) implies (#[trigger] w.tables[i]).len() == 0 by {
        if i != k {
            assert(s.tables[i].len() == 0);
        }
    }
}

/// Appending a token keeps everything in order.
pub proof fn lemma_fed_token(s: SchedView, id: SequenceId, token: TokenId, now: Tick)
    requires
        s.wf(),
        s.in_state(id, SequenceState::Decoding),
        s.seq_of(id).tokens.len() < usize::MAX,
    ensures
        s.fed_token(id, token, now).wf(),
        s.fed_token(id, token, now).seqs.len() == s.seqs.len(),
        s.fed_token(id, token, now).in_state(id, SequenceState::Decoding),
{
    let k = id.0 - 1;
    let w = s.fed_token(id, token, now);
    let q = s.seq_of(id);
    assert forall|p: SequenceId| #[trigger] w.running.contains(p) <==> w.runs(p) by {
        assert(s.running.contains(p) <==> s.runs(p));
        if p != id && s.known(p) {
            assert(w.seq_of(p) == s.seq_of(p));
        }
    }
    assert forall|p: SequenceId| #[trigger] w.waiting.contains(p) <==> w.waits(p) by {
        assert(s.waiting.contains(p) <==> s.waits(p));
        if p != id && s.known(p) {
            assert(w.seq_of(p) == s.seq_of(p));
        }
    }
    assert forall|i: int, j: int|
        0 <= i < w.tables.len() && 0 <= j < w.tables[i].len() implies #[trigger] w.addressed(
        i,
        j,
    ) by {
        assert(s.addressed(i, j));
        if i == k && s.cache.indexed(s.tables[i][j]) {
            let n = (j + 1) * s.cache.block_size;
            let longer = q.tokens.push(token);
            assert(q.tokens.take(n) =~= longer.take(n));
            law_address_depends_on_the_prefix_alone(
                q.tenant,
                q.tokens,
                longer,
                s.cache.block_size,
                (j + 1) as nat,
            );
        }
    }
    assert forall|i: int|
        0 <= i < w.seqs.len() && (w.seqs[i].computed == 0
            || w.seqs[i].state is Finished) implies (#[trigger] w.tables[i]).len() == 0 by {
        assert(i != k);
        assert(s.tables[i].len() == 0);
    }
}

} // verus!
