//! The scheduler itself.
use vstd::prelude::*;

use super::model::{
    chunk_tokens, held, BatchView, FinishedView, PrefillChunk, SchedView, SchedulerConfig,
    SchedulerMetrics,
};
use super::order::{
    lemma_chunk_tokens_push, lemma_decode_from, lemma_ended, lemma_ensured, lemma_fed_token,
    lemma_made_room,
    lemma_matched, lemma_metrics_are_free, lemma_preempted, lemma_prefill_ignores_the_queue,
    lemma_prefilled, lemma_queue_order_is_free, lemma_queued, lemma_ranked, lemma_stepped, lemma_surviving,
    lemma_table_covers, lemma_urgency_is_total, lemma_victim, within_limits,
};
use crate::error::{Error, Result, SamplingFault};
use crate::ids::{RequestId, SequenceId};
use crate::kvcache::allocator::refs_of;
use crate::kvcache::cache::{CacheView, KvCache, KvCacheConfig};
use crate::kvcache::hash::chain_spec;
use crate::kvcache::BlockId;
use crate::lists::{outside, without};
use crate::number::Ratio;
use crate::request::{slack, Request, ServiceClass};
use crate::sequence::{FinishReason, Sequence, SequenceState};
use crate::{Tick, TokenId};

verus! {

impl Default for SchedulerMetrics {
    fn default() -> (r: Self)
        ensures
            r == SchedulerMetrics::zero(),
    {
        SchedulerMetrics {
            admitted: 0,
            finished: 0,
            preemptions: 0,
            ttft_deadline_misses: 0,
            steps: 0,
            prefill_tokens_computed: 0,
            prefill_tokens_reused: 0,
        }
    }
}

impl SchedulerMetrics {
    /// Share of context tokens served from the prefix cache rather than run.
    pub open spec fn reuse_rate(self) -> Ratio {
        Ratio::share_spec(
            self.prefill_tokens_reused as nat,
            (self.prefill_tokens_computed + self.prefill_tokens_reused) as nat,
        )
    }

    /// Share of context tokens served from the prefix cache rather than run.
    pub fn prefill_reuse_rate(&self) -> (r: Ratio)
        ensures
            r == self.reuse_rate(),
    {
        Ratio::share(
            self.prefill_tokens_reused as u128,
            self.prefill_tokens_computed as u128 + self.prefill_tokens_reused as u128,
        )
    }
}

/// What the runtime should execute this step.
#[derive(Debug, Clone, PartialEq, Eq)]
pub struct ScheduledBatch {
    pub prefill: Vec<PrefillChunk>,
    pub decode: Vec<SequenceId>,
    /// Sequences evicted this step. Their tokens are kept; their blocks are not.
    pub preempted: Vec<SequenceId>,
}

impl View for ScheduledBatch {
    type V = BatchView;

    open spec fn view(&self) -> BatchView {
        BatchView {
            prefill: self.prefill@,
            decode: self.decode@,
            preempted: self.preempted@,
        }
    }
}

impl Default for ScheduledBatch {
    fn default() -> (r: Self)
        ensures
            r@ == BatchView::empty(),
    {
        ScheduledBatch { prefill: Vec::new(), decode: Vec::new(), preempted: Vec::new() }
    }
}

impl ScheduledBatch {
    /// Give up the decode slots of sequences that were evicted for another.
    fn drop_evicted(&mut self)
        ensures
            final(self)@ == old(self)@.surviving(),
    {
        let ghost before = self@;
        let mut kept: Vec<SequenceId> = Vec::with_capacity(self.decode.len());
        for i in 0..self.decode.len()
            invariant
                self@ == before,
                kept@ == outside(before.decode.take(i as int), before.preempted),
        {
            let id = self.decode[i];
            let mut evicted: bool = false;
            for j in 0..self.preempted.len()
                invariant
                    self@ == before,
                    evicted == before.preempted.take(j as int).contains(id),
            {
                let ghost earlier = before.preempted.take(j as int);
                assert(before.preempted.take(j + 1) =~= earlier.push(before.preempted[j as int]));
                if self.preempted[j] == id {
                    evicted = true;
                    assert(before.preempted.take(j + 1)[j as int] == id);
                } else if evicted {
                    assert(before.preempted.take(j + 1)[earlier.index_of(id)] == id);
                }
            }
            assert(before.preempted.take(before.preempted.len() as int) =~= before.preempted);
            assert(before.decode.take(i + 1).drop_last() =~= before.decode.take(i as int));
            if !evicted {
                kept.push(id);
            }
        }
        assert(before.decode.take(before.decode.len() as int) =~= before.decode);
        self.decode = kept;
        assert(self@ =~= before.surviving());
    }

    pub fn is_empty(&self) -> (r: bool)
        ensures
            r == (self@.prefill.len() == 0 && self@.decode.len() == 0),
    {
        self.prefill.len() == 0 && self.decode.len() == 0
    }

    /// Total tokens in the forward pass.
    pub fn num_tokens(&self) -> (r: usize)
        requires
            self@.num_tokens() <= usize::MAX,
        ensures
            r == self@.num_tokens(),
    {
        let mut total: usize = self.decode.len();
        let mut i: usize = 0;
        while i < self.prefill.len()
            invariant
                i <= self.prefill@.len(),
                self@.num_tokens() <= usize::MAX,
                total == self.decode@.len() + chunk_tokens(self.prefill@.take(i as int)),
            decreases self.prefill.len() - i,
        {
            proof {
                lemma_chunk_tokens_push(self.prefill@.take(i as int), self.prefill@[i as int]);
                assert(self.prefill@.take(i as int).push(self.prefill@[i as int])
                    =~= self.prefill@.take(i + 1));
                lemma_chunk_tokens_take(self.prefill@, i + 1);
            }
            total = total + self.prefill[i].len;
            i = i + 1;
        }
        assert(self.prefill@.take(i as int) =~= self.prefill@);
        total
    }

    pub fn num_seqs(&self) -> (r: usize)
        requires
            self@.num_seqs() <= usize::MAX,
        ensures
            r == self@.num_seqs(),
    {
        self.decode.len() + self.prefill.len()
    }
}

proof fn lemma_chunk_tokens_take(chunks: Seq<PrefillChunk>, n: int)
    requires
        0 <= n <= chunks.len(),
    ensures
        chunk_tokens(chunks.take(n)) <= chunk_tokens(chunks),
    decreases chunks.len() - n,
{
    if n < chunks.len() {
        lemma_chunk_tokens_push(chunks.take(n), chunks[n]);
        assert(chunks.take(n).push(chunks[n]) =~= chunks.take(n + 1));
        lemma_chunk_tokens_take(chunks, n + 1);
    } else {
        assert(chunks.take(n) =~= chunks);
    }
}

/// One sequence that reached a terminal state.
#[derive(Debug, Clone)]
pub struct Finished {
    pub seq: SequenceId,
    pub request: RequestId,
    pub reason: FinishReason,
    pub output: Vec<TokenId>,
    pub ttft_us: Option<Tick>,
    pub mean_itl_us: Option<Ratio>,
    pub cached_prefix_len: usize,
}

impl View for Finished {
    type V = FinishedView;

    open spec fn view(&self) -> FinishedView {
        FinishedView {
            seq: self.seq,
            request: self.request,
            reason: self.reason,
            output: self.output@,
            ttft_us: self.ttft_us,
            mean_itl_us: self.mean_itl_us,
            cached_prefix_len: self.cached_prefix_len as nat,
        }
    }
}

/// The reports in a list, as values.
pub open spec fn reports(done: Seq<Finished>) -> Seq<FinishedView> {
    Seq::new(done.len(), |i: int| done[i]@)
}

fn remove_id(list: &mut Vec<SequenceId>, id: SequenceId)
    requires
        old(list)@.no_duplicates(),
    ensures
        final(list)@ == without(old(list)@, id),
{
    let mut i: usize = 0;
    while i < list.len()
        invariant
            list@ == old(list)@,
            old(list)@.no_duplicates(),
            i <= list@.len(),
            forall|j: int| 0 <= j < i ==> list@[j] != id,
        decreases list.len() - i,
    {
        if list[i] == id {
            assert(old(list)@.index_of(id) == i) by {
                assert(old(list)@[i as int] == id);
            }
            let _ = list.remove(i);
            return ;
        }
        i = i + 1;
    }
    assert(!list@.contains(id));
}

fn contains_id(list: &Vec<SequenceId>, id: SequenceId) -> (r: bool)
    ensures
        r == list@.contains(id),
{
    let mut i: usize = 0;
    while i < list.len()
        invariant
            i <= list@.len(),
            forall|j: int| 0 <= j < i ==> list@[j] != id,
        decreases list.len() - i,
    {
        if list[i] == id {
            assert(list@[i as int] == id);
            return true;
        }
        i = i + 1;
    }
    false
}

/// Continuous batching against deadlines, over one paged KV cache.
pub struct Scheduler {
    cfg: SchedulerConfig,
    cache: KvCache,
    seqs: Vec<Sequence>,
    tables: Vec<Vec<BlockId>>,
    waiting: Vec<SequenceId>,
    running: Vec<SequenceId>,
    metrics: SchedulerMetrics,
}

impl View for Scheduler {
    type V = SchedView;

    closed spec fn view(&self) -> SchedView {
        SchedView {
            cfg: self.cfg,
            cache: self.cache@,
            seqs: Seq::new(self.seqs@.len(), |i: int| self.seqs@[i]@),
            tables: Seq::new(self.tables@.len(), |i: int| self.tables@[i]@),
            waiting: self.waiting@,
            running: self.running@,
            metrics: self.metrics,
        }
    }
}

impl Scheduler {
    pub fn new(cfg: SchedulerConfig, cache: KvCacheConfig) -> (r: Self)
        requires
            cfg.wf(),
            cache.wf(),
        ensures
            r@.wf(),
            r@ == (SchedView {
                cfg,
                cache: CacheView::fresh(cache),
                seqs: Seq::empty(),
                tables: Seq::empty(),
                waiting: Seq::empty(),
                running: Seq::empty(),
                metrics: SchedulerMetrics::zero(),
            }),
    {
        let r = Scheduler {
            cfg,
            cache: KvCache::new(cache),
            seqs: Vec::new(),
            tables: Vec::new(),
            waiting: Vec::new(),
            running: Vec::new(),
            metrics: SchedulerMetrics::default(),
        };
        proof {
            assert(r@.seqs =~= Seq::empty());
            assert(r@.tables =~= Seq::empty());
            assert forall|b: BlockId| #[trigger] refs_of(r@.cache.refs, b) == held(
                r@.tables,
                b,
            ) by {}
        }
        r
    }

    pub fn metrics(&self) -> (r: SchedulerMetrics)
        ensures
            r == self@.metrics,
    {
        self.metrics
    }

    pub fn cache(&self) -> (r: &KvCache)
        ensures
            r@ == self@.cache,
    {
        &self.cache
    }

    pub fn num_waiting(&self) -> (r: usize)
        ensures
            r == self@.waiting.len(),
    {
        self.waiting.len()
    }

    pub fn num_running(&self) -> (r: usize)
        ensures
            r == self@.running.len(),
    {
        self.running.len()
    }

    fn is_known(&self, id: SequenceId) -> (r: bool)
        ensures
            r == self@.known(id),
    {
        id.0 >= 1 && id.0 <= self.seqs.len() as u64
    }

    /// Where a known sequence stands.
    fn at(&self, id: SequenceId) -> (r: usize)
        requires
            self@.known(id),
        ensures
            r == id.0 - 1,
            r < self@.seqs.len(),
    {
        assert(self.seqs.len() == self@.seqs.len());
        (id.0 - 1) as usize
    }

    pub fn sequence(&self, id: SequenceId) -> (r: Option<&Sequence>)
        ensures
            match r {
                Some(q) => self@.known(id) && q@ == self@.seq_of(id),
                None => !self@.known(id),
            },
    {
        if self.is_known(id) {
            Some(&self.seqs[self.at(id)])
        } else {
            None
        }
    }

    /// The blocks that hold a sequence's KV entries, in order. A sequence that
    /// has ended has none, not even an empty table.
    pub fn block_table(&self, id: SequenceId) -> (r: Option<&[BlockId]>)
        requires
            self@.wf(),
        ensures
            match r {
                Some(t) => self@.open(id) && t@ == self@.table_of(id),
                None => !self@.open(id),
            },
    {
        if self.is_known(id) && !self.seqs[self.at(id)].state.is_finished() {
            Some(self.tables[self.at(id)].as_slice())
        } else {
            None
        }
    }

    /// Blocks held back from admission so decodes can always grow.
    fn reserved_blocks(&self) -> (r: usize)
        requires
            self@.cfg.wf(),
        ensures
            r == self@.reserve(),
    {
        let share: usize = self.cfg.watermark.round_up(self.cache.capacity());
        if share >= 1 {
            share
        } else {
            1
        }
    }

    /// Accept a request and queue one sequence per requested completion.
    pub fn accept(&mut self, request: Request) -> (r: Result<Vec<SequenceId>>)
        requires
            old(self)@.wf(),
        ensures
            final(self)@.wf(),
            match old(self)@.refusal(request@) {
                Some(error) => r == Err::<Vec<SequenceId>, Error>(error) && final(self)@
                    == old(self)@,
                None => {
                    &&& r is Ok
                    &&& r->Ok_0@ == old(self)@.next_ids(SchedView::streams(request@))
                    &&& final(self)@ == old(self)@.queued(request@, SchedView::streams(request@))
                },
            },
    {
        if let Err(e) = request.params.validate() {
            return Err(e);
        }
        if request.prompt_len() >= self.cfg.max_model_len {
            return Err(
                Error::PromptTooLong { got: request.prompt_len(), max: self.cfg.max_model_len },
            );
        }
        if request.prompt.len() == 0 {
            return Err(Error::InvalidSampling(SamplingFault::EmptyPrompt));
        }
        let n: usize = if request.n == 0 {
            1
        } else {
            request.n
        };
        let ghost v = self@;
        let mut ids: Vec<SequenceId> = Vec::with_capacity(n);
        let mut i: usize = 0;
        assert(self@ =~= SchedView { metrics: v.metrics, ..v.queued(request@, 0) });
        while i < n
            invariant
                i <= n,
                v.wf(),
                v.seqs.len() + i <= usize::MAX,
                ids@ == v.next_ids(i as nat),
                self@ == (SchedView { metrics: v.metrics, ..v.queued(request@, i as nat) }),
            decreases n - i,
        {
            let ghost before = self@;
            self.tables.push(Vec::new());
            let id = SequenceId(self.tables.len() as u64);
            let seq = Sequence::new(
                id,
                request.id,
                request.tenant.clone(),
                request.class,
                vstd::slice::slice_to_vec(request.prompt.as_slice()),
                request.params.max_tokens,
                request.arrived_at,
            );
            let ghost fresh = seq@;
            self.seqs.push(seq);
            self.waiting.push(id);
            ids.push(id);
            i = i + 1;
            proof {
                assert(self@.seqs =~= before.seqs.push(fresh));
                assert(self@.tables =~= before.tables.push(Seq::empty()));
                let goal = SchedView { metrics: v.metrics, ..v.queued(request@, i as nat) };
                assert(self@.seqs =~= goal.seqs);
                assert(self@.tables =~= goal.tables);
                assert(self@.waiting =~= goal.waiting);
                assert(ids@ =~= v.next_ids(i as nat));
            }
        }
        self.metrics.admitted = self.metrics.admitted.wrapping_add(n as u64);
        proof {
            assert(self@ =~= v.queued(request@, n as nat));
            assert(request.prompt.len() == request.prompt@.len());
            lemma_queued(v, request@, n as nat);
        }
        Ok(ids)
    }

    /// Microseconds until this sequence breaches its latency budget. Negative
    /// once breached. Lower is more urgent.
    fn slack_us(&self, id: SequenceId, now: Tick) -> (r: i64)
        ensures
            r == self@.slack(id, now),
            !self@.known(id) ==> r == i64::MAX,
            self@.known(id) && now <= i64::MAX ==> {
                let q = self@.seq_of(id);
                &&& q.last_token_at is None && q.arrived_at + 120_000_000 <= i64::MAX ==> r
                    == q.arrived_at - now + match q.class {
                    ServiceClass::Interactive => 500_000int,
                    ServiceClass::Batch => 10_000_000,
                    ServiceClass::Background => 120_000_000,
                }
                &&& q.last_token_at is Some && q.last_token_at->0 + 1_000_000 <= i64::MAX ==> r
                    == q.last_token_at->0 - now + match q.class {
                    ServiceClass::Interactive => 50_000int,
                    ServiceClass::Batch => 200_000,
                    ServiceClass::Background => 1_000_000,
                }
            },
    {
        if !self.is_known(id) {
            return i64::MAX;
        }
        let seq = &self.seqs[self.at(id)];
        assert(seq@ == self@.seq_of(id));
        let deadline: Tick = match seq.last_token_at {
            // Generating: measured against the next-token budget.
            Some(last) => last.saturating_add(seq.class.itl_budget_us()),
            // Not yet generating: measured against the first-token budget.
            None => seq.arrived_at.saturating_add(seq.class.ttft_budget_us()),
        };
        slack(deadline, now)
    }

    /// Grow a sequence's block table to cover `num_tokens`, returning false if
    /// the pool cannot satisfy it right now.
    fn ensure_blocks(&mut self, id: SequenceId, num_tokens: usize, reserve: usize) -> (r: bool)
        requires
            old(self)@.cache.wf(),
            old(self)@.seqs.len() == old(self)@.tables.len(),
            old(self)@.known(id),
        ensures
            (final(self)@, r) == old(self)@.ensured(id, num_tokens as nat, reserve as nat),
    {
        let at: usize = self.at(id);
        let have: usize = self.tables[at].len();
        let need: usize = self.cache.blocks_for(num_tokens);
        if need <= have {
            return true;
        }
        let want: usize = need - have;
        let allocatable: usize = self.cache.num_allocatable();
        if allocatable < want || allocatable - want < reserve {
            return false;
        }
        let ghost v = self@;
        match self.cache.allocate(want) {
            Ok(blocks) => {
                let mut blocks = blocks;
                self.tables[at].append(&mut blocks);
                proof {
                    let goal = v.ensured(id, num_tokens as nat, reserve as nat).0;
                    assert(self@.tables =~= goal.tables);
                    assert(self@.seqs =~= goal.seqs);
                }
                true
            },
            Err(_) => {
                assert(false);
                false
            },
        }
    }

    /// Release a running sequence's blocks and return it to the queue.
    fn preempt(&mut self, id: SequenceId)
        requires
            old(self)@.wf(),
            old(self)@.running.contains(id),
        ensures
            final(self)@ == old(self)@.preempted(id),
            final(self)@.wf(),
    {
        let ghost v = self@;
        proof {
            lemma_preempted(v, id);
        }
        let at: usize = self.at(id);
        let mut blocks: Vec<BlockId> = Vec::new();
        std::mem::swap(&mut self.tables[at], &mut blocks);
        assert(blocks@ == v.table_of(id));
        self.cache.release(blocks.as_slice());
        self.seqs[at].swap_out();
        remove_id(&mut self.running, id);
        self.waiting.push(id);
        self.metrics.preemptions = self.metrics.preemptions.wrapping_add(1);
        proof {
            let goal = v.preempted(id);
            assert(self@.tables =~= goal.tables);
            assert(self@.seqs =~= goal.seqs);
            assert(self@ =~= goal);
        }
    }

    /// Pick the running sequence that should yield its memory.
    ///
    /// The victim is the one with the most slack — the sequence least likely to
    /// miss a deadline while it waits. Ties go to the sequence with the fewest
    /// generated tokens, because that is the least work to recompute.
    fn preemption_victim(&self, now: Tick, protect: SequenceId) -> (r: Option<SequenceId>)
        requires
            self@.wf(),
        ensures
            r == self@.victim(now, protect),
    {
        let mut best: Option<SequenceId> = None;
        let mut i: usize = 0;
        while i < self.running.len()
            invariant
                self@.wf(),
                i <= self.running@.len(),
                best == self@.victim_among(i as nat, now, protect),
            decreases self.running.len() - i,
        {
            let id = self.running[i];
            proof {
                lemma_victim(self@, i as nat, now, protect);
                assert(self@.running.contains(id));
                assert(self@.runs(id));
            }
            if id != protect {
                match best {
                    None => {
                        best = Some(id);
                    },
                    Some(b) => {
                        assert(self@.runs(b));
                        let x: i64 = self.slack_us(b, now);
                        let y: i64 = self.slack_us(id, now);
                        assert(self@.seqs[b.0 - 1].wf());
                        assert(self@.seqs[id.0 - 1].wf());
                        let kept: usize = self.seqs[self.at(b)].output_len();
                        let lost: usize = self.seqs[self.at(id)].output_len();
                        if x < y || (x == y && kept >= lost) {
                            best = Some(id);
                        }
                    },
                }
            }
            i = i + 1;
        }
        best
    }

    /// Evict least urgent peers of `id` until its table covers `need` tokens or
    /// nobody is left to evict, never `id` itself. Decodes may draw on the
    /// watermark reserve; that is what it is for.
    fn make_room(&mut self, id: SequenceId, need: usize, now: Tick, gone: &mut Vec<SequenceId>)
        requires
            old(self)@.wf(),
            old(self)@.in_state(id, SequenceState::Decoding),
        ensures
            (final(self)@, final(gone)@) == old(self)@.made_room(
                id,
                need as nat,
                now,
                old(gone)@,
            ),
    {
        let ghost v = self@;
        let ghost first = gone@;
        loop
            invariant
                v == old(self)@,
                first == old(gone)@,
                self@.wf(),
                self@.in_state(id, SequenceState::Decoding),
                v.made_room(id, need as nat, now, first) == self@.made_room(
                    id,
                    need as nat,
                    now,
                    gone@,
                ),
            decreases self@.running.len(),
        {
            let ghost before = self@;
            proof {
                lemma_ensured(before, id, need as nat, 0);
            }
            if self.ensure_blocks(id, need, 0) {
                return ;
            }
            assert(self@ == before);
            proof {
                lemma_victim(before, before.running.len(), now, id);
            }
            match self.preemption_victim(now, id) {
                Some(victim) => {
                    proof {
                        lemma_preempted(before, victim);
                        assert(before.preempted(victim).seq_of(id) == before.seq_of(id));
                    }
                    self.preempt(victim);
                    gone.push(victim);
                },
                None => {
                    return ;
                },
            }
        }
    }

    /// Try to schedule one prefill chunk.
    ///
    /// Works on the whole computed context, not just the prompt. A sequence
    /// that was preempted mid-generation has to recompute the tokens it had
    /// already produced, and those tokens are part of the context that the
    /// prefix cache may well still hold.
    ///
    /// The state is in order with `queue` for its queue: during admission the
    /// queue proper is only written back at the end.
    fn try_prefill(
        &mut self,
        id: SequenceId,
        budget: usize,
        reserve: usize,
        Ghost(queue): Ghost<Seq<SequenceId>>,
    ) -> (r: Option<PrefillChunk>)
        requires
            (SchedView { waiting: queue, ..old(self)@ }).wf(),
            old(self)@.open(id),
        ensures
            (final(self)@, r) == old(self)@.prefilled(id, budget as nat, reserve as nat),
    {
        let ghost v = self@;
        let ghost whole = SchedView { waiting: queue, ..v };
        let at: usize = self.at(id);
        assert(whole.seqs[id.0 - 1].wf());
        // A first attempt consults the prefix cache; a resumed chunk does not,
        // because its earlier blocks are already in the table.
        if self.seqs[at].computed_len() == 0 {
            proof {
                lemma_matched(whole, id);
                assert(whole.matched(id) =~= SchedView { waiting: queue, ..v.matched(id) });
            }
            let found = self.cache.acquire_prefix(
                self.seqs[at].tenant.as_str(),
                self.seqs[at].tokens(),
            );
            if found.blocks.len() > 0 {
                let reused: usize = found.num_tokens;
                self.seqs[at].adopt_cached_prefix(reused);
                self.tables[at] = found.blocks;
                self.metrics.prefill_tokens_reused =
                self.metrics.prefill_tokens_reused.wrapping_add(reused as u64);
            }
            proof {
                let goal = v.matched(id);
                assert(self@.tables =~= goal.tables);
                assert(self@.seqs =~= goal.seqs);
                assert(self@ =~= goal);
            }
        }
        let ghost looked = self@;
        let ghost looked_whole = SchedView { waiting: queue, ..looked };
        assert(looked_whole.wf());
        assert(looked_whole.seqs[id.0 - 1].wf());
        let start: usize = self.seqs[at].computed_len();
        let remaining: usize = self.seqs[at].uncomputed_len();
        let len: usize = if self.cfg.chunked_prefill {
            if remaining <= budget {
                remaining
            } else {
                budget
            }
        } else if remaining <= budget {
            remaining
        } else {
            0
        };
        if len == 0 {
            return None;
        }
        proof {
            lemma_ensured(looked_whole, id, (start + len) as nat, reserve as nat);
            assert(looked_whole.ensured(id, (start + len) as nat, reserve as nat).0
                =~= SchedView {
                waiting: queue,
                ..looked.ensured(id, (start + len) as nat, reserve as nat).0
            });
        }
        if !self.ensure_blocks(id, start + len, reserve) {
            return None;
        }
        let ghost grown = self@;
        let cached: usize = self.seqs[at].cached_prefix_len;
        assert(grown.seqs[id.0 - 1].wf());
        self.seqs[at].advance_computed(len);
        let state = if self.seqs[at].computed_len() >= self.seqs[at].total_len() {
            SequenceState::Decoding
        } else {
            SequenceState::Prefilling
        };
        self.seqs[at].set_state(state);
        if !contains_id(&self.running, id) {
            self.running.push(id);
        }
        self.metrics.prefill_tokens_computed =
        self.metrics.prefill_tokens_computed.wrapping_add(len as u64);
        proof {
            let goal = grown.chunk_run(id, len as nat);
            assert(self@.seqs =~= goal.seqs);
            assert(self@.tables =~= goal.tables);
            assert(self@ =~= goal);
        }
        Some(PrefillChunk { seq: id, start, len, cached })
    }

    /// Sequences whose context is fully computed generate one token each.
    fn decode_phase(
        &mut self,
        batch: &mut ScheduledBatch,
        order: &Vec<SequenceId>,
        now: Tick,
    )
        requires
            old(self)@.wf(),
            old(batch)@ == BatchView::empty(),
        ensures
            (final(self)@, final(batch)@) == old(self)@.decode_from(
                BatchView::empty(),
                order@,
                0,
                now,
            ),
            final(self)@.wf(),
            within_limits(final(self)@, final(batch)@),
    {
        let ghost v = self@;
        let mut i: usize = 0;
        assert(chunk_tokens(Seq::empty()) == 0);
        while i < order.len()
            invariant_except_break
                v.decode_from(BatchView::empty(), order@, 0, now) == self@.decode_from(
                    batch@,
                    order@,
                    i as nat,
                    now,
                ),
            invariant
                self@.wf(),
                i <= order@.len(),
                batch@.prefill.len() == 0,
                within_limits(self@, batch@),
            ensures
                v.decode_from(BatchView::empty(), order@, 0, now) == (self@, batch@),
            decreases order.len() - i,
        {
            assert(batch@.prefill =~= Seq::empty());
            if batch.decode.len() >= self.cfg.max_batch_seqs || batch.decode.len()
                >= self.cfg.max_batch_tokens {
                break ;
            }
            let id = order[i];
            i = i + 1;
            if self.is_known(id) && self.seqs[self.at(id)].state == SequenceState::Decoding {
                let need: usize = self.seqs[self.at(id)].total_len().saturating_add(1);
                let ghost before = self@;
                proof {
                    lemma_made_room(before, id, need as nat, now, batch@.preempted);
                }
                self.make_room(id, need, now, &mut batch.preempted);
                if self.tables[self.at(id)].len() >= self.cache.blocks_for(need) {
                    batch.decode.push(id);
                }
            }
        }
    }

    /// Prefills already holding blocks go on.
    fn prefill_phase(
        &mut self,
        batch: &mut ScheduledBatch,
        order: &Vec<SequenceId>,
        reserve: usize,
    )
        requires
            old(self)@.wf(),
            within_limits(old(self)@, old(batch)@),
        ensures
            (final(self)@, final(batch)@) == old(self)@.prefill_from(
                old(batch)@,
                order@,
                0,
                reserve as nat,
            ),
            final(self)@.wf(),
            within_limits(final(self)@, final(batch)@),
    {
        let ghost v = self@;
        let ghost first = batch@;
        let mut i: usize = 0;
        while i < order.len()
            invariant_except_break
                v.prefill_from(first, order@, 0, reserve as nat) == self@.prefill_from(
                    batch@,
                    order@,
                    i as nat,
                    reserve as nat,
                ),
            invariant
                self@.wf(),
                i <= order@.len(),
                within_limits(self@, batch@),
            ensures
                v.prefill_from(first, order@, 0, reserve as nat) == (self@, batch@),
            decreases order.len() - i,
        {
            let left: usize = self.cfg.max_batch_tokens - batch.num_tokens();
            if left == 0 || batch.num_seqs() >= self.cfg.max_batch_seqs {
                break ;
            }
            let id = order[i];
            i = i + 1;
            if self.is_known(id) && self.seqs[self.at(id)].state == SequenceState::Prefilling {
                let ghost before = self@;
                let ghost earlier = batch@;
                proof {
                    lemma_prefilled(before, id, left as nat, reserve as nat);
                    assert(before.runs(id));
                    assert(!before.waiting.contains(id)) by {
                        assert(before.waiting.contains(id) <==> before.waits(id));
                    }
                }
                let chunk = self.try_prefill(id, left, reserve, Ghost(self@.waiting));
                assert(self@ =~= SchedView { waiting: without(before.waiting, id), ..self@ });
                if let Some(c) = chunk {
                    proof {
                        lemma_chunk_tokens_push(batch@.prefill, c);
                    }
                    batch.prefill.push(c);
                }
                assert(batch@ =~= earlier.with_chunk(chunk));
            }
        }
    }

    /// The waiting sequences, most urgent first.
    fn rank(&self, now: Tick) -> (r: Vec<SequenceId>)
        ensures
            r@ == self@.ranked(now),
    {
        let ghost leq = |a: SequenceId, b: SequenceId| self@.no_less_urgent(a, b, now);
        proof {
            lemma_urgency_is_total(self@, now);
        }
        let mut out: Vec<SequenceId> = Vec::with_capacity(self.waiting.len());
        let mut keys: Vec<i64> = Vec::with_capacity(self.waiting.len());
        let mut i: usize = 0;
        assert(out@ =~= self.waiting@.take(0));
        while i < self.waiting.len()
            invariant
                i <= self.waiting@.len(),
                leq == (|a: SequenceId, b: SequenceId| self@.no_less_urgent(a, b, now)),
                vstd::relations::total_ordering(leq),
                out@.len() == i,
                keys@.len() == i,
                forall|j: int| 0 <= j < i ==> keys@[j] == self@.slack(out@[j], now),
                vstd::relations::sorted_by(out@, leq),
                out@.to_multiset() == self.waiting@.take(i as int).to_multiset(),
            decreases self.waiting.len() - i,
        {
            let id = self.waiting[i];
            let key: i64 = self.slack_us(id, now);
            let mut p: usize = i;
            while p > 0 && (key < keys[p - 1] || (key == keys[p - 1] && id.0 < out[p - 1].0))
                invariant
                    p <= i,
                    leq == (|a: SequenceId, b: SequenceId| self@.no_less_urgent(a, b, now)),
                    out@.len() == i,
                    keys@.len() == i,
                    key == self@.slack(id, now),
                    forall|j: int| 0 <= j < i ==> keys@[j] == self@.slack(out@[j], now),
                    forall|j: int| p <= j < i ==> leq(id, #[trigger] out@[j]),
                decreases p,
            {
                p = p - 1;
            }
            let ghost before = out@;
            out.insert(p, id);
            keys.insert(p, key);
            proof {
                assert forall|a: int, b: int| 0 <= a < b < out@.len() implies #[trigger] leq(
                    out@[a],
                    out@[b],
                ) by {
                    if b < p {
                        assert(leq(before[a], before[b]));
                    } else if b == p {
                        assert(leq(before[p - 1], id));
                        if a < p - 1 {
                            assert(leq(before[a], before[p - 1]));
                        }
                    } else if a < p {
                        assert(leq(before[a], before[b - 1]));
                    } else if a == p {
                        assert(leq(id, before[b - 1]));
                    } else {
                        assert(leq(before[a - 1], before[b - 1]));
                    }
                }
                assert(self.waiting@.take(i + 1) =~= self.waiting@.take(i as int).push(id));
                vstd::seq_lib::to_multiset_insert(before, p as int, id);
                vstd::seq_lib::to_multiset_build(self.waiting@.take(i as int), id);
            }
            i = i + 1;
        }
        proof {
            assert(self.waiting@.take(i as int) =~= self.waiting@);
            lemma_ranked(self@, now);
            vstd::seq_lib::lemma_sorted_unique(out@, self@.ranked(now), leq);
        }
        out
    }

    /// Waiting sequences start, most urgent first. Returns who did not.
    fn admit_phase(
        &mut self,
        batch: &mut ScheduledBatch,
        ranked: &Vec<SequenceId>,
        reserve: usize,
    ) -> (r: Vec<SequenceId>)
        requires
            (SchedView { waiting: ranked@, ..old(self)@ }).wf(),
            within_limits(old(self)@, old(batch)@),
        ensures
            (final(self)@, final(batch)@, r@) == old(self)@.admit_from(
                old(batch)@,
                Seq::empty(),
                ranked@,
                0,
                reserve as nat,
            ),
    {
        let ghost v = self@;
        let ghost first = batch@;
        let mut deferred: Vec<SequenceId> = Vec::new();
        let mut i: usize = 0;
        assert(deferred@ + ranked@.skip(0) =~= ranked@);
        while i < ranked.len()
            invariant
                i <= ranked@.len(),
                (SchedView { waiting: deferred@ + ranked@.skip(i as int), ..self@ }).wf(),
                within_limits(self@, batch@),
                v.admit_from(first, Seq::empty(), ranked@, 0, reserve as nat) == self@.admit_from(
                    batch@,
                    deferred@,
                    ranked@,
                    i as nat,
                    reserve as nat,
                ),
            decreases ranked.len() - i,
        {
            let id = ranked[i];
            let ghost before = self@;
            let ghost earlier = batch@;
            let ghost queue = deferred@ + ranked@.skip(i as int);
            let ghost rest = ranked@.skip(i + 1);
            let left: usize = self.cfg.max_batch_tokens - batch.num_tokens();
            proof {
                assert(ranked@.skip(i as int) =~= seq![id] + rest);
                assert(queue[deferred@.len() as int] == id);
            }
            i = i + 1;
            if left == 0 || batch.num_seqs() >= self.cfg.max_batch_seqs {
                deferred.push(id);
                assert(deferred@ + rest =~= queue);
            } else {
                proof {
                    let whole = SchedView { waiting: queue, ..before };
                    assert(whole.waiting.contains(id));
                    assert(whole.waits(id));
                    lemma_prefilled(whole, id, left as nat, reserve as nat);
                    lemma_prefill_ignores_the_queue(
                        before,
                        queue,
                        id,
                        left as nat,
                        reserve as nat,
                    );
                }
                let chunk = self.try_prefill(id, left, reserve, Ghost(queue));
                match chunk {
                    Some(c) => {
                        proof {
                            lemma_chunk_tokens_push(batch@.prefill, c);
                            assert(queue.index_of(id) == deferred@.len());
                            assert(without(queue, id) =~= deferred@ + rest);
                        }
                        batch.prefill.push(c);
                    },
                    None => {
                        deferred.push(id);
                        assert(deferred@ + rest =~= queue);
                    },
                }
                assert(batch@ =~= earlier.with_chunk(chunk));
            }
        }
        deferred
    }

    /// Choose the work for one forward pass.
    ///
    /// Order matters. Decodes are placed first because they already hold
    /// memory and have a client watching. In-flight prefills come next, so a
    /// prompt that has consumed blocks is finished rather than left resident
    /// and idle. New admissions get whatever budget is left.
    pub fn step(&mut self, now: Tick) -> (r: ScheduledBatch)
        requires
            old(self)@.wf(),
        ensures
            (final(self)@, r@) == old(self)@.stepped(now),
            final(self)@.wf(),
            within_limits(final(self)@, r@),
            final(self)@.runnable(r@),
            old(self)@.same_streams(final(self)@),
    {
        let ghost v = self@;
        proof {
            lemma_stepped(v, now);
        }
        self.metrics.steps = self.metrics.steps.wrapping_add(1);
        let ghost begun = self@;
        proof {
            assert(begun =~= SchedView { metrics: begun.metrics, ..v });
            lemma_metrics_are_free(v, begun);
        }
        let mut batch = ScheduledBatch::default();
        let reserve: usize = self.reserved_blocks();
        let running: Vec<SequenceId> = vstd::slice::slice_to_vec(self.running.as_slice());

        // 1. Sequences whose context is fully computed generate one token.
        self.decode_phase(&mut batch, &running, now);
        proof {
            lemma_decode_from(begun, BatchView::empty(), running@, 0, now);
            lemma_surviving(self@, batch@);
        }
        batch.drop_evicted();
        // 2. Continue prefills already holding blocks.
        self.prefill_phase(&mut batch, &running, reserve);
        // 3. Admit new work, most urgent first.
        let ghost continued = self@;
        let ranked: Vec<SequenceId> = self.rank(now);
        proof {
            lemma_ranked(continued, now);
            lemma_queue_order_is_free(
                continued,
                SchedView { waiting: ranked@, ..continued },
            );
        }
        let deferred = self.admit_phase(&mut batch, &ranked, reserve);
        self.waiting = deferred;
        batch
    }

    /// Feed generated tokens back in. Returns the sequences that finished.
    pub fn on_tokens(&mut self, outputs: &[(SequenceId, TokenId)], now: Tick) -> (r: Vec<Finished>)
        requires
            old(self)@.wf(),
        ensures
            (final(self)@, reports(r@)) == old(self)@.fed(outputs@, outputs@.len(), now),
            final(self)@.wf(),
    {
        let ghost v = self@;
        let mut done: Vec<Finished> = Vec::new();
        let mut i: usize = 0;
        assert(reports(done@) =~= Seq::empty());
        while i < outputs.len()
            invariant
                i <= outputs@.len(),
                self@.wf(),
                (self@, reports(done@)) == v.fed(outputs@, i as nat, now),
            decreases outputs.len() - i,
        {
            let id = outputs[i].0;
            let token: TokenId = outputs[i].1;
            let ghost before = self@;
            let ghost earlier = reports(done@);
            if let Some(f) = self.feed(id, token, now) {
                let ghost report = f@;
                done.push(f);
                assert(reports(done@) =~= earlier + seq![report]);
            } else {
                assert(reports(done@) =~= earlier + Seq::empty());
            }
            i = i + 1;
        }
        done
    }

    /// Feed one generated token back in.
    fn feed(&mut self, id: SequenceId, token: TokenId, now: Tick) -> (r: Option<Finished>)
        requires
            old(self)@.wf(),
        ensures
            final(self)@.wf(),
            final(self)@ == old(self)@.fed_one(id, token, now).0,
            old(self)@.fed_one(id, token, now).1 == match r {
                Some(f) => seq![f@],
                None => Seq::empty(),
            },
    {
        if !self.is_known(id) {
            return None;
        }
        let at: usize = self.at(id);
        if self.seqs[at].state != SequenceState::Decoding {
            return None;
        }
        let ghost v = self@;
        assert(v.seqs[id.0 - 1].wf());
        let first: bool = self.seqs[at].first_token_at.is_none();
        self.seqs[at].push_token(token, now);
        assert(self.seqs@[at as int].tokens.len() == v.seq_of(id).tokens.len() + 1);
        if first {
            if let Some(t) = self.seqs[at].ttft_us() {
                if t > self.seqs[at].class.ttft_budget_us() {
                    self.metrics.ttft_deadline_misses =
                    self.metrics.ttft_deadline_misses.wrapping_add(1);
                }
            }
        }
        proof {
            lemma_fed_token(v, id, token, now);
            let goal = v.fed_token(id, token, now);
            assert(self@.seqs =~= goal.seqs);
            assert(self@.tables =~= goal.tables);
            assert(self@ =~= goal);
            assert(goal.seqs[id.0 - 1].wf());
        }
        if self.seqs[at].is_at_limit() {
            self.retire(id, FinishReason::Length)
        } else {
            None
        }
    }

    /// Stop a sequence on an emitted stop token.
    pub fn stop(&mut self, id: SequenceId) -> (r: Option<Finished>)
        requires
            old(self)@.wf(),
        ensures
            final(self)@.wf(),
            final(self)@ == old(self)@.retired(id, FinishReason::Stop).0,
            old(self)@.retired(id, FinishReason::Stop).1 == match r {
                Some(f) => seq![f@],
                None => Seq::empty(),
            },
    {
        self.retire(id, FinishReason::Stop)
    }

    /// Cancel every sequence belonging to a request.
    pub fn cancel(&mut self, request: RequestId) -> (r: Vec<Finished>)
        requires
            old(self)@.wf(),
        ensures
            (final(self)@, reports(r@)) == old(self)@.cancelled(request, old(self)@.seqs.len()),
            final(self)@.wf(),
    {
        let ghost v = self@;
        let count: usize = self.seqs.len();
        let mut done: Vec<Finished> = Vec::new();
        let mut i: usize = 0;
        assert(reports(done@) =~= Seq::empty());
        while i < count
            invariant
                i <= count,
                count == v.seqs.len(),
                self@.seqs.len() == v.seqs.len(),
                self@.wf(),
                (self@, reports(done@)) == v.cancelled(request, i as nat),
            decreases count - i,
        {
            let id = SequenceId(i as u64 + 1);
            let ghost before = self@;
            let ghost earlier = reports(done@);
            assert(before.seq_of(id) == self.seqs@[i as int]@);
            if self.seqs[i].request == request {
                proof {
                    if before.open(id) {
                        lemma_ended(before, id, FinishReason::Cancelled);
                    }
                }
                if let Some(f) = self.retire(id, FinishReason::Cancelled) {
                    let ghost report = f@;
                    done.push(f);
                    assert(reports(done@) =~= earlier + seq![report]);
                } else {
                    assert(reports(done@) =~= earlier + Seq::empty());
                }
            }
            i = i + 1;
        }
        done
    }

    /// End a sequence that has not ended.
    fn retire(&mut self, id: SequenceId, reason: FinishReason) -> (r: Option<Finished>)
        requires
            old(self)@.wf(),
        ensures
            final(self)@.wf(),
            final(self)@ == old(self)@.retired(id, reason).0,
            old(self)@.retired(id, reason).1 == match r {
                Some(f) => seq![f@],
                None => Seq::empty(),
            },
    {
        if !self.is_known(id) {
            return None;
        }
        let at: usize = self.at(id);
        if self.seqs[at].state.is_finished() {
            return None;
        }
        let ghost v = self@;
        proof {
            assert(v.seqs[id.0 - 1].wf());
            lemma_ended(v, id, reason);
            lemma_table_covers(v, id);
        }
        self.seqs[at].finish(reason);
        let out = Finished {
            seq: id,
            request: self.seqs[at].request,
            reason,
            output: vstd::slice::slice_to_vec(self.seqs[at].output()),
            ttft_us: self.seqs[at].ttft_us(),
            mean_itl_us: self.seqs[at].mean_itl_us(),
            cached_prefix_len: self.seqs[at].cached_prefix_len,
        };
        // Publish the finished sequence's full blocks before releasing them, so
        // its prompt and output stay reusable by the next matching request.
        let mut table: Vec<BlockId> = Vec::new();
        std::mem::swap(&mut self.tables[at], &mut table);
        assert(table@ == v.table_of(id));
        self.cache.publish(
            self.seqs[at].tenant.as_str(),
            self.seqs[at].tokens(),
            table.as_slice(),
        );
        proof {
            let hashes = chain_spec(
                v.seq_of(id).tenant,
                v.seq_of(id).tokens,
                v.cache.block_size,
            );
            crate::kvcache::cache::lemma_published(
                v.cache,
                hashes,
                table@,
                crate::kvcache::cache::pairs(hashes.len(), table@.len()),
            );
        }
        self.cache.release(table.as_slice());
        remove_id(&mut self.running, id);
        remove_id(&mut self.waiting, id);
        self.metrics.finished = self.metrics.finished.wrapping_add(1);
        proof {
            let goal = v.ended(id, reason);
            assert(self@.seqs =~= goal.seqs);
            assert(self@.tables =~= goal.tables);
            assert(self@ =~= goal);
            assert(out@ =~= v.report(id, reason));
        }
        Some(out)
    }
}

} // verus!
