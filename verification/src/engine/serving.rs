//! The engine itself.
use vstd::prelude::*;

use super::model::{
    blocks_of, chunk_work, decode_work, decodes_work, pass_work, prefill_work, ActiveView,
    EngineConfig, EngineView, NoticeView, WorkView,
};
use super::stream::{StreamEvent, Usage};
use crate::backend::sampler::{scrambled, Sampler};
use crate::backend::tokenizer::{IncrementalDecoder, Tokenizer};
use crate::backend::PassCost;
use crate::error::{Error, Result};
use crate::ids::{IdCounter, RequestId, SequenceId};
use crate::kvcache::cache::{law_partition_covers_the_pool, CacheView, KvCacheConfig};
use crate::kvcache::BlockId;
use crate::number::{Ratio, F32};
use crate::request::{Request, ServiceClass};
use crate::sampling::SamplingParams;
use crate::sched::model::{same_stream, FinishedView, SchedView, SchedulerMetrics};
use crate::sched::order::{lemma_ended, lemma_stepped};
use crate::sched::scheduler::{reports, ScheduledBatch, Scheduler};
use crate::sched::SchedulerConfig;
use crate::sequence::{FinishReason, SequenceState};
use crate::{Tick, TokenId};

verus! {

/// A generation request as it arrives from the API layer.
#[derive(Debug)]
pub struct GenerationRequest {
    pub tenant: String,
    pub prompt: String,
    pub params: SamplingParams,
    pub class: ServiceClass,
}

#[derive(Debug, Clone, Copy, PartialEq, Eq, Structural)]
pub struct EngineMetrics {
    pub scheduler: SchedulerMetrics,
    pub forward_passes: u64,
    /// Sum of modelled or measured pass durations.
    pub busy_us: u64,
    /// True while the engine is backed by the analytic simulator rather than a
    /// real model, so every latency figure it reports is an estimate.
    pub estimated: bool,
    pub kv_blocks_total: usize,
    pub kv_blocks_live: usize,
    pub kv_blocks_cached: usize,
    pub kv_block_hit_rate: Ratio,
    pub queued: usize,
    pub running: usize,
}

impl EngineConfig {
    pub open spec fn wf(self) -> bool {
        self.scheduler.wf() && self.cache.wf()
    }
}

impl Default for EngineConfig {
    fn default() -> (r: Self)
        ensures
            r.max_queued_requests == 1024,
            !r.realtime,
            r.base_seed == 0x5721_9A3C_11FF_0042,
            r.cache == (KvCacheConfig { num_blocks: 2048, block_size: 16 }),
            r.scheduler.max_batch_seqs == 256,
            r.scheduler.max_batch_tokens == 2048,
            r.scheduler.max_model_len == 8192,
            r.scheduler.watermark.num == 1,
            r.scheduler.watermark.den == 100,
            r.scheduler.chunked_prefill,
            r.wf(),
    {
        EngineConfig {
            scheduler: SchedulerConfig::default(),
            cache: KvCacheConfig::default(),
            max_queued_requests: 1024,
            realtime: false,
            base_seed: 0x5721_9A3C_11FF_0042,
        }
    }
}

/// Why a request does not get as far as the engine: the queue of `capacity`
/// requests is full, or there is nobody at its end.
pub fn rejection(full: bool, capacity: usize) -> (r: Error)
    ensures
        r == if full {
            Error::Backpressure { queued: capacity }
        } else {
            Error::EngineStopped
        },
{
    if full {
        Error::Backpressure { queued: capacity }
    } else {
        Error::EngineStopped
    }
}

/// One sequence's contribution to a forward pass.
#[derive(Debug)]
pub struct PassWork {
    pub seq: SequenceId,
    pub tokens: Vec<TokenId>,
    pub position: usize,
    pub blocks: Vec<BlockId>,
    pub needs_logits: bool,
}

impl View for PassWork {
    type V = WorkView;

    open spec fn view(&self) -> WorkView {
        WorkView {
            seq: self.seq,
            tokens: self.tokens@,
            position: self.position as nat,
            blocks: self.blocks@,
            needs_logits: self.needs_logits,
        }
    }
}

/// The pieces of a pass, as values.
pub open spec fn works(work: Seq<PassWork>) -> Seq<WorkView> {
    Seq::new(work.len(), |i: int| work[i]@)
}

/// Something to tell the client of a sequence.
#[derive(Debug)]
pub struct Notice {
    pub seq: SequenceId,
    pub event: StreamEvent,
}

impl View for Notice {
    type V = NoticeView;

    open spec fn view(&self) -> NoticeView {
        NoticeView { seq: self.seq, event: self.event@ }
    }
}

/// A list of notices, as values.
pub open spec fn told(notices: Seq<Notice>) -> Seq<NoticeView> {
    Seq::new(notices.len(), |i: int| notices[i]@)
}

proof fn lemma_told_push(notices: Seq<Notice>, n: Notice)
    ensures
        told(notices.push(n)) == told(notices) + seq![n@],
{
    assert(told(notices.push(n)) =~= told(notices) + seq![n@]);
}

proof fn lemma_told_nothing(notices: Seq<Notice>)
    ensures
        told(notices) + Seq::<NoticeView>::empty() == told(notices),
{
    assert(told(notices) + Seq::<NoticeView>::empty() =~= told(notices));
}

/// Per-sequence state the engine keeps alongside the scheduler's.
struct Active {
    request: RequestId,
    sampler: Sampler,
    decoder: IncrementalDecoder,
    prompt_tokens: usize,
    emitted: usize,
}

impl View for Active {
    type V = ActiveView;

    closed spec fn view(&self) -> ActiveView {
        ActiveView {
            request: self.request,
            sampler: self.sampler@,
            decoder: self.decoder@,
            prompt_tokens: self.prompt_tokens,
            emitted: self.emitted,
        }
    }
}

/// What the engine keeps of one sequence, as a value.
spec fn slot(a: Option<Active>) -> Option<ActiveView> {
    match a {
        Some(a) => Some(a@),
        None => None,
    }
}

/// The serving loop's state and decisions.
pub struct Engine<T: Tokenizer> {
    scheduler: Scheduler,
    tokenizer: T,
    config: EngineConfig,
    active: Vec<Option<Active>>,
    requests: IdCounter,
    now: Tick,
    forward_passes: u64,
    busy_us: u64,
    estimated: bool,
}

impl<T: Tokenizer> View for Engine<T> {
    type V = EngineView;

    closed spec fn view(&self) -> EngineView {
        EngineView {
            config: self.config,
            sched: self.scheduler@,
            active: Seq::new(self.active@.len(), |i: int| slot(self.active@[i])),
            next_request: self.requests.upcoming(),
            now: self.now,
            forward_passes: self.forward_passes,
            busy_us: self.busy_us,
            estimated: self.estimated,
        }
    }
}

impl<T: Tokenizer> Engine<T> {
    /// The tokenizer that text goes through.
    pub closed spec fn speaks(&self) -> T {
        self.tokenizer
    }

    pub fn new(config: EngineConfig, tokenizer: T) -> (r: Self)
        requires
            config.wf(),
        ensures
            r@.wf(),
            r.speaks() == tokenizer,
            r@ == (EngineView {
                config,
                sched: SchedView {
                    cfg: config.scheduler,
                    cache: CacheView::fresh(config.cache),
                    seqs: Seq::empty(),
                    tables: Seq::empty(),
                    waiting: Seq::empty(),
                    running: Seq::empty(),
                    metrics: SchedulerMetrics::zero(),
                },
                active: Seq::empty(),
                next_request: 1,
                now: 0,
                forward_passes: 0,
                busy_us: 0,
                estimated: false,
            }),
    {
        let r = Engine {
            scheduler: Scheduler::new(config.scheduler, config.cache),
            tokenizer,
            config,
            active: Vec::new(),
            requests: IdCounter::new(),
            now: 0,
            forward_passes: 0,
            busy_us: 0,
            estimated: false,
        };
        assert(r@.active =~= Seq::empty());
        r
    }

    pub fn config(&self) -> (r: EngineConfig)
        ensures
            r == self@.config,
    {
        self.config
    }

    pub fn now(&self) -> (r: Tick)
        ensures
            r == self@.now,
    {
        self.now
    }

    /// Whether there is nothing to do until something arrives.
    pub fn is_idle(&self) -> (r: bool)
        ensures
            r == (self@.sched.running.len() == 0 && self@.sched.waiting.len() == 0),
    {
        self.scheduler.num_running() == 0 && self.scheduler.num_waiting() == 0
    }

    pub fn metrics(&self) -> (r: EngineMetrics)
        requires
            self@.wf(),
        ensures
            r.scheduler == self@.sched.metrics,
            r.forward_passes == self@.forward_passes,
            r.busy_us == self@.busy_us,
            r.estimated == self@.estimated,
            r.kv_blocks_total == self@.sched.cache.capacity(),
            r.kv_blocks_live == self@.sched.cache.live,
            r.kv_blocks_cached == self@.sched.cache.prefix.stale.len(),
            r.kv_block_hit_rate == Ratio::share_spec(
                self@.sched.cache.prefix.hits as nat,
                (self@.sched.cache.prefix.hits + self@.sched.cache.prefix.misses) as nat,
            ),
            r.queued == self@.sched.waiting.len(),
            r.running == self@.sched.running.len(),
            r.kv_blocks_live + r.kv_blocks_cached <= r.kv_blocks_total,
            r.kv_block_hit_rate.wf(),
    {
        proof {
            law_partition_covers_the_pool(self@.sched.cache);
        }
        let kv = self.scheduler.cache().stats();
        EngineMetrics {
            scheduler: self.scheduler.metrics(),
            forward_passes: self.forward_passes,
            busy_us: self.busy_us,
            estimated: self.estimated,
            kv_blocks_total: kv.capacity,
            kv_blocks_live: kv.live,
            kv_blocks_cached: kv.cached,
            kv_block_hit_rate: kv.block_hit_rate,
            queued: self.scheduler.num_waiting(),
            running: self.scheduler.num_running(),
        }
    }

    /// Accept a request whose prompt is tokenized. Returns its id and that of
    /// its sequence.
    pub fn accept_tokens(
        &mut self,
        tenant: String,
        prompt: Vec<TokenId>,
        params: SamplingParams,
        class: ServiceClass,
    ) -> (r: Result<(RequestId, SequenceId)>)
        requires
            old(self)@.wf(),
        ensures
            final(self)@.wf(),
            final(self).speaks() == old(self).speaks(),
            ({
                let request = old(self)@.request_of(tenant@, prompt@, params@, class);
                match old(self)@.sched.refusal(request) {
                    Some(error) => {
                        &&& r == Err::<(RequestId, SequenceId), Error>(error)
                        &&& final(self)@ == (EngineView {
                            next_request: old(self)@.next_request.wrapping_add(1),
                            ..old(self)@
                        })
                    },
                    None => {
                        &&& r is Ok
                        &&& r->Ok_0.0 == request.id
                        &&& r->Ok_0.1.0 == old(self)@.sched.seqs.len() + 1
                        &&& final(self)@ == old(self)@.accepted(request, old(self).speaks().end())
                    },
                }
            }),
    {
        let ghost v = self@;
        let prompt_tokens: usize = prompt.len();
        let ghost prompt_view = prompt@;
        let copy = params.copy();
        let id = RequestId::next(&mut self.requests);
        let request = Request::new(id, tenant, prompt, self.now).with_params(copy).with_class(
            class,
        );
        let ghost rv = request@;
        assert(rv =~= v.request_of(tenant@, prompt_view, params@, class));
        match self.scheduler.accept(request) {
            Err(e) => {
                assert(self@ =~= EngineView {
                    next_request: v.next_request.wrapping_add(1),
                    ..v
                });
                Err(e)
            },
            Ok(ids) => {
                let seed: u64 = self.config.base_seed.wrapping_add(id.raw()).wrapping_add(0);
                let sampler = Sampler::new(params, self.tokenizer.eos(), seed);
                self.active.push(
                    Some(
                        Active {
                            request: id,
                            sampler,
                            decoder: IncrementalDecoder::new(),
                            prompt_tokens,
                            emitted: 0,
                        },
                    ),
                );
                proof {
                    let goal = v.accepted(rv, self.tokenizer.end());
                    assert(self@.active =~= goal.active);
                    assert(self@ =~= goal);
                    assert forall|q: SequenceId| #[trigger]
                        self@.sched.open(q) <==> self@.serves(q) by {
                        if v.sched.known(q) {
                            assert(v.sched.open(q) <==> v.serves(q));
                        }
                    }
                }
                Ok((id, ids[0]))
            },
        }
    }

    /// Accept a request. Returns its id and that of its sequence.
    pub fn accept(&mut self, req: GenerationRequest) -> (r: Result<(RequestId, SequenceId)>)
        requires
            old(self)@.wf(),
        ensures
            final(self)@.wf(),
            final(self).speaks() == old(self).speaks(),
            exists|prompt: Seq<TokenId>| #[trigger]
                old(self).speaks().encodes(req.prompt@, prompt) && ({
                    let request = old(self)@.request_of(
                        req.tenant@,
                        prompt,
                        req.params@,
                        req.class,
                    );
                    match old(self)@.sched.refusal(request) {
                        Some(error) => {
                            &&& r == Err::<(RequestId, SequenceId), Error>(error)
                            &&& final(self)@ == (EngineView {
                                next_request: old(self)@.next_request.wrapping_add(1),
                                ..old(self)@
                            })
                        },
                        None => {
                            &&& r is Ok
                            &&& r->Ok_0.0 == request.id
                            &&& r->Ok_0.1.0 == old(self)@.sched.seqs.len() + 1
                            &&& final(self)@ == old(self)@.accepted(
                                request,
                                old(self).speaks().end(),
                            )
                        },
                    }
                }),
    {
        let prompt = self.tokenizer.encode(req.prompt.as_str());
        assert(self.speaks().encodes(req.prompt@, prompt@));
        self.accept_tokens(req.tenant, prompt, req.params, req.class)
    }

    fn chunk(&self, c: &crate::sched::PrefillChunk) -> (r: PassWork)
        requires
            self@.sched.wf(),
            self@.sched.known(c.seq),
            c.start + c.len <= self@.sched.seq_of(c.seq).tokens.len(),
        ensures
            r@ == chunk_work(self@.sched, *c),
            r.seq == c.seq,
            r.position == c.start,
            r.tokens@.len() == c.len,
            r.needs_logits <==> c.start + c.len == self@.sched.seq_of(c.seq).tokens.len(),
    {
        let seq = match self.scheduler.sequence(c.seq) {
            Some(q) => q,
            None => {
                assert(false);
                return PassWork {
                    seq: c.seq,
                    tokens: Vec::new(),
                    position: c.start,
                    blocks: Vec::new(),
                    needs_logits: false,
                };
            },
        };
        let total: usize = seq.total_len();
        let end: usize = c.start + c.len;
        let tokens = vstd::slice::slice_to_vec(
            vstd::slice::slice_subrange(seq.tokens(), c.start, end),
        );
        PassWork {
            seq: c.seq,
            tokens,
            position: c.start,
            blocks: self.table(c.seq),
            needs_logits: end >= total,
        }
    }

    fn table(&self, id: SequenceId) -> (r: Vec<BlockId>)
        requires
            self@.sched.wf(),
        ensures
            r@ == blocks_of(self@.sched, id),
    {
        match self.scheduler.block_table(id) {
            Some(t) => vstd::slice::slice_to_vec(t),
            None => Vec::new(),
        }
    }

    /// Materialise the work of a pass.
    fn materialise(&self, batch: &ScheduledBatch) -> (r: Vec<PassWork>)
        requires
            self@.sched.wf(),
            self@.sched.runnable(batch@),
        ensures
            works(r@) == pass_work(self@.sched, batch@),
    {
        let ghost s = self@.sched;
        let mut out: Vec<PassWork> = Vec::new();
        let mut i: usize = 0;
        assert(works(out@) =~= Seq::empty());
        while i < batch.prefill.len()
            invariant
                s == self@.sched,
                s.wf(),
                s.runnable(batch@),
                i <= batch.prefill@.len(),
                works(out@) == prefill_work(s, batch@.prefill, i as nat),
            decreases batch.prefill.len() - i,
        {
            let ghost before = out@;
            assert(s.known(batch@.prefill[i as int].seq));
            let work = self.chunk(&batch.prefill[i]);
            out.push(work);
            i = i + 1;
            assert(works(out@) =~= prefill_work(s, batch@.prefill, i as nat));
        }
        let ghost first = works(out@);
        let mut j: usize = 0;
        assert(works(out@) =~= first + decodes_work(s, batch@.decode, 0));
        while j < batch.decode.len()
            invariant
                s == self@.sched,
                s.wf(),
                s.runnable(batch@),
                j <= batch.decode@.len(),
                works(out@) == first + decodes_work(s, batch@.decode, j as nat),
            decreases batch.decode.len() - j,
        {
            let id = batch.decode[j];
            assert(s.known(batch@.decode[j as int]));
            let ghost before = works(out@);
            if let Some(seq) = self.scheduler.sequence(id) {
                let len: usize = seq.total_len();
                if len > 0 {
                    let mut tokens: Vec<TokenId> = Vec::with_capacity(1);
                    tokens.push(seq.tokens()[len - 1]);
                    let work = PassWork {
                        seq: id,
                        tokens,
                        position: len - 1,
                        blocks: self.table(id),
                        needs_logits: true,
                    };
                    assert(work@.tokens =~= seq![s.seq_of(id).tokens.last()]);
                    assert(work@ =~= decode_work(s, id));
                    out.push(work);
                    assert(works(out@) =~= before.push(decode_work(s, id)));
                }
            }
            j = j + 1;
            assert(works(out@) =~= first + decodes_work(s, batch@.decode, j as nat));
        }
        out
    }

    /// Choose the next forward pass. Nothing to run means that everything is
    /// blocked on memory.
    pub fn begin_step(&mut self) -> (r: Vec<PassWork>)
        requires
            old(self)@.wf(),
        ensures
            final(self)@.wf(),
            final(self).speaks() == old(self).speaks(),
            final(self)@ == old(self)@.begun(),
            works(r@) == pass_work(
                final(self)@.sched,
                old(self)@.sched.stepped(old(self)@.now).1,
            ),
    {
        let ghost v = self@;
        let batch = self.scheduler.step(self.now);
        if batch.is_empty() {
            self.now = self.now.wrapping_add(1_000);
        }
        proof {
            assert(self@ =~= v.begun());
            assert forall|q: SequenceId| #[trigger] self@.sched.open(q) <==> self@.serves(q) by {
                assert(v.sched.open(q) <==> v.serves(q));
                lemma_step_keeps_open(v.sched, v.now, q);
            }
        }
        self.materialise(&batch)
    }

    /// Account for a pass that has run.
    pub fn finish_pass(&mut self, cost: PassCost)
        requires
            old(self)@.wf(),
        ensures
            final(self)@.wf(),
            final(self).speaks() == old(self).speaks(),
            final(self)@ == old(self)@.passed(cost),
    {
        let ghost v = self@;
        self.forward_passes = self.forward_passes.wrapping_add(1);
        self.busy_us = self.busy_us.wrapping_add(cost.duration_us);
        self.estimated = cost.estimated;
        let elapsed: u64 = if cost.duration_us >= 1 {
            cost.duration_us
        } else {
            1
        };
        self.now = self.now.wrapping_add(elapsed);
        proof {
            assert(self@ =~= v.passed(cost));
            assert forall|q: SequenceId| #[trigger] self@.sched.open(q) <==> self@.serves(q) by {
                assert(v.sched.open(q) <==> v.serves(q));
            }
        }
    }
}

impl<T: Tokenizer> Engine<T> {
    /// Where a sequence that is served stands.
    fn find(&self, seq: SequenceId) -> (r: Option<usize>)
        ensures
            match r {
                Some(i) => self@.serves(seq) && i == seq.0 - 1 && i < self@.active.len(),
                None => !self@.serves(seq),
            },
    {
        if seq.0 >= 1 && seq.0 <= self.active.len() as u64 {
            let i: usize = (seq.0 - 1) as usize;
            assert(self@.active[i as int] == slot(self.active@[i as int]));
            if self.active[i].is_some() {
                return Some(i);
            }
        }
        None
    }

    /// The sampler of a sequence that is served.
    pub fn sampler(&self, seq: SequenceId) -> (r: Option<&Sampler>)
        ensures
            match r {
                Some(s) => self@.serves(seq) && s@ == self@.active_of(seq).sampler,
                None => !self@.serves(seq),
            },
    {
        match self.find(seq) {
            Some(i) => {
                assert(self@.active[i as int] == slot(self.active@[i as int]));
                match &self.active[i] {
                    Some(a) => Some(&a.sampler),
                    None => None,
                }
            },
            None => None,
        }
    }

    /// How many tokens a sequence has generated.
    pub fn generated(&self, seq: SequenceId) -> (r: usize)
        requires
            self@.wf(),
        ensures
            r == if self@.sched.known(seq) {
                self@.sched.seq_of(seq).output_len() as int
            } else {
                0
            },
    {
        match self.scheduler.sequence(seq) {
            Some(q) => {
                assert(self@.sched.seqs[seq.0 - 1].wf());
                q.output_len()
            },
            None => 0,
        }
    }

    /// Draw for a sequence that is served, uniform in `[0, 1)`.
    pub fn draw(&mut self, seq: SequenceId) -> (r: Option<F32>)
        requires
            old(self)@.wf(),
        ensures
            final(self)@.wf(),
            final(self).speaks() == old(self).speaks(),
            final(self)@ == old(self)@.drew(seq),
            match r {
                Some(x) => {
                    &&& old(self)@.serves(seq)
                    &&& x.is_24th(
                        (scrambled(old(self)@.active_of(seq).sampler.rng) >> 40) as nat,
                    )
                },
                None => !old(self)@.serves(seq),
            },
    {
        let ghost v = self@;
        let at: usize = match self.find(seq) {
            Some(i) => i,
            None => return None,
        };
        assert(v.active[at as int] == slot(self.active@[at as int]));
        let mut held: Option<Active> = None;
        std::mem::swap(&mut self.active[at], &mut held);
        match held {
            Some(a) => {
                let mut a = a;
                let x: F32 = a.sampler.draw();
                self.active.set(at, Some(a));
                proof {
                    assert(self@.active =~= v.drew(seq).active);
                    assert(self@ =~= v.drew(seq));
                    lemma_serving_is_kept(v, self@);
                }
                Some(x)
            },
            None => {
                assert(false);
                None
            },
        }
    }

    /// Tell a client of one more token.
    fn emit(&mut self, seq: SequenceId, token: TokenId, out: &mut Vec<Notice>)
        ensures
            final(self).speaks() == old(self).speaks(),
            (final(self)@, told(final(out)@)) == ({
                let (v, more) = old(self)@.emitted(old(self).speaks(), seq, token);
                (v, told(old(out)@) + more)
            }),
    {
        let ghost v = self@;
        let at: usize = match self.find(seq) {
            Some(i) => i,
            None => {
                proof {
                    lemma_told_nothing(out@);
                }
                return ;
            },
        };
        assert(v.active[at as int] == slot(self.active@[at as int]));
        let mut held: Option<Active> = None;
        std::mem::swap(&mut self.active[at], &mut held);
        match held {
            Some(a) => {
                let mut a = a;
                let text = a.decoder.push(&self.tokenizer, token);
                let index: usize = a.emitted;
                a.emitted = index.wrapping_add(1);
                self.active.set(at, Some(a));
                let notice = Notice { seq, event: StreamEvent::Token { index, token, text } };
                proof {
                    lemma_told_push(out@, notice);
                    let goal = v.emitted(self.tokenizer, seq, token);
                    assert(seq![notice@] =~= goal.1);
                    assert(self@.active =~= goal.0.active);
                    assert(self@ =~= goal.0);
                }
                out.push(notice);
            },
            None => {
                assert(false);
            },
        }
    }

    /// Let go of a sequence and tell its client.
    fn retire(&mut self, seq: SequenceId, reason: FinishReason, out: &mut Vec<Notice>)
        requires
            old(self)@.sched.wf(),
            old(self)@.active.len() == old(self)@.sched.seqs.len(),
        ensures
            final(self).speaks() == old(self).speaks(),
            (final(self)@, told(final(out)@)) == ({
                let (v, more) = old(self)@.retired(seq, reason);
                (v, told(old(out)@) + more)
            }),
    {
        let ghost v = self@;
        let at: usize = match self.find(seq) {
            Some(i) => i,
            None => {
                proof {
                    lemma_told_nothing(out@);
                }
                return ;
            },
        };
        assert(v.active[at as int] == slot(self.active@[at as int]));
        let mut held: Option<Active> = None;
        std::mem::swap(&mut self.active[at], &mut held);
        match held {
            Some(a) => {
                let mut a = a;
                let tail = a.decoder.finish();
                let cached_prompt_tokens: usize = match self.scheduler.sequence(seq) {
                    Some(q) => q.cached_prefix_len,
                    None => 0,
                };
                let notice = Notice {
                    seq,
                    event: StreamEvent::Done {
                        reason,
                        trailing_text: tail,
                        usage: Usage {
                            prompt_tokens: a.prompt_tokens,
                            completion_tokens: a.emitted,
                            cached_prompt_tokens,
                        },
                    },
                };
                proof {
                    lemma_told_push(out@, notice);
                    let goal = v.retired(seq, reason);
                    assert(seq![notice@] =~= goal.1);
                    assert(self@.active =~= goal.0.active);
                    assert(self@ =~= goal.0);
                }
                out.push(notice);
            },
            None => {
                assert(false);
            },
        }
    }

    /// Settle the tokens drawn from a pass, in order. Returns what to tell the
    /// clients, in order.
    pub fn settle(&mut self, drawn: &[(SequenceId, TokenId)]) -> (r: Vec<Notice>)
        requires
            old(self)@.wf(),
        ensures
            final(self)@.wf(),
            final(self).speaks() == old(self).speaks(),
            (final(self)@, told(r@)) == old(self)@.settled(old(self).speaks(), drawn@),
    {
        let ghost v = self@;
        let ghost t = self.tokenizer;
        let mut sampled: Vec<(SequenceId, TokenId)> = Vec::new();
        let mut stopped: Vec<SequenceId> = Vec::new();
        let mut i: usize = 0;
        while i < drawn.len()
            invariant
                v == self@,
                t == self.tokenizer,
                i <= drawn@.len(),
                sampled@ == v.sampled(drawn@, i as nat),
                stopped@ == v.stopped(drawn@, i as nat),
            decreases drawn.len() - i,
        {
            let (seq, token) = drawn[i];
            if let Some(s) = self.sampler(seq) {
                if s.is_stop(token) {
                    stopped.push(seq);
                } else {
                    sampled.push((seq, token));
                }
            }
            i = i + 1;
        }

        // Feed accepted tokens back before handling stops, so a sequence that
        // stops this step still reports the tokens it produced earlier.
        let finished = self.scheduler.on_tokens(sampled.as_slice(), self.now);
        let ghost done = reports(finished@);
        let ghost v0 = EngineView { sched: self@.sched, ..v };
        assert(self@ =~= v0);

        let mut out: Vec<Notice> = Vec::new();
        assert(told(out@) =~= Seq::empty());
        let mut j: usize = 0;
        while j < sampled.len()
            invariant
                t == self.tokenizer,
                j <= sampled@.len(),
                (self@, told(out@)) == v0.emitted_all(t, sampled@, j as nat),
            decreases sampled.len() - j,
        {
            let (seq, token) = sampled[j];
            self.emit(seq, token, &mut out);
            j = j + 1;
        }
        let ghost v1 = self@;
        let ghost told1 = told(out@);
        proof {
            lemma_emitted_all(v0, t, sampled@, sampled@.len());
            lemma_fed_reports(v.sched, sampled@, sampled@.len(), v.now);
        }

        let mut k: usize = 0;
        assert(told(out@) =~= told1 + Seq::empty());
        while k < stopped.len()
            invariant
                t == self.tokenizer,
                k <= stopped@.len(),
                v1.sched.wf(),
                v1.active.len() == v1.sched.seqs.len(),
                self@ == v1.stopped_all(stopped@, k as nat).0,
                told(out@) == told1 + v1.stopped_all(stopped@, k as nat).1,
            decreases stopped.len() - k,
        {
            let seq = stopped[k];
            let ghost before = self@;
            let ghost earlier = told(out@);
            proof {
                lemma_stopped_all(v1, stopped@, k as nat);
            }
            let _ = self.scheduler.stop(seq);
            let ghost halted = EngineView {
                sched: before.sched.retired(seq, FinishReason::Stop).0,
                ..before
            };
            proof {
                assert(self@ =~= halted);
                lemma_retired_keeps_count(before.sched, seq, FinishReason::Stop);
            }
            self.retire(seq, FinishReason::Stop, &mut out);
            k = k + 1;
            assert(told(out@) =~= told1 + v1.stopped_all(stopped@, k as nat).1);
        }
        let ghost v2 = self@;
        let ghost told2 = told(out@);
        proof {
            lemma_stopped_all(v1, stopped@, stopped@.len());
        }

        let mut l: usize = 0;
        assert(told(out@) =~= told2 + Seq::empty());
        while l < finished.len()
            invariant
                t == self.tokenizer,
                l <= finished@.len(),
                done == reports(finished@),
                v2.sched.wf(),
                v2.active.len() == v2.sched.seqs.len(),
                self@ == v2.retired_all(done, l as nat).0,
                told(out@) == told2 + v2.retired_all(done, l as nat).1,
            decreases finished.len() - l,
        {
            proof {
                lemma_retired_all(v2, done, l as nat);
                assert(done[l as int] == finished@[l as int]@);
            }
            self.retire(finished[l].seq, finished[l].reason, &mut out);
            l = l + 1;
            assert(told(out@) =~= told2 + v2.retired_all(done, l as nat).1);
        }
        proof {
            lemma_settled(v, t, drawn@);
        }
        out
    }

    /// Abandon a request. Safe to call after it finished. Returns what to tell
    /// its clients.
    pub fn cancel(&mut self, request: RequestId) -> (r: Vec<Notice>)
        requires
            old(self)@.wf(),
        ensures
            final(self)@.wf(),
            final(self).speaks() == old(self).speaks(),
            (final(self)@, told(r@)) == old(self)@.cancelled(request),
    {
        let ghost v = self@;
        let finished = self.scheduler.cancel(request);
        let ghost done = reports(finished@);
        let ghost v0 = EngineView { sched: self@.sched, ..v };
        assert(self@ =~= v0);
        proof {
            lemma_cancelled_reports(v.sched, request, v.sched.seqs.len());
        }
        let mut out: Vec<Notice> = Vec::new();
        assert(told(out@) =~= Seq::empty());
        let mut l: usize = 0;
        while l < finished.len()
            invariant
                self.tokenizer == old(self).tokenizer,
                l <= finished@.len(),
                done == reports(finished@),
                v0.sched.wf(),
                v0.active.len() == v0.sched.seqs.len(),
                (self@, told(out@)) == v0.retired_all(done, l as nat),
            decreases finished.len() - l,
        {
            proof {
                lemma_retired_all(v0, done, l as nat);
                assert(done[l as int] == finished@[l as int]@);
            }
            self.retire(finished[l].seq, finished[l].reason, &mut out);
            l = l + 1;
        }
        proof {
            lemma_cancelled(v, request);
        }
        out
    }
}

/// A change that leaves the scheduler and who is served alone keeps order.
proof fn lemma_serving_is_kept(v: EngineView, w: EngineView)
    requires
        v.wf(),
        w.sched == v.sched,
        w.active.len() == v.active.len(),
        forall|id: SequenceId| #[trigger] w.serves(id) <==> v.serves(id),
    ensures
        w.wf(),
{
    assert forall|id: SequenceId| #[trigger] w.sched.open(id) <==> w.serves(id) by {
        assert(v.sched.open(id) <==> v.serves(id));
        assert(w.serves(id) <==> v.serves(id));
    }
}

proof fn lemma_emitted_all<T: Tokenizer>(
    v: EngineView,
    t: T,
    tokens: Seq<(SequenceId, TokenId)>,
    n: nat,
)
    requires
        n <= tokens.len(),
    ensures
        ({
            let w = v.emitted_all(t, tokens, n).0;
            &&& w.sched == v.sched
            &&& w.active.len() == v.active.len()
            &&& w.now == v.now
            &&& forall|id: SequenceId| #[trigger] w.serves(id) <==> v.serves(id)
        }),
    decreases n,
{
    if n > 0 {
        let m = (n - 1) as nat;
        lemma_emitted_all(v, t, tokens, m);
        let u = v.emitted_all(t, tokens, m).0;
        let w = v.emitted_all(t, tokens, n).0;
        assert forall|id: SequenceId| #[trigger] w.serves(id) <==> v.serves(id) by {
            assert(u.serves(id) <==> v.serves(id));
        }
    }
}

proof fn lemma_retired_keeps_count(s: SchedView, id: SequenceId, reason: FinishReason)
    requires
        s.wf(),
    ensures
        s.retired(id, reason).0.wf(),
        s.retired(id, reason).0.seqs.len() == s.seqs.len(),
        !s.retired(id, reason).0.open(id),
        forall|p: SequenceId|
            p != id ==> (#[trigger] s.retired(id, reason).0.open(p) <==> s.open(p)),
{
    if s.open(id) {
        lemma_ended(s, id, reason);
        let w = s.ended(id, reason);
        assert forall|p: SequenceId| p != id implies (#[trigger] w.open(p) <==> s.open(p)) by {
            if s.known(p) {
                assert(w.seq_of(p) == s.seq_of(p));
            }
        }
    }
}

pub proof fn lemma_stopped_all(v: EngineView, stops: Seq<SequenceId>, n: nat)
    requires
        v.sched.wf(),
        v.active.len() == v.sched.seqs.len(),
        n <= stops.len(),
    ensures
        ({
            let w = v.stopped_all(stops, n).0;
            &&& w.sched.wf()
            &&& w.active.len() == w.sched.seqs.len()
            &&& w.active.len() == v.active.len()
            &&& forall|id: SequenceId|
                #![trigger w.sched.open(id)]
                #![trigger w.serves(id)]
                (w.sched.open(id) <==> v.sched.open(id) && !stops.take(n as int).contains(id)) && (
                w.serves(id) <==> v.serves(id) && !stops.take(n as int).contains(id))
        }),
    decreases n,
{
    if n > 0 {
        let m = (n - 1) as nat;
        lemma_stopped_all(v, stops, m);
        let u = v.stopped_all(stops, m).0;
        let seq = stops[m as int];
        lemma_retired_keeps_count(u.sched, seq, FinishReason::Stop);
        let w = v.stopped_all(stops, n).0;
        let shorter = stops.take(m as int);
        let longer = stops.take(n as int);
        assert(longer =~= shorter.push(seq));
        assert forall|id: SequenceId|
            #![trigger w.sched.open(id)]
            #![trigger w.serves(id)]
            (w.sched.open(id) <==> v.sched.open(id) && !longer.contains(id)) && (w.serves(id)
                <==> v.serves(id) && !longer.contains(id)) by {
            assert(u.sched.open(id) <==> v.sched.open(id) && !shorter.contains(id));
            assert(u.serves(id) <==> v.serves(id) && !shorter.contains(id));
            lemma_push_contains(shorter, seq, id);
        }
    } else {
        assert(stops.take(0) =~= Seq::<SequenceId>::empty());
    }
}

proof fn lemma_push_contains(list: Seq<SequenceId>, last: SequenceId, id: SequenceId)
    ensures
        list.push(last).contains(id) <==> list.contains(id) || id == last,
{
    let longer = list.push(last);
    if list.contains(id) {
        let k = list.index_of(id);
        assert(longer[k] == id);
    }
    if longer.contains(id) {
        let k = longer.index_of(id);
        if k < list.len() {
            assert(list[k] == id);
        }
    }
    assert(longer[list.len() as int] == last);
}

/// One of the first `n` reports is of the sequence.
spec fn reported(done: Seq<FinishedView>, n: nat, id: SequenceId) -> bool {
    exists|k: int| 0 <= k < n && (#[trigger] done[k]).seq == id
}

proof fn lemma_retired_all(v: EngineView, done: Seq<FinishedView>, n: nat)
    requires
        v.sched.wf(),
        v.active.len() == v.sched.seqs.len(),
        n <= done.len(),
    ensures
        ({
            let w = v.retired_all(done, n).0;
            &&& w.sched == v.sched
            &&& w.active.len() == v.active.len()
            &&& forall|id: SequenceId| #[trigger]
                w.serves(id) <==> v.serves(id) && !reported(done, n, id)
        }),
    decreases n,
{
    if n > 0 {
        let m = (n - 1) as nat;
        lemma_retired_all(v, done, m);
        let u = v.retired_all(done, m).0;
        let w = v.retired_all(done, n).0;
        assert forall|id: SequenceId| #[trigger] w.serves(id) <==> v.serves(id) && !reported(
            done,
            n,
            id,
        ) by {
            assert(u.serves(id) <==> v.serves(id) && !reported(done, m, id));
            if reported(done, m, id) {
                let k = choose|k: int| 0 <= k < m && (#[trigger] done[k]).seq == id;
                assert(done[k].seq == id);
            }
            if done[m as int].seq == id {
                assert(reported(done, n, id));
            }
        }
    }
}

/// The reports of a list of generated tokens are of the sequences they ended.
proof fn lemma_fed_reports(
    s: SchedView,
    outputs: Seq<(SequenceId, TokenId)>,
    n: nat,
    now: Tick,
)
    requires
        n <= outputs.len(),
    ensures
        ({
            let (w, done) = s.fed(outputs, n, now);
            &&& w.seqs.len() == s.seqs.len()
            &&& forall|id: SequenceId| #[trigger]
                w.open(id) <==> s.open(id) && !reported(done, done.len(), id)
        }),
    decreases n,
{
    if n > 0 {
        let m = (n - 1) as nat;
        lemma_fed_reports(s, outputs, m, now);
        let (u, before) = s.fed(outputs, m, now);
        let (w, done) = s.fed(outputs, n, now);
        let (id, token) = outputs[m as int];
        let more = u.fed_one(id, token, now).1;
        assert(done == before + more);
        assert forall|p: SequenceId| #[trigger] w.open(p) <==> s.open(p) && !reported(
            done,
            done.len(),
            p,
        ) by {
            assert(u.open(p) <==> s.open(p) && !reported(before, before.len(), p));
            if reported(before, before.len(), p) {
                let k = choose|k: int| 0 <= k < before.len() && (#[trigger] before[k]).seq == p;
                assert(done[k].seq == p);
                assert(reported(done, done.len(), p));
            }
            if u.in_state(id, SequenceState::Decoding) {
                let next = u.fed_token(id, token, now);
                assert(next.open(p) <==> u.open(p));
                if next.seq_of(id).at_limit() {
                    assert(next.open(id));
                    let last = next.ended(id, FinishReason::Length);
                    assert(w == last);
                    assert(more[0].seq == id);
                    assert(done[before.len() as int] == more[0]);
                    if p == id {
                        assert(reported(done, done.len(), p));
                    } else {
                        assert(w.open(p) <==> next.open(p));
                        if reported(done, done.len(), p) {
                            let k = choose|k: int|
                                0 <= k < done.len() && (#[trigger] done[k]).seq == p;
                            assert(before[k].seq == p);
                        }
                    }
                } else {
                    assert(done =~= before);
                }
            } else {
                assert(done =~= before);
            }
        }
    }
}

/// The reports of a cancellation are of the sequences it ended.
proof fn lemma_cancelled_reports(s: SchedView, request: RequestId, n: nat)
    requires
        s.wf(),
        n <= s.seqs.len(),
    ensures
        ({
            let (w, done) = s.cancelled(request, n);
            &&& w.wf()
            &&& w.seqs.len() == s.seqs.len()
            &&& forall|id: SequenceId| #[trigger]
                w.open(id) <==> s.open(id) && !reported(done, done.len(), id)
        }),
    decreases n,
{
    if n > 0 {
        let m = (n - 1) as nat;
        lemma_cancelled_reports(s, request, m);
        let (u, before) = s.cancelled(request, m);
        let (w, done) = s.cancelled(request, n);
        let id = SequenceId(n as u64);
        lemma_retired_keeps_count(u, id, FinishReason::Cancelled);
        assert forall|p: SequenceId| #[trigger] w.open(p) <==> s.open(p) && !reported(
            done,
            done.len(),
            p,
        ) by {
            assert(u.open(p) <==> s.open(p) && !reported(before, before.len(), p));
            if u.seq_of(id).request == request && u.open(id) {
                let more = u.retired(id, FinishReason::Cancelled).1;
                assert(done == before + more);
                assert(done[before.len() as int] == more[0]);
                assert(more[0].seq == id);
                if reported(before, before.len(), p) {
                    let k = choose|k: int|
                        0 <= k < before.len() && (#[trigger] before[k]).seq == p;
                    assert(done[k].seq == p);
                    assert(reported(done, done.len(), p));
                }
                if p == id {
                    assert(reported(done, done.len(), p));
                } else {
                    assert(u.retired(id, FinishReason::Cancelled).0.open(p) <==> u.open(p));
                    if reported(done, done.len(), p) {
                        let k = choose|k: int|
                            0 <= k < done.len() && (#[trigger] done[k]).seq == p;
                        assert(before[k].seq == p);
                    }
                }
            } else {
                assert(done =~= before);
            }
        }
    }
}

pub proof fn lemma_settled<T: Tokenizer>(v: EngineView, t: T, drawn: Seq<(SequenceId, TokenId)>)
    requires
        v.wf(),
        v.sched.fed(
            v.sampled(drawn, drawn.len()),
            v.sampled(drawn, drawn.len()).len(),
            v.now,
        ).0.wf(),
    ensures
        v.settled(t, drawn).0.wf(),
{
    let kept = v.sampled(drawn, drawn.len());
    let stops = v.stopped(drawn, drawn.len());
    let (sched, done) = v.sched.fed(kept, kept.len(), v.now);
    lemma_fed_reports(v.sched, kept, kept.len(), v.now);
    let v0 = EngineView { sched, ..v };
    lemma_emitted_all(v0, t, kept, kept.len());
    let v1 = v0.emitted_all(t, kept, kept.len()).0;
    lemma_stopped_all(v1, stops, stops.len());
    let v2 = v1.stopped_all(stops, stops.len()).0;
    lemma_retired_all(v2, done, done.len());
    let v3 = v2.retired_all(done, done.len()).0;
    assert forall|id: SequenceId| #[trigger] v3.sched.open(id) <==> v3.serves(id) by {
        assert(v.sched.open(id) <==> v.serves(id));
        assert(v0.serves(id) <==> v.serves(id));
        assert(sched.open(id) <==> v.sched.open(id) && !reported(done, done.len(), id));
        assert(v1.serves(id) <==> v0.serves(id));
        let gone = stops.take(stops.len() as int).contains(id);
        assert(v2.serves(id) <==> v1.serves(id) && !gone);
        assert(v2.sched.open(id) <==> v1.sched.open(id) && !gone);
        assert(v3.serves(id) <==> v2.serves(id) && !reported(done, done.len(), id));
    }
}

proof fn lemma_cancelled(v: EngineView, request: RequestId)
    requires
        v.wf(),
    ensures
        v.cancelled(request).0.wf(),
{
    let (sched, done) = v.sched.cancelled(request, v.sched.seqs.len());
    lemma_cancelled_reports(v.sched, request, v.sched.seqs.len());
    let v0 = EngineView { sched, ..v };
    lemma_retired_all(v0, done, done.len());
    let w = v.cancelled(request).0;
    assert forall|id: SequenceId| #[trigger] w.sched.open(id) <==> w.serves(id) by {
        assert(v.sched.open(id) <==> v.serves(id));
        assert(v0.serves(id) <==> v.serves(id));
        assert(w.serves(id) <==> v0.serves(id) && !reported(done, done.len(), id));
        assert(sched.open(id) <==> v.sched.open(id) && !reported(done, done.len(), id));
    }
}

/// A step ends no sequence.
proof fn lemma_step_keeps_open(s: SchedView, now: Tick, id: SequenceId)
    requires
        s.wf(),
    ensures
        s.stepped(now).0.open(id) <==> s.open(id),
{
    lemma_stepped(s, now);
    if s.known(id) {
        assert(same_stream(s.seqs[id.0 - 1], s.stepped(now).0.seqs[id.0 - 1]));
    }
}

} // verus!
