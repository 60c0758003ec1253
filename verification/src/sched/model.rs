//! What the scheduler holds and what each of its decisions is, as values.
use vstd::prelude::*;

use crate::error::{Error, SamplingFault};
use crate::ids::{RequestId, SequenceId};
use crate::kvcache::allocator::{occurrences, refs_of};
use crate::kvcache::cache::{pairs, CacheView};
use crate::kvcache::hash::{chain_spec, prefix_address};
use crate::kvcache::BlockId;
use crate::lists::{outside, without};
use crate::number::{Fraction, Ratio};
use crate::request::{slack_spec, RequestView};
use crate::sequence::{FinishReason, SequenceState, SequenceView};
use crate::{Tick, TokenId};

verus! {

#[derive(Debug, Clone, Copy, PartialEq, Eq, Structural)]
pub struct SchedulerConfig {
    /// Largest number of sequences in one forward pass.
    pub max_batch_seqs: usize,
    /// Token budget per step, across prefill and decode.
    pub max_batch_tokens: usize,
    /// Longest prompt + output the model supports.
    pub max_model_len: usize,
    /// Fraction of the block pool held back so running decodes can always grow
    /// by one block. Without it, admitting new work can deadlock generation.
    pub watermark: Fraction,
    /// Split long prompts across steps instead of running them whole.
    pub chunked_prefill: bool,
}

impl SchedulerConfig {
    pub open spec fn wf(self) -> bool {
        self.watermark.wf()
    }
}

impl Default for SchedulerConfig {
    fn default() -> (r: Self)
        ensures
            r == (SchedulerConfig {
                max_batch_seqs: 256,
                max_batch_tokens: 2048,
                max_model_len: 8192,
                watermark: Fraction { num: 1, den: 100 },
                chunked_prefill: true,
            }),
    {
        SchedulerConfig {
            max_batch_seqs: 256,
            max_batch_tokens: 2048,
            max_model_len: 8192,
            watermark: Fraction { num: 1, den: 100 },
            chunked_prefill: true,
        }
    }
}

/// A slice of one prompt to run this step.
#[derive(Debug, Clone, Copy, PartialEq, Eq, Structural)]
pub struct PrefillChunk {
    pub seq: SequenceId,
    /// Offset into the sequence's tokens where this chunk begins.
    pub start: usize,
    pub len: usize,
    /// Prompt tokens this sequence skipped thanks to the prefix cache.
    pub cached: usize,
}

#[derive(Debug, Clone, Copy, PartialEq, Eq, Structural)]
pub struct SchedulerMetrics {
    pub admitted: u64,
    pub finished: u64,
    pub preemptions: u64,
    /// Sequences whose first token missed the class TTFT budget.
    pub ttft_deadline_misses: u64,
    pub steps: u64,
    /// Context tokens run through the model, prompts and recomputation alike.
    pub prefill_tokens_computed: u64,
    /// Context tokens skipped because the prefix cache already held them.
    pub prefill_tokens_reused: u64,
}

impl SchedulerMetrics {
    pub open spec fn zero() -> SchedulerMetrics {
        SchedulerMetrics {
            admitted: 0,
            finished: 0,
            preemptions: 0,
            ttft_deadline_misses: 0,
            steps: 0,
            prefill_tokens_computed: 0,
            prefill_tokens_reused: 0,
        }
    }
}

/// What one forward pass is made of, as values.
#[verifier::ext_equal]
pub struct BatchView {
    pub prefill: Seq<PrefillChunk>,
    pub decode: Seq<SequenceId>,
    pub preempted: Seq<SequenceId>,
}

/// The number of tokens in a list of chunks.
pub open spec fn chunk_tokens(chunks: Seq<PrefillChunk>) -> nat
    decreases chunks.len(),
{
    if chunks.len() == 0 {
        0
    } else {
        chunk_tokens(chunks.drop_last()) + chunks.last().len as nat
    }
}

impl BatchView {
    pub open spec fn empty() -> BatchView {
        BatchView { prefill: Seq::empty(), decode: Seq::empty(), preempted: Seq::empty() }
    }

    pub open spec fn num_tokens(self) -> nat {
        self.decode.len() + chunk_tokens(self.prefill)
    }

    pub open spec fn num_seqs(self) -> nat {
        self.decode.len() + self.prefill.len()
    }

    /// Without the decode slots of sequences that were evicted for another.
    pub open spec fn surviving(self) -> BatchView {
        BatchView { decode: outside(self.decode, self.preempted), ..self }
    }

    pub open spec fn with_chunk(self, chunk: Option<PrefillChunk>) -> BatchView {
        match chunk {
            Some(c) => BatchView { prefill: self.prefill.push(c), ..self },
            None => self,
        }
    }
}

/// One sequence that reached a terminal state, as values.
#[verifier::ext_equal]
pub struct FinishedView {
    pub seq: SequenceId,
    pub request: RequestId,
    pub reason: FinishReason,
    pub output: Seq<TokenId>,
    pub ttft_us: Option<Tick>,
    pub mean_itl_us: Option<Ratio>,
    pub cached_prefix_len: nat,
}

/// How often `block` stands in the block tables taken together.
pub open spec fn held(tables: Seq<Seq<BlockId>>, block: BlockId) -> nat
    decreases tables.len(),
{
    if tables.len() == 0 {
        0
    } else {
        held(tables.drop_last(), block) + occurrences(tables.last(), block)
    }
}

/// What the scheduler holds. Sequence ids count up from one, so the sequence
/// with id `k` and its block table stand at position `k - 1`.
#[verifier::ext_equal]
pub struct SchedView {
    pub cfg: SchedulerConfig,
    pub cache: CacheView,
    pub seqs: Seq<SequenceView>,
    pub tables: Seq<Seq<BlockId>>,
    pub waiting: Seq<SequenceId>,
    pub running: Seq<SequenceId>,
    pub metrics: SchedulerMetrics,
}

/// The two differ at most in how far they are computed and where they stand,
/// and either both have ended or neither.
pub open spec fn same_stream(p: SequenceView, q: SequenceView) -> bool {
    &&& p.state is Finished <==> q.state is Finished
    &&& q == (SequenceView {
        state: q.state,
        computed: q.computed,
        cached_prefix_len: q.cached_prefix_len,
        ..p
    })
}

/// The smaller of two numbers.
pub open spec fn least(a: nat, b: nat) -> nat {
    if a <= b {
        a
    } else {
        b
    }
}

impl SchedView {
    pub open spec fn known(self, id: SequenceId) -> bool {
        1 <= id.0 <= self.seqs.len()
    }

    pub open spec fn seq_of(self, id: SequenceId) -> SequenceView {
        self.seqs[id.0 - 1]
    }

    pub open spec fn table_of(self, id: SequenceId) -> Seq<BlockId> {
        self.tables[id.0 - 1]
    }

    /// The sequence is known and in that state.
    pub open spec fn in_state(self, id: SequenceId, state: SequenceState) -> bool {
        self.known(id) && self.seq_of(id).state == state
    }

    /// The tick by which the sequence owes its next token.
    pub open spec fn deadline(self, id: SequenceId) -> Tick {
        let q = self.seq_of(id);
        match q.last_token_at {
            // Generating: measured against the next-token budget.
            Some(last) => last.saturating_add(q.class.itl_budget()),
            // Not yet generating: measured against the first-token budget.
            None => q.arrived_at.saturating_add(q.class.ttft_budget()),
        }
    }

    /// Microseconds until this sequence breaches its latency budget.
    pub open spec fn slack(self, id: SequenceId, now: Tick) -> i64 {
        if self.known(id) {
            slack_spec(self.deadline(id), now)
        } else {
            i64::MAX
        }
    }

    /// Blocks held back from admission so decodes can always grow.
    pub open spec fn reserve(self) -> nat {
        let share = self.cfg.watermark.of_rounded_up(self.cache.capacity());
        let capped = if share <= usize::MAX {
            share
        } else {
            usize::MAX as nat
        };
        if capped >= 1 {
            capped
        } else {
            1
        }
    }

    /// After growing a block table to cover `num_tokens`, and whether the pool
    /// could do that and keep `reserve` blocks.
    pub open spec fn ensured(self, id: SequenceId, num_tokens: nat, reserve: nat) -> (
        SchedView,
        bool,
    ) {
        let have = self.table_of(id).len();
        let need = self.cache.blocks_for(num_tokens);
        if need <= have {
            (self, true)
        } else {
            let want = (need - have) as nat;
            if self.cache.allocatable() < want + reserve {
                (self, false)
            } else {
                (
                    SchedView {
                        cache: self.cache.allocated(want),
                        tables: self.tables.update(
                            id.0 - 1,
                            self.table_of(id) + self.cache.handed_out(want),
                        ),
                        ..self
                    },
                    true,
                )
            }
        }
    }

    /// After a running sequence gave its blocks back and went to the queue.
    pub open spec fn preempted(self, id: SequenceId) -> SchedView {
        SchedView {
            cache: self.cache.released(self.table_of(id), self.table_of(id).len()),
            tables: self.tables.update(id.0 - 1, Seq::empty()),
            seqs: self.seqs.update(id.0 - 1, self.seq_of(id).swapped_out()),
            running: without(self.running, id),
            waiting: self.waiting.push(id),
            metrics: SchedulerMetrics {
                preemptions: self.metrics.preemptions.wrapping_add(1),
                ..self.metrics
            },
            ..self
        }
    }

    /// Whether `a` yields its memory no sooner than `b`: it has less slack, or
    /// the same slack and at least as much generated already.
    pub open spec fn yields_no_sooner(self, a: SequenceId, b: SequenceId, now: Tick) -> bool {
        let (x, y) = (self.slack(a, now), self.slack(b, now));
        x < y || (x == y && self.seq_of(a).output_len() >= self.seq_of(b).output_len())
    }

    /// The one of the first `n` running sequences that should yield its memory,
    /// leaving out `protect`: the last one that all others yield no sooner than.
    pub open spec fn victim_among(self, n: nat, now: Tick, protect: SequenceId) -> Option<
        SequenceId,
    >
        decreases n,
    {
        if n == 0 {
            None
        } else {
            let best = self.victim_among((n - 1) as nat, now, protect);
            let id = self.running[n - 1];
            if id == protect {
                best
            } else {
                match best {
                    Some(b) => if self.yields_no_sooner(b, id, now) {
                        Some(id)
                    } else {
                        best
                    },
                    None => Some(id),
                }
            }
        }
    }

    /// The running sequence that should yield its memory.
    pub open spec fn victim(self, now: Tick, protect: SequenceId) -> Option<SequenceId> {
        self.victim_among(self.running.len(), now, protect)
    }

    /// After evicting least urgent peers of `id`, one by one, until its table
    /// covers `need` tokens or nobody is left; and who was evicted, after `gone`.
    pub open spec fn made_room(
        self,
        id: SequenceId,
        need: nat,
        now: Tick,
        gone: Seq<SequenceId>,
    ) -> (SchedView, Seq<SequenceId>)
        decreases self.running.len(),
    {
        let (grown, enough) = self.ensured(id, need, 0);
        if enough {
            (grown, gone)
        } else {
            match self.victim(now, id) {
                Some(v) => if self.running.contains(v) {
                    self.preempted(v).made_room(id, need, now, gone.push(v))
                } else {
                    (self, gone)
                },
                None => (self, gone),
            }
        }
    }

    /// Tokens a sequence needs room for before it can generate one more.
    pub open spec fn next_len(self, id: SequenceId) -> nat {
        least(self.seq_of(id).tokens.len() + 1, usize::MAX as nat)
    }

    /// Sequences whose context is fully computed generate one token each, as
    /// long as the pass has room.
    pub open spec fn decode_from(
        self,
        batch: BatchView,
        order: Seq<SequenceId>,
        i: nat,
        now: Tick,
    ) -> (SchedView, BatchView)
        decreases order.len() - i,
    {
        if i >= order.len() || batch.decode.len() >= self.cfg.max_batch_seqs || batch.num_tokens()
            >= self.cfg.max_batch_tokens {
            (self, batch)
        } else {
            let id = order[i as int];
            if !self.in_state(id, SequenceState::Decoding) {
                self.decode_from(batch, order, i + 1, now)
            } else {
                let need = self.next_len(id);
                let (next, gone) = self.made_room(id, need, now, batch.preempted);
                let decode = if next.table_of(id).len() >= next.cache.blocks_for(need) {
                    batch.decode.push(id)
                } else {
                    batch.decode
                };
                next.decode_from(
                    BatchView { decode, preempted: gone, ..batch },
                    order,
                    i + 1,
                    now,
                )
            }
        }
    }

    /// After looking a sequence's whole context up in the prefix cache.
    pub open spec fn matched(self, id: SequenceId) -> SchedView {
        let q = self.seq_of(id);
        let (cache, blocks) = self.cache.acquired(self.cache.matchable(q.tenant, q.tokens));
        if blocks.len() == 0 {
            SchedView { cache, ..self }
        } else {
            let reused = blocks.len() * self.cache.block_size;
            SchedView {
                cache,
                tables: self.tables.update(id.0 - 1, blocks),
                seqs: self.seqs.update(id.0 - 1, q.with_cached_prefix(reused)),
                metrics: SchedulerMetrics {
                    prefill_tokens_reused: self.metrics.prefill_tokens_reused.wrapping_add(
                        reused as u64,
                    ),
                    ..self.metrics
                },
                ..self
            }
        }
    }

    /// How much of `remaining` tokens to run with `budget` tokens left.
    pub open spec fn chunk_len(self, remaining: nat, budget: nat) -> nat {
        if self.cfg.chunked_prefill {
            least(remaining, budget)
        } else if remaining <= budget {
            remaining
        } else {
            0
        }
    }

    /// After scheduling `len` tokens of a sequence from where it stands.
    pub open spec fn chunk_run(self, id: SequenceId, len: nat) -> SchedView {
        let q = self.seq_of(id).advanced(len);
        let state = if q.computed >= q.tokens.len() {
            SequenceState::Decoding
        } else {
            SequenceState::Prefilling
        };
        SchedView {
            seqs: self.seqs.update(id.0 - 1, SequenceView { state, ..q }),
            running: if self.running.contains(id) {
                self.running
            } else {
                self.running.push(id)
            },
            metrics: SchedulerMetrics {
                prefill_tokens_computed: self.metrics.prefill_tokens_computed.wrapping_add(
                    len as u64,
                ),
                ..self.metrics
            },
            ..self
        }
    }

    /// After trying to schedule one prefill chunk, and the chunk if there is
    /// one. A first attempt consults the prefix cache; a resumed chunk does not.
    pub open spec fn prefilled(self, id: SequenceId, budget: nat, reserve: nat) -> (
        SchedView,
        Option<PrefillChunk>,
    ) {
        if !self.known(id) {
            (self, None)
        } else {
            let looked = if self.seq_of(id).computed == 0 {
                self.matched(id)
            } else {
                self
            };
            let q = looked.seq_of(id);
            let len = looked.chunk_len((q.tokens.len() - q.computed) as nat, budget);
            if len == 0 {
                (looked, None)
            } else {
                let (grown, enough) = looked.ensured(id, q.computed + len, reserve);
                if !enough {
                    (looked, None)
                } else {
                    (
                        grown.chunk_run(id, len),
                        Some(
                            PrefillChunk {
                                seq: id,
                                start: q.computed as usize,
                                len: len as usize,
                                cached: q.cached_prefix_len as usize,
                            },
                        ),
                    )
                }
            }
        }
    }

    /// Tokens that still fit the pass.
    pub open spec fn budget_left(self, batch: BatchView) -> nat {
        if batch.num_tokens() <= self.cfg.max_batch_tokens {
            (self.cfg.max_batch_tokens - batch.num_tokens()) as nat
        } else {
            0
        }
    }

    pub open spec fn full(self, batch: BatchView) -> bool {
        self.budget_left(batch) == 0 || batch.num_seqs() >= self.cfg.max_batch_seqs
    }

    /// Prefills already holding blocks go on, as long as the pass has room.
    pub open spec fn prefill_from(
        self,
        batch: BatchView,
        order: Seq<SequenceId>,
        i: nat,
        reserve: nat,
    ) -> (SchedView, BatchView)
        decreases order.len() - i,
    {
        if i >= order.len() || self.full(batch) {
            (self, batch)
        } else {
            let id = order[i as int];
            if !self.in_state(id, SequenceState::Prefilling) {
                self.prefill_from(batch, order, i + 1, reserve)
            } else {
                let (next, chunk) = self.prefilled(id, self.budget_left(batch), reserve);
                next.prefill_from(batch.with_chunk(chunk), order, i + 1, reserve)
            }
        }
    }

    /// Whether `a` is at least as urgent as `b`: less slack, or the same slack
    /// and the lower id.
    pub open spec fn no_less_urgent(self, a: SequenceId, b: SequenceId, now: Tick) -> bool {
        let (x, y) = (self.slack(a, now), self.slack(b, now));
        x < y || (x == y && a.0 <= b.0)
    }

    /// The waiting sequences, most urgent first.
    pub open spec fn ranked(self, now: Tick) -> Seq<SequenceId> {
        self.waiting.sort_by(|a: SequenceId, b: SequenceId| self.no_less_urgent(a, b, now))
    }

    /// Ranked sequences start as long as the pass has room; who did not start
    /// is deferred.
    pub open spec fn admit_from(
        self,
        batch: BatchView,
        deferred: Seq<SequenceId>,
        ranked: Seq<SequenceId>,
        i: nat,
        reserve: nat,
    ) -> (SchedView, BatchView, Seq<SequenceId>)
        decreases ranked.len() - i,
    {
        if i >= ranked.len() {
            (self, batch, deferred)
        } else {
            let id = ranked[i as int];
            if self.full(batch) {
                self.admit_from(batch, deferred.push(id), ranked, i + 1, reserve)
            } else {
                let (next, chunk) = self.prefilled(id, self.budget_left(batch), reserve);
                next.admit_from(
                    batch.with_chunk(chunk),
                    if chunk is Some {
                        deferred
                    } else {
                        deferred.push(id)
                    },
                    ranked,
                    i + 1,
                    reserve,
                )
            }
        }
    }

    /// After choosing the work for one forward pass, and that work: decodes
    /// first, then prefills in flight, then new work by urgency. A sequence that
    /// was evicted for another generates no token.
    pub open spec fn stepped(self, now: Tick) -> (SchedView, BatchView) {
        let begun = SchedView {
            metrics: SchedulerMetrics {
                steps: self.metrics.steps.wrapping_add(1),
                ..self.metrics
            },
            ..self
        };
        let (decoded, b1) = begun.decode_from(BatchView::empty(), self.running, 0, now);
        let (continued, b2) = decoded.prefill_from(
            b1.surviving(),
            self.running,
            0,
            self.reserve(),
        );
        let (admitted, b3, deferred) = continued.admit_from(
            b2,
            Seq::empty(),
            continued.ranked(now),
            0,
            self.reserve(),
        );
        (SchedView { waiting: deferred, ..admitted }, b3)
    }

    /// Why a request is refused, if it is.
    pub open spec fn refusal(self, request: RequestView) -> Option<Error> {
        if request.params.fault() is Some {
            Some(Error::InvalidSampling(request.params.fault()->0))
        } else if request.prompt.len() >= self.cfg.max_model_len {
            Some(
                Error::PromptTooLong {
                    got: request.prompt.len() as usize,
                    max: self.cfg.max_model_len,
                },
            )
        } else if request.prompt.len() == 0 {
            Some(Error::InvalidSampling(SamplingFault::EmptyPrompt))
        } else {
            None
        }
    }

    /// The number of sequences a request asks for: one at least.
    pub open spec fn streams(request: RequestView) -> nat {
        if request.n == 0 {
            1
        } else {
            request.n as nat
        }
    }

    /// The ids of the next `n` sequences.
    pub open spec fn next_ids(self, n: nat) -> Seq<SequenceId> {
        Seq::new(n, |i: int| SequenceId((self.seqs.len() + i + 1) as u64))
    }

    /// After queueing `n` sequences of a request.
    pub open spec fn queued(self, request: RequestView, n: nat) -> SchedView {
        SchedView {
            seqs: self.seqs + Seq::new(
                n,
                |i: int|
                    SequenceView::fresh(
                        SequenceId((self.seqs.len() + i + 1) as u64),
                        request.id,
                        request.tenant,
                        request.class,
                        request.prompt,
                        request.params.max_tokens as nat,
                        request.arrived_at,
                    ),
            ),
            tables: self.tables + Seq::new(n, |i: int| Seq::<BlockId>::empty()),
            waiting: self.waiting + self.next_ids(n),
            metrics: SchedulerMetrics {
                admitted: self.metrics.admitted.wrapping_add(n as u64),
                ..self.metrics
            },
            ..self
        }
    }

    /// What is reported of a sequence that ends.
    pub open spec fn report(self, id: SequenceId, reason: FinishReason) -> FinishedView {
        let q = self.seq_of(id);
        FinishedView {
            seq: id,
            request: q.request,
            reason,
            output: q.output(),
            ttft_us: q.ttft(),
            mean_itl_us: q.mean_itl(),
            cached_prefix_len: q.cached_prefix_len,
        }
    }

    /// After a sequence ended: its full blocks are published, so its prompt and
    /// output stay reusable, and then released.
    pub open spec fn ended(self, id: SequenceId, reason: FinishReason) -> SchedView {
        let q = self.seq_of(id);
        let table = self.table_of(id);
        let hashes = chain_spec(q.tenant, q.tokens, self.cache.block_size);
        SchedView {
            cache: self.cache.published(hashes, table, pairs(hashes.len(), table.len())).released(
                table,
                table.len(),
            ),
            tables: self.tables.update(id.0 - 1, Seq::empty()),
            seqs: self.seqs.update(id.0 - 1, q.finished(reason)),
            running: without(self.running, id),
            waiting: without(self.waiting, id),
            metrics: SchedulerMetrics {
                finished: self.metrics.finished.wrapping_add(1),
                ..self.metrics
            },
            ..self
        }
    }

    /// The sequence is known and has not ended.
    pub open spec fn open(self, id: SequenceId) -> bool {
        self.known(id) && !(self.seq_of(id).state is Finished)
    }

    /// After ending a sequence, if it has not ended, and what is reported of it.
    pub open spec fn retired(self, id: SequenceId, reason: FinishReason) -> (
        SchedView,
        Seq<FinishedView>,
    ) {
        if self.open(id) {
            (self.ended(id, reason), seq![self.report(id, reason)])
        } else {
            (self, Seq::empty())
        }
    }

    /// After a generated token was appended to a sequence.
    pub open spec fn fed_token(self, id: SequenceId, token: TokenId, now: Tick) -> SchedView {
        let q = self.seq_of(id);
        let p = q.pushed(token, now);
        let missed = q.first_token_at is None && p.ttft()->0 > q.class.ttft_budget();
        SchedView {
            seqs: self.seqs.update(id.0 - 1, p),
            metrics: if missed {
                SchedulerMetrics {
                    ttft_deadline_misses: self.metrics.ttft_deadline_misses.wrapping_add(1),
                    ..self.metrics
                }
            } else {
                self.metrics
            },
            ..self
        }
    }

    /// After feeding one generated token back, and the sequence it ended. Only
    /// a sequence that is decoding takes a token.
    pub open spec fn fed_one(self, id: SequenceId, token: TokenId, now: Tick) -> (
        SchedView,
        Seq<FinishedView>,
    ) {
        if !self.in_state(id, SequenceState::Decoding) {
            (self, Seq::empty())
        } else {
            let next = self.fed_token(id, token, now);
            if next.seq_of(id).at_limit() {
                next.retired(id, FinishReason::Length)
            } else {
                (next, Seq::empty())
            }
        }
    }

    /// After feeding the first `n` generated tokens back, and the sequences that
    /// finished.
    pub open spec fn fed(self, outputs: Seq<(SequenceId, TokenId)>, n: nat, now: Tick) -> (
        SchedView,
        Seq<FinishedView>,
    )
        decreases n,
    {
        if n == 0 {
            (self, Seq::empty())
        } else {
            let (before, done) = self.fed(outputs, (n - 1) as nat, now);
            let (after, more) = before.fed_one(outputs[n - 1].0, outputs[n - 1].1, now);
            (after, done + more)
        }
    }

    /// After cancelling the open sequences of a request among the first `n`, by
    /// ascending id, and what is reported of them.
    pub open spec fn cancelled(self, request: RequestId, n: nat) -> (SchedView, Seq<FinishedView>)
        decreases n,
    {
        if n == 0 {
            (self, Seq::empty())
        } else {
            let (before, done) = self.cancelled(request, (n - 1) as nat);
            let id = SequenceId(n as u64);
            if before.seq_of(id).request == request {
                let (after, more) = before.retired(id, FinishReason::Cancelled);
                (after, done + more)
            } else {
                (before, done)
            }
        }
    }

    /// Two states hold the same streams: nothing but how far a sequence has been
    /// computed and where it stands differs.
    pub open spec fn same_streams(self, w: SchedView) -> bool {
        &&& self.seqs.len() == w.seqs.len()
        &&& forall|i: int|
            0 <= i < self.seqs.len() ==> same_stream(self.seqs[i], #[trigger] w.seqs[i])
    }

    /// Every chunk of the pass is a non-empty slice of a known sequence's tokens,
    /// and every decode slot belongs to a known sequence.
    pub open spec fn runnable(self, batch: BatchView) -> bool {
        &&& forall|i: int|
            0 <= i < batch.prefill.len() ==> {
                let c = #[trigger] batch.prefill[i];
                &&& self.known(c.seq)
                &&& 0 < c.len
                &&& c.start + c.len <= self.seq_of(c.seq).tokens.len()
            }
        &&& forall|i: int| 0 <= i < batch.decode.len() ==> self.known(#[trigger] batch.decode[i])
    }

    /// The id belongs in the running list.
    pub open spec fn runs(self, id: SequenceId) -> bool {
        self.known(id) && self.seq_of(id).state.active()
    }

    /// The id belongs in the queue.
    pub open spec fn waits(self, id: SequenceId) -> bool {
        self.known(id) && (self.seq_of(id).state is Waiting || self.seq_of(id).state is Swapped)
    }

    /// Position `j` of a sequence's table holds a block that is indexed, if at
    /// all, under the address of the sequence's first `j + 1` blocks.
    pub open spec fn addressed(self, i: int, j: int) -> bool {
        self.cache.indexed(self.tables[i][j]) ==> {
            &&& (j + 1) * self.cache.block_size <= self.seqs[i].tokens.len()
            &&& self.cache.prefix.by_block[self.tables[i][j].0] == prefix_address(
                self.seqs[i].tenant,
                self.seqs[i].tokens,
                self.cache.block_size,
                (j + 1) as nat,
            )
        }
    }

    /// What every operation keeps of blocks, sequences and lists: the cache is
    /// in order; every sequence stands at its id, one that runs has some of its
    /// context computed, and one that waits has not all of it; each open sequence is in exactly one of the two
    /// lists, the one its state says; a block is referenced exactly as often as
    /// tables list it; and a block that tables list more than once is indexed,
    /// under the address that each of those sequences has for it.
    pub open spec fn wf_core(self) -> bool {
        &&& self.cfg.wf()
        &&& self.cache.wf()
        &&& self.seqs.len() == self.tables.len()
        &&& self.seqs.len() <= usize::MAX
        &&& forall|i: int|
            0 <= i < self.seqs.len() ==> (#[trigger] self.seqs[i]).wf() && self.seqs[i].id.0 == i
                + 1 && (self.seqs[i].state.active() ==> self.seqs[i].computed > 0)
                && self.seqs[i].has_work()
        &&& self.running.no_duplicates()
        &&& self.waiting.no_duplicates()
        &&& forall|id: SequenceId| #[trigger] self.running.contains(id) <==> self.runs(id)
        &&& forall|id: SequenceId| #[trigger] self.waiting.contains(id) <==> self.waits(id)
        &&& forall|b: BlockId| #[trigger] refs_of(self.cache.refs, b) == held(self.tables, b)
        &&& forall|b: BlockId| !self.cache.indexed(b) ==> #[trigger] held(self.tables, b) <= 1
        &&& forall|i: int, j: int|
            0 <= i < self.tables.len() && 0 <= j < self.tables[i].len() ==> #[trigger] self.addressed(
                i,
                j,
            )
    }

    /// Sequences with nothing computed, and those that have ended, hold no
    /// block, except perhaps the one at position `k`.
    pub open spec fn cleared_but(self, k: int) -> bool {
        forall|i: int|
            0 <= i < self.seqs.len() && i != k && (self.seqs[i].computed == 0
                || self.seqs[i].state is Finished) ==> (#[trigger] self.tables[i]).len() == 0
    }

    /// What every operation keeps: blocks, sequences and lists agree, and a
    /// sequence with nothing computed, or that has ended, holds no block.
    pub open spec fn wf(self) -> bool {
        self.wf_core() && self.cleared_but(-1)
    }
}

} // verus!
