//! What the engine holds and what each of its decisions is, as values.
use vstd::prelude::*;

use super::stream::{EventView, Usage};
use crate::backend::sampler::{xorshift, SamplerView};
use crate::backend::tokenizer::{fed, DecoderView, Tokenizer};
use crate::backend::PassCost;
use crate::ids::{RequestId, SequenceId};
use crate::kvcache::cache::KvCacheConfig;
use crate::kvcache::BlockId;
use crate::request::{RequestView, ServiceClass};
use crate::sampling::SamplingView;
use crate::sched::model::{BatchView, FinishedView, PrefillChunk, SchedView, SchedulerConfig};
use crate::sequence::FinishReason;
use crate::{Tick, TokenId};

verus! {

#[derive(Debug, Clone, Copy, PartialEq, Eq, Structural)]
pub struct EngineConfig {
    pub scheduler: SchedulerConfig,
    pub cache: KvCacheConfig,
    /// Requests accepted before the API layer is told to back off.
    pub max_queued_requests: usize,
    /// Sleep to match modelled pass durations, so a simulated deployment
    /// streams at a realistic rate instead of instantly.
    pub realtime: bool,
    /// Seed used when a request does not supply one.
    pub base_seed: u64,
}

/// One sequence's contribution to a forward pass, as values.
#[verifier::ext_equal]
pub struct WorkView {
    pub seq: SequenceId,
    pub tokens: Seq<TokenId>,
    pub position: nat,
    pub blocks: Seq<BlockId>,
    pub needs_logits: bool,
}

/// Something to tell the client of a sequence, as values.
#[verifier::ext_equal]
pub struct NoticeView {
    pub seq: SequenceId,
    pub event: EventView,
}

/// What the engine keeps of a sequence alongside the scheduler, as values.
#[verifier::ext_equal]
pub struct ActiveView {
    pub request: RequestId,
    pub sampler: SamplerView,
    pub decoder: DecoderView,
    pub prompt_tokens: usize,
    pub emitted: usize,
}

/// What the engine holds. The sequence with id `k` stands at position `k - 1`.
#[verifier::ext_equal]
pub struct EngineView {
    pub config: EngineConfig,
    pub sched: SchedView,
    pub active: Seq<Option<ActiveView>>,
    pub next_request: u64,
    pub now: Tick,
    pub forward_passes: u64,
    pub busy_us: u64,
    pub estimated: bool,
}

/// The blocks of a sequence, none where it has ended.
pub open spec fn blocks_of(s: SchedView, id: SequenceId) -> Seq<BlockId> {
    if s.open(id) {
        s.table_of(id)
    } else {
        Seq::empty()
    }
}

/// The work of one prefill chunk. Only the chunk that reaches the end of the
/// context produces the logits a token is sampled from.
pub open spec fn chunk_work(s: SchedView, c: PrefillChunk) -> WorkView {
    let q = s.seq_of(c.seq);
    let end = c.start + c.len;
    WorkView {
        seq: c.seq,
        tokens: q.tokens.subrange(c.start as int, end),
        position: c.start as nat,
        blocks: blocks_of(s, c.seq),
        needs_logits: end >= q.tokens.len(),
    }
}

/// The work of the first `n` chunks.
pub open spec fn prefill_work(s: SchedView, chunks: Seq<PrefillChunk>, n: nat) -> Seq<WorkView>
    decreases n,
{
    if n == 0 {
        Seq::empty()
    } else {
        prefill_work(s, chunks, (n - 1) as nat).push(chunk_work(s, chunks[n - 1]))
    }
}

/// The work of one decode slot: the last token, at its place.
pub open spec fn decode_work(s: SchedView, id: SequenceId) -> WorkView {
    let q = s.seq_of(id);
    WorkView {
        seq: id,
        tokens: seq![q.tokens.last()],
        position: (q.tokens.len() - 1) as nat,
        blocks: blocks_of(s, id),
        needs_logits: true,
    }
}

/// The work of the first `n` decode slots.
pub open spec fn decodes_work(s: SchedView, ids: Seq<SequenceId>, n: nat) -> Seq<WorkView>
    decreases n,
{
    if n == 0 {
        Seq::empty()
    } else if s.seq_of(ids[n - 1]).tokens.len() == 0 {
        decodes_work(s, ids, (n - 1) as nat)
    } else {
        decodes_work(s, ids, (n - 1) as nat).push(decode_work(s, ids[n - 1]))
    }
}

/// The work of a whole pass: prefill chunks first, then decodes.
pub open spec fn pass_work(s: SchedView, batch: BatchView) -> Seq<WorkView> {
    prefill_work(s, batch.prefill, batch.prefill.len()) + decodes_work(
        s,
        batch.decode,
        batch.decode.len(),
    )
}

impl EngineView {
    /// The scheduler is in order, and the engine keeps a sequence exactly as
    /// long as the scheduler does.
    pub open spec fn wf(self) -> bool {
        &&& self.sched.wf()
        &&& self.active.len() == self.sched.seqs.len()
        &&& forall|id: SequenceId| #[trigger] self.sched.open(id) <==> self.serves(id)
    }

    /// The engine still serves the sequence.
    pub open spec fn serves(self, id: SequenceId) -> bool {
        1 <= id.0 <= self.active.len() && self.active[id.0 - 1] is Some
    }

    pub open spec fn active_of(self, id: SequenceId) -> ActiveView {
        self.active[id.0 - 1]->0
    }

    /// The request that arrives now, with its prompt tokenized.
    pub open spec fn request_of(
        self,
        tenant: Seq<char>,
        prompt: Seq<TokenId>,
        params: SamplingView,
        class: ServiceClass,
    ) -> RequestView {
        RequestView {
            id: RequestId(self.next_request),
            tenant,
            prompt,
            params,
            class,
            arrived_at: self.now,
            n: 1,
        }
    }

    /// What the engine keeps of the sequence of a request that arrives now. A
    /// request without a seed draws from one of its own.
    pub open spec fn newcomer(self, request: RequestView, eos: TokenId) -> ActiveView {
        ActiveView {
            request: request.id,
            sampler: SamplerView::fresh(
                request.params,
                eos,
                self.config.base_seed.wrapping_add(request.id.0).wrapping_add(0),
            ),
            decoder: DecoderView::fresh(),
            prompt_tokens: request.prompt.len() as usize,
            emitted: 0,
        }
    }

    /// After a request was accepted.
    pub open spec fn accepted(self, request: RequestView, eos: TokenId) -> EngineView {
        EngineView {
            sched: self.sched.queued(request, 1),
            active: self.active.push(Some(self.newcomer(request, eos))),
            next_request: self.next_request.wrapping_add(1),
            ..self
        }
    }

    /// After the scheduler chose a pass. Where everything is blocked on memory,
    /// the clock moves on, so that deadline ranking still makes progress.
    pub open spec fn begun(self) -> EngineView {
        let (sched, batch) = self.sched.stepped(self.now);
        EngineView {
            sched,
            now: if batch.prefill.len() == 0 && batch.decode.len() == 0 {
                self.now.wrapping_add(1_000)
            } else {
                self.now
            },
            ..self
        }
    }

    /// After a pass ran at that cost.
    pub open spec fn passed(self, cost: PassCost) -> EngineView {
        EngineView {
            forward_passes: self.forward_passes.wrapping_add(1),
            busy_us: self.busy_us.wrapping_add(cost.duration_us),
            estimated: cost.estimated,
            now: self.now.wrapping_add(
                if cost.duration_us >= 1 {
                    cost.duration_us
                } else {
                    1
                },
            ),
            ..self
        }
    }

    /// After a draw for a sequence that is served.
    pub open spec fn drew(self, seq: SequenceId) -> EngineView {
        if !self.serves(seq) {
            self
        } else {
            let a = self.active_of(seq);
            EngineView {
                active: self.active.update(
                    seq.0 - 1,
                    Some(
                        ActiveView {
                            sampler: SamplerView { rng: xorshift(a.sampler.rng), ..a.sampler },
                            ..a
                        },
                    ),
                ),
                ..self
            }
        }
    }

    /// A token drawn for a sequence ends it.
    pub open spec fn is_stop(self, seq: SequenceId, token: TokenId) -> bool {
        self.serves(seq) && self.active_of(seq).sampler.stops(token)
    }

    /// The sequences that the first `n` draws end, in order.
    pub open spec fn stopped(self, drawn: Seq<(SequenceId, TokenId)>, n: nat) -> Seq<SequenceId>
        decreases n,
    {
        if n == 0 {
            Seq::empty()
        } else if self.is_stop(drawn[n - 1].0, drawn[n - 1].1) {
            self.stopped(drawn, (n - 1) as nat).push(drawn[n - 1].0)
        } else {
            self.stopped(drawn, (n - 1) as nat)
        }
    }

    /// The first `n` draws that extend a sequence, in order.
    pub open spec fn sampled(self, drawn: Seq<(SequenceId, TokenId)>, n: nat) -> Seq<
        (SequenceId, TokenId),
    >
        decreases n,
    {
        if n == 0 {
            Seq::empty()
        } else if self.serves(drawn[n - 1].0) && !self.is_stop(drawn[n - 1].0, drawn[n - 1].1) {
            self.sampled(drawn, (n - 1) as nat).push(drawn[n - 1])
        } else {
            self.sampled(drawn, (n - 1) as nat)
        }
    }

    /// After telling a client of one more token, and what it is told.
    pub open spec fn emitted<T: Tokenizer>(self, t: T, seq: SequenceId, token: TokenId) -> (
        EngineView,
        Seq<NoticeView>,
    ) {
        if !self.serves(seq) {
            (self, Seq::empty())
        } else {
            let a = self.active_of(seq);
            let (decoder, text) = fed(t, a.decoder, token);
            (
                EngineView {
                    active: self.active.update(
                        seq.0 - 1,
                        Some(
                            ActiveView { decoder, emitted: a.emitted.wrapping_add(1), ..a },
                        ),
                    ),
                    ..self
                },
                seq![NoticeView { seq, event: EventView::Token { index: a.emitted, token, text } }],
            )
        }
    }

    /// After telling clients of the first `n` tokens.
    pub open spec fn emitted_all<T: Tokenizer>(
        self,
        t: T,
        tokens: Seq<(SequenceId, TokenId)>,
        n: nat,
    ) -> (EngineView, Seq<NoticeView>)
        decreases n,
    {
        if n == 0 {
            (self, Seq::empty())
        } else {
            let (before, told) = self.emitted_all(t, tokens, (n - 1) as nat);
            let (after, more) = before.emitted(t, tokens[n - 1].0, tokens[n - 1].1);
            (after, told + more)
        }
    }

    /// What a client is told when its sequence ends.
    pub open spec fn farewell(self, seq: SequenceId, reason: FinishReason) -> NoticeView {
        let a = self.active_of(seq);
        NoticeView {
            seq,
            event: EventView::Done {
                reason,
                trailing_text: a.decoder.tail,
                usage: Usage {
                    prompt_tokens: a.prompt_tokens,
                    completion_tokens: a.emitted,
                    cached_prompt_tokens: self.sched.seq_of(seq).cached_prefix_len as usize,
                },
            },
        }
    }

    /// After the engine let go of a sequence, and what its client is told.
    pub open spec fn retired(self, seq: SequenceId, reason: FinishReason) -> (
        EngineView,
        Seq<NoticeView>,
    ) {
        if !self.serves(seq) {
            (self, Seq::empty())
        } else {
            (
                EngineView { active: self.active.update(seq.0 - 1, None), ..self },
                seq![self.farewell(seq, reason)],
            )
        }
    }

    /// After the first `n` stops.
    pub open spec fn stopped_all(self, stops: Seq<SequenceId>, n: nat) -> (
        EngineView,
        Seq<NoticeView>,
    )
        decreases n,
    {
        if n == 0 {
            (self, Seq::empty())
        } else {
            let (before, told) = self.stopped_all(stops, (n - 1) as nat);
            let seq = stops[n - 1];
            let halted = EngineView {
                sched: before.sched.retired(seq, FinishReason::Stop).0,
                ..before
            };
            let (after, more) = halted.retired(seq, FinishReason::Stop);
            (after, told + more)
        }
    }

    /// After letting go of the first `n` sequences that the scheduler finished.
    pub open spec fn retired_all(self, done: Seq<FinishedView>, n: nat) -> (
        EngineView,
        Seq<NoticeView>,
    )
        decreases n,
    {
        if n == 0 {
            (self, Seq::empty())
        } else {
            let (before, told) = self.retired_all(done, (n - 1) as nat);
            let (after, more) = before.retired(done[n - 1].seq, done[n - 1].reason);
            (after, told + more)
        }
    }

    /// After the draws of a pass were settled, and what clients are told: first
    /// the new tokens, then the stops, then the sequences at their limit.
    /// Accepted tokens are fed back before stops are handled, so a sequence that
    /// stops still reports the tokens it produced earlier.
    pub open spec fn settled<T: Tokenizer>(self, t: T, drawn: Seq<(SequenceId, TokenId)>) -> (
        EngineView,
        Seq<NoticeView>,
    ) {
        let kept = self.sampled(drawn, drawn.len());
        let stops = self.stopped(drawn, drawn.len());
        let (sched, done) = self.sched.fed(kept, kept.len(), self.now);
        let (v1, told1) = (EngineView { sched, ..self }).emitted_all(t, kept, kept.len());
        let (v2, told2) = v1.stopped_all(stops, stops.len());
        let (v3, told3) = v2.retired_all(done, done.len());
        (v3, told1 + told2 + told3)
    }

    /// After cancelling a request, and what its clients are told.
    pub open spec fn cancelled(self, request: RequestId) -> (EngineView, Seq<NoticeView>) {
        let (sched, done) = self.sched.cancelled(request, self.sched.seqs.len());
        (EngineView { sched, ..self }).retired_all(done, done.len())
    }
}

} // verus!
