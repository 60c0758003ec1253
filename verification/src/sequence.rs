//! One generation stream and its life.
use vstd::prelude::*;

use crate::ids::{RequestId, SequenceId};
use crate::number::Ratio;
use crate::request::ServiceClass;
use crate::{Tick, TokenId};

verus! {

/// Why a sequence stopped generating.
#[derive(Debug, Clone, Copy, PartialEq, Eq, Structural)]
pub enum FinishReason {
    /// Hit `max_tokens`.
    Length,
    /// Emitted EOS or a configured stop token.
    Stop,
    /// Client went away or explicitly cancelled.
    Cancelled,
    /// Evicted under memory pressure and not recoverable.
    Preempted,
}

/// Lifecycle of a single generation stream.
#[derive(Debug, Clone, Copy, PartialEq, Eq, Structural)]
pub enum SequenceState {
    /// Admitted, holds no GPU blocks yet.
    Waiting,
    /// Prompt is being processed, possibly across several chunked steps.
    Prefilling,
    /// Generating one token per step.
    Decoding,
    /// Blocks released under pressure; tokens retained for recomputation.
    Swapped,
    Finished(FinishReason),
}

impl SequenceState {
    pub open spec fn active(self) -> bool {
        self is Prefilling || self is Decoding
    }

    pub fn is_active(self) -> (r: bool)
        ensures
            r == self.active(),
    {
        match self {
            SequenceState::Prefilling => true,
            SequenceState::Decoding => true,
            _ => false,
        }
    }

    pub fn is_finished(self) -> (r: bool)
        ensures
            r == (self is Finished),
    {
        match self {
            SequenceState::Finished(_) => true,
            _ => false,
        }
    }
}

/// One generation stream. Owns its token history; block ownership lives in the
/// KV cache so that this type stays free of allocator concerns.
#[derive(Debug, Clone)]
pub struct Sequence {
    pub id: SequenceId,
    pub request: RequestId,
    pub tenant: String,
    pub class: ServiceClass,
    pub state: SequenceState,
    /// Prompt followed by every generated token.
    pub tokens: Vec<TokenId>,
    pub prompt_len: usize,
    /// How much of `tokens` already has KV entries computed on the device.
    /// Trails `tokens.len()` while a prompt is being prefilled in chunks.
    pub computed: usize,
    /// Prompt tokens served from the prefix cache rather than recomputed.
    pub cached_prefix_len: usize,
    pub arrived_at: Tick,
    pub first_token_at: Option<Tick>,
    pub last_token_at: Option<Tick>,
    pub max_tokens: usize,
}

/// A generation stream as values.
#[verifier::ext_equal]
pub struct SequenceView {
    pub id: SequenceId,
    pub request: RequestId,
    pub tenant: Seq<char>,
    pub class: ServiceClass,
    pub state: SequenceState,
    pub tokens: Seq<TokenId>,
    pub prompt_len: nat,
    pub computed: nat,
    pub cached_prefix_len: nat,
    pub arrived_at: Tick,
    pub first_token_at: Option<Tick>,
    pub last_token_at: Option<Tick>,
    pub max_tokens: nat,
}

impl View for Sequence {
    type V = SequenceView;

    open spec fn view(&self) -> SequenceView {
        SequenceView {
            id: self.id,
            request: self.request,
            tenant: self.tenant@,
            class: self.class,
            state: self.state,
            tokens: self.tokens@,
            prompt_len: self.prompt_len as nat,
            computed: self.computed as nat,
            cached_prefix_len: self.cached_prefix_len as nat,
            arrived_at: self.arrived_at,
            first_token_at: self.first_token_at,
            last_token_at: self.last_token_at,
            max_tokens: self.max_tokens as nat,
        }
    }
}

impl SequenceView {
    /// The prompt is a prefix of the tokens, and no more tokens are computed
    /// than there are.
    pub open spec fn wf(self) -> bool {
        &&& self.prompt_len <= self.tokens.len()
        &&& self.computed <= self.tokens.len()
        &&& self.tokens.len() <= usize::MAX
        &&& self.cached_prefix_len <= usize::MAX
        &&& self.max_tokens <= usize::MAX
    }

    /// Something is left to compute before a sequence that waits can generate.
    pub open spec fn has_work(self) -> bool {
        self.state is Waiting || self.state is Swapped ==> self.computed < self.tokens.len()
    }

    /// A sequence that has just been admitted.
    pub open spec fn fresh(
        id: SequenceId,
        request: RequestId,
        tenant: Seq<char>,
        class: ServiceClass,
        prompt: Seq<TokenId>,
        max_tokens: nat,
        arrived_at: Tick,
    ) -> SequenceView {
        SequenceView {
            id,
            request,
            tenant,
            class,
            state: SequenceState::Waiting,
            tokens: prompt,
            prompt_len: prompt.len(),
            computed: 0,
            cached_prefix_len: 0,
            arrived_at,
            first_token_at: None,
            last_token_at: None,
            max_tokens,
        }
    }

    pub open spec fn prompt(self) -> Seq<TokenId> {
        self.tokens.take(self.prompt_len as int)
    }

    pub open spec fn output(self) -> Seq<TokenId> {
        self.tokens.skip(self.prompt_len as int)
    }

    pub open spec fn output_len(self) -> nat {
        (self.tokens.len() - self.prompt_len) as nat
    }

    /// `n` more tokens computed, though never more than there are.
    pub open spec fn advanced(self, n: nat) -> SequenceView {
        SequenceView {
            computed: if self.computed + n <= self.tokens.len() {
                self.computed + n
            } else {
                self.tokens.len()
            },
            ..self
        }
    }

    /// The first `n` tokens taken over from the prefix cache.
    pub open spec fn with_cached_prefix(self, n: nat) -> SequenceView {
        SequenceView {
            cached_prefix_len: n,
            computed: if self.computed >= n {
                self.computed
            } else {
                n
            },
            ..self
        }
    }

    /// One more generated token.
    pub open spec fn pushed(self, token: TokenId, now: Tick) -> SequenceView {
        SequenceView {
            tokens: self.tokens.push(token),
            computed: self.tokens.len() + 1,
            first_token_at: if self.first_token_at is None {
                Some(now)
            } else {
                self.first_token_at
            },
            last_token_at: Some(now),
            ..self
        }
    }

    /// KV state dropped, tokens kept.
    pub open spec fn swapped_out(self) -> SequenceView {
        SequenceView {
            computed: 0,
            cached_prefix_len: 0,
            state: SequenceState::Swapped,
            ..self
        }
    }

    pub open spec fn finished(self, reason: FinishReason) -> SequenceView {
        SequenceView { state: SequenceState::Finished(reason), ..self }
    }

    pub open spec fn ttft(self) -> Option<Tick> {
        match self.first_token_at {
            Some(t) => Some(t.saturating_sub(self.arrived_at)),
            None => None,
        }
    }

    /// Time between the first and the last token over the number of gaps
    /// between tokens, where there are two tokens at least.
    pub open spec fn mean_itl(self) -> Option<Ratio> {
        if self.first_token_at is Some && self.last_token_at is Some && self.output_len() >= 2 {
            Some(
                Ratio {
                    part: self.last_token_at->0.saturating_sub(self.first_token_at->0) as u128,
                    whole: (self.output_len() - 1) as u128,
                },
            )
        } else {
            None
        }
    }

    pub open spec fn at_limit(self) -> bool {
        self.output_len() >= self.max_tokens
    }
}

impl Sequence {
    pub fn new(
        id: SequenceId,
        request: RequestId,
        tenant: String,
        class: ServiceClass,
        prompt: Vec<TokenId>,
        max_tokens: usize,
        arrived_at: Tick,
    ) -> (r: Self)
        ensures
            r@ == SequenceView::fresh(
                id,
                request,
                tenant@,
                class,
                prompt@,
                max_tokens as nat,
                arrived_at,
            ),
            r@.wf(),
    {
        let prompt_len: usize = prompt.len();
        Sequence {
            id,
            request,
            tenant,
            class,
            state: SequenceState::Waiting,
            tokens: prompt,
            prompt_len,
            computed: 0,
            cached_prefix_len: 0,
            arrived_at,
            first_token_at: None,
            last_token_at: None,
            max_tokens,
        }
    }

    pub fn tokens(&self) -> (r: &[TokenId])
        ensures
            r@ == self@.tokens,
    {
        self.tokens.as_slice()
    }

    pub fn prompt(&self) -> (r: &[TokenId])
        requires
            self@.wf(),
        ensures
            r@ == self@.prompt(),
    {
        let r = vstd::slice::slice_subrange(self.tokens.as_slice(), 0, self.prompt_len);
        assert(r@ =~= self@.prompt());
        r
    }

    pub fn output(&self) -> (r: &[TokenId])
        requires
            self@.wf(),
        ensures
            r@ == self@.output(),
    {
        let r = vstd::slice::slice_subrange(
            self.tokens.as_slice(),
            self.prompt_len,
            self.tokens.len(),
        );
        assert(r@ =~= self@.output());
        r
    }

    pub fn prompt_len(&self) -> (r: usize)
        ensures
            r == self@.prompt_len,
    {
        self.prompt_len
    }

    pub fn output_len(&self) -> (r: usize)
        requires
            self@.wf(),
        ensures
            r == self@.output_len(),
    {
        self.tokens.len() - self.prompt_len
    }

    pub fn total_len(&self) -> (r: usize)
        ensures
            r == self@.tokens.len(),
    {
        self.tokens.len()
    }

    pub fn computed_len(&self) -> (r: usize)
        ensures
            r == self@.computed,
    {
        self.computed
    }

    /// Tokens whose KV entries still have to be computed this step.
    pub fn uncomputed_len(&self) -> (r: usize)
        requires
            self@.wf(),
        ensures
            r == self@.tokens.len() - self@.computed,
    {
        self.tokens.len() - self.computed
    }

    /// Mark `n` further tokens as having KV entries on the device.
    pub fn advance_computed(&mut self, n: usize)
        requires
            old(self)@.wf(),
        ensures
            final(self)@ == old(self)@.advanced(n as nat),
            final(self)@.wf(),
    {
        let left: usize = self.tokens.len() - self.computed;
        if n <= left {
            self.computed = self.computed + n;
        } else {
            self.computed = self.tokens.len();
        }
    }

    /// Adopt `n` leading tokens whose KV blocks came from the prefix cache.
    ///
    /// May exceed the prompt: a preempted sequence recomputes its generated
    /// tokens too, and those may still be resident from before it was evicted.
    pub fn adopt_cached_prefix(&mut self, n: usize)
        requires
            old(self)@.wf(),
            n <= old(self)@.tokens.len(),
        ensures
            final(self)@ == old(self)@.with_cached_prefix(n as nat),
            final(self)@.wf(),
    {
        self.cached_prefix_len = n;
        if self.computed < n {
            self.computed = n;
        }
    }

    /// Append one generated token.
    pub fn push_token(&mut self, token: TokenId, now: Tick)
        requires
            old(self)@.wf(),
        ensures
            final(self)@ == old(self)@.pushed(token, now),
            final(self)@.wf(),
    {
        self.tokens.push(token);
        self.computed = self.tokens.len();
        if self.first_token_at.is_none() {
            self.first_token_at = Some(now);
        }
        self.last_token_at = Some(now);
    }

    /// Drop KV state but keep tokens, so the sequence can be recomputed later.
    pub fn swap_out(&mut self)
        requires
            old(self)@.wf(),
        ensures
            final(self)@ == old(self)@.swapped_out(),
            final(self)@.wf(),
    {
        self.computed = 0;
        self.cached_prefix_len = 0;
        self.state = SequenceState::Swapped;
    }

    pub fn set_state(&mut self, state: SequenceState)
        ensures
            final(self)@ == (SequenceView { state, ..old(self)@ }),
    {
        self.state = state;
    }

    pub fn finish(&mut self, reason: FinishReason)
        ensures
            final(self)@ == old(self)@.finished(reason),
    {
        self.state = SequenceState::Finished(reason);
    }

    /// Time-to-first-token, once the first token has been emitted.
    pub fn ttft_us(&self) -> (r: Option<Tick>)
        ensures
            r == self@.ttft(),
    {
        match self.first_token_at {
            Some(t) => Some(t.saturating_sub(self.arrived_at)),
            None => None,
        }
    }

    /// Mean inter-token latency across the generated tokens.
    pub fn mean_itl_us(&self) -> (r: Option<Ratio>)
        requires
            self@.wf(),
        ensures
            r == self@.mean_itl(),
    {
        match (self.first_token_at, self.last_token_at) {
            (Some(first), Some(last)) => {
                let output_len: usize = self.output_len();
                if output_len < 2 {
                    return None;
                }
                Some(
                    Ratio {
                        part: last.saturating_sub(first) as u128,
                        whole: (output_len - 1) as u128,
                    },
                )
            },
            _ => None,
        }
    }

    pub fn is_at_limit(&self) -> (r: bool)
        requires
            self@.wf(),
        ensures
            r == self@.at_limit(),
    {
        self.output_len() >= self.max_tokens
    }
}

/// Swapping out keeps every token, so nothing that was generated is lost.
pub proof fn law_swapping_out_keeps_the_tokens(s: SequenceView)
    requires
        s.wf(),
    ensures
        s.swapped_out().wf(),
        s.swapped_out().tokens == s.tokens,
        s.swapped_out().prompt() == s.prompt(),
        s.swapped_out().output() == s.output(),
        s.swapped_out().computed == 0,
{
}

/// A generated token goes to the end of the output and leaves the prompt alone.
pub proof fn law_a_token_extends_the_output(s: SequenceView, token: TokenId, now: Tick)
    requires
        s.wf(),
        s.tokens.len() < usize::MAX,
    ensures
        s.pushed(token, now).wf(),
        s.pushed(token, now).prompt() == s.prompt(),
        s.pushed(token, now).output() == s.output().push(token),
{
    assert(s.pushed(token, now).prompt() =~= s.prompt());
    assert(s.pushed(token, now).output() =~= s.output().push(token));
}

/// A new sequence is its prompt: nothing is computed, cached or said, and it waits.
pub proof fn law_a_new_sequence_is_its_prompt(
    id: SequenceId,
    request: RequestId,
    tenant: Seq<char>,
    class: ServiceClass,
    prompt: Seq<TokenId>,
    max_tokens: nat,
    arrived_at: Tick,
)
    ensures
        ({
            let s = SequenceView::fresh(
                id,
                request,
                tenant,
                class,
                prompt,
                max_tokens,
                arrived_at,
            );
            &&& s.tokens == prompt
            &&& s.prompt() == prompt
            &&& s.output().len() == 0
            &&& s.computed == 0
            &&& s.cached_prefix_len == 0
            &&& s.state is Waiting
            &&& s.ttft() is None
            &&& s.mean_itl() is None
            &&& s.max_tokens == max_tokens
            &&& s.arrived_at == arrived_at
            &&& s.id == id && s.request == request && s.tenant == tenant && s.class == class
        }),
{
    assert(prompt.take(prompt.len() as int) =~= prompt);
}

/// The tokens of a sequence are its prompt and its output, one after the other.
pub proof fn law_prompt_and_output_are_the_tokens(s: SequenceView)
    requires
        s.wf(),
    ensures
        s.prompt() + s.output() == s.tokens,
        s.prompt().len() == s.prompt_len,
        s.output().len() == s.output_len(),
        s.at_limit() <==> s.output().len() >= s.max_tokens,
{
    assert(s.prompt() + s.output() =~= s.tokens);
}

/// The time to the first token runs from the arrival, and the time between tokens
/// from the first to the last, shared among the gaps between them: one fewer than
/// there are tokens. With fewer than two tokens there is no gap.
pub proof fn law_latencies_are_measured_between_tokens(s: SequenceView)
    requires
        s.wf(),
    ensures
        s.ttft() is Some <==> s.first_token_at is Some,
        s.ttft() is Some && s.first_token_at->0 >= s.arrived_at ==> s.ttft()->0
            == s.first_token_at->0 - s.arrived_at,
        s.ttft() is Some && s.first_token_at->0 < s.arrived_at ==> s.ttft()->0 == 0,
        s.mean_itl() is Some <==> s.first_token_at is Some && s.last_token_at is Some
            && s.tokens.len() - s.prompt_len >= 2,
        s.mean_itl() is Some && s.last_token_at->0 < s.first_token_at->0 ==> s.mean_itl()->0.part
            == 0,
        s.mean_itl() is Some && s.last_token_at->0 >= s.first_token_at->0 ==> {
            &&& s.mean_itl()->0.part == s.last_token_at->0 - s.first_token_at->0
            &&& s.mean_itl()->0.whole == s.tokens.len() - s.prompt_len - 1
        },
{
}

/// What is computed only grows, up to the tokens there are: by as many as were run,
/// or to what the cache already has. A token that was generated is computed.
pub proof fn law_what_is_computed_grows(s: SequenceView, n: nat, token: TokenId, now: Tick)
    requires
        s.wf(),
        n <= usize::MAX,
    ensures
        s.computed + n <= s.tokens.len() ==> s.advanced(n).computed == s.computed + n,
        s.computed + n > s.tokens.len() ==> s.advanced(n).computed == s.tokens.len(),
        s.with_cached_prefix(n).cached_prefix_len == n,
        s.computed >= n ==> s.with_cached_prefix(n).computed == s.computed,
        s.computed < n ==> s.with_cached_prefix(n).computed == n,
        s.advanced(n).tokens == s.tokens,
        s.with_cached_prefix(n).tokens == s.tokens,
        s.pushed(token, now).computed == s.pushed(token, now).tokens.len(),
        s.pushed(token, now).last_token_at == Some(now),
        s.first_token_at is Some ==> s.pushed(token, now).first_token_at == s.first_token_at,
        s.first_token_at is None ==> s.pushed(token, now).first_token_at == Some(now),
{
}

/// A sequence that has ended, or whose state was dropped, is otherwise as it was.
pub proof fn law_ending_and_swapping_change_only_the_state(s: SequenceView, reason: FinishReason)
    ensures
        s.finished(reason).state == SequenceState::Finished(reason),
        s.finished(reason) == (SequenceView { state: s.finished(reason).state, ..s }),
        s.swapped_out().state is Swapped,
        s.swapped_out().cached_prefix_len == 0,
        s.swapped_out().first_token_at == s.first_token_at,
        s.swapped_out().last_token_at == s.last_token_at,
        s.swapped_out().arrived_at == s.arrived_at,
        s.swapped_out().max_tokens == s.max_tokens,
{
}

} // verus!
