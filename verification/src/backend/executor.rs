//! The interface between the scheduler and model execution.
//!
//! The scheduler decides *what* runs; an [`Executor`] runs it. Keeping that
//! boundary narrow is what lets the same scheduling and memory code drive a
//! real GPU backend, a remote worker, or an analytic simulator.
use vstd::prelude::*;

use super::sampler::{scrambled, seeded, xorshift, Rng};
use crate::ids::SequenceId;
use crate::kvcache::hash::{lemma_prime_undone, FNV_OFFSET, FNV_PRIME};
use crate::kvcache::BlockId;
use crate::model::ModelConfig;
use crate::number::F32;
use crate::TokenId;

verus! {

/// One sequence's contribution to a forward pass.
#[derive(Debug, Clone, Copy)]
pub struct SequenceWork<'a> {
    pub seq: SequenceId,
    /// Tokens whose KV entries this pass computes. One token for a decode
    /// step; a chunk of the prompt during prefill.
    pub tokens: &'a [TokenId],
    /// Position of the first of those tokens in the sequence.
    pub position: usize,
    /// Physical blocks backing this sequence's KV cache, in logical order.
    pub blocks: &'a [BlockId],
    /// Whether this pass reaches the sequence's final token and therefore has
    /// to produce logits. False for every prefill chunk but the last.
    pub needs_logits: bool,
}

/// Everything one forward pass executes.
#[derive(Debug)]
pub struct ForwardPass<'a> {
    pub work: Vec<SequenceWork<'a>>,
}

/// The tokens of the first `n` pieces of work taken together, counting those of
/// more than one token only where `prefill` says so.
pub open spec fn work_tokens(work: Seq<SequenceWork<'_>>, n: nat, prefill: bool) -> nat
    decreases n,
{
    if n == 0 {
        0
    } else {
        let here = work[n - 1].tokens@.len();
        work_tokens(work, (n - 1) as nat, prefill) + if prefill && here <= 1 {
            0
        } else {
            here
        }
    }
}

/// The positions of the first `n` pieces of work that need logits.
pub open spec fn logit_slots(work: Seq<SequenceWork<'_>>, n: nat) -> Seq<usize>
    decreases n,
{
    if n == 0 {
        Seq::empty()
    } else if work[n - 1].needs_logits {
        logit_slots(work, (n - 1) as nat).push((n - 1) as usize)
    } else {
        logit_slots(work, (n - 1) as nat)
    }
}

proof fn lemma_work_tokens_grow(work: Seq<SequenceWork<'_>>, n: nat, m: nat, prefill: bool)
    requires
        n <= m,
    ensures
        work_tokens(work, n, prefill) <= work_tokens(work, m, prefill),
    decreases m - n,
{
    if n < m {
        lemma_work_tokens_grow(work, n + 1, m, prefill);
    }
}

impl<'a> ForwardPass<'a> {
    fn count_tokens(&self, prefill: bool) -> (r: usize)
        requires
            work_tokens(self.work@, self.work@.len(), prefill) <= usize::MAX,
        ensures
            r == work_tokens(self.work@, self.work@.len(), prefill),
    {
        let mut total: usize = 0;
        let mut i: usize = 0;
        while i < self.work.len()
            invariant
                i <= self.work@.len(),
                total == work_tokens(self.work@, i as nat, prefill),
                work_tokens(self.work@, self.work@.len(), prefill) <= usize::MAX,
            decreases self.work.len() - i,
        {
            proof {
                lemma_work_tokens_grow(
                    self.work@,
                    (i + 1) as nat,
                    self.work@.len(),
                    prefill,
                );
            }
            let here: usize = self.work[i].tokens.len();
            if !(prefill && here <= 1) {
                total = total + here;
            }
            i = i + 1;
        }
        total
    }

    pub fn num_tokens(&self) -> (r: usize)
        requires
            work_tokens(self.work@, self.work@.len(), false) <= usize::MAX,
        ensures
            r == work_tokens(self.work@, self.work@.len(), false),
    {
        self.count_tokens(false)
    }

    pub fn num_sequences(&self) -> (r: usize)
        ensures
            r == self.work@.len(),
    {
        self.work.len()
    }

    /// Tokens belonging to prefill chunks rather than single-token decodes.
    pub fn num_prefill_tokens(&self) -> (r: usize)
        requires
            work_tokens(self.work@, self.work@.len(), true) <= usize::MAX,
        ensures
            r == work_tokens(self.work@, self.work@.len(), true),
    {
        self.count_tokens(true)
    }

    /// The positions in the pass of the work that needs logits.
    pub fn logit_positions(&self) -> (r: Vec<usize>)
        ensures
            r@ == logit_slots(self.work@, self.work@.len()),
    {
        let mut slots: Vec<usize> = Vec::new();
        for i in 0..self.work.len()
            invariant
                slots@ == logit_slots(self.work@, i as nat),
        {
            if self.work[i].needs_logits {
                slots.push(i);
            }
        }
        slots
    }
}

/// Logits for one sequence's next token.
#[derive(Debug, Clone)]
pub struct SequenceLogits {
    pub seq: SequenceId,
    pub logits: Vec<F32>,
}

/// What a completed pass cost.
#[derive(Debug, Clone, Copy, PartialEq, Eq, Structural)]
pub struct PassCost {
    /// Microseconds the pass took, or is modelled to have taken.
    pub duration_us: u64,
    /// True when the figure is a model rather than a measurement.
    pub estimated: bool,
}

#[derive(Debug)]
pub struct PassResult {
    pub logits: Vec<SequenceLogits>,
    pub cost: PassCost,
}

pub trait Executor: Send {
    fn model(&self) -> &ModelConfig;

    /// Size of the distribution this executor produces.
    ///
    /// May be smaller than the model's vocabulary when the executor is a
    /// stand-in; the sampler and tokenizer follow this number, not the config.
    fn vocab_size(&self) -> usize;

    fn forward(&mut self, pass: &ForwardPass) -> PassResult;
}

/// The digest of a context of `tokens` without its position.
pub open spec fn token_digest(tokens: Seq<TokenId>) -> u64
    decreases tokens.len(),
{
    if tokens.len() == 0 {
        FNV_OFFSET
    } else {
        (token_digest(tokens.drop_last()) ^ (tokens.last() as u64)).wrapping_mul(FNV_PRIME)
    }
}

/// The seed that stands for a context: its tokens and where they stand.
pub open spec fn context_seed_spec(tokens: Seq<TokenId>, position: usize) -> u64 {
    token_digest(tokens) ^ (position as u64).wrapping_mul(0x9E37_79B9_7F4A_7C15)
}

/// The seed that stands for a context: its tokens and where they stand.
pub fn context_seed(tokens: &[TokenId], position: usize) -> (r: u64)
    ensures
        r == context_seed_spec(tokens@, position),
{
    let mut h: u64 = FNV_OFFSET;
    for i in 0..tokens.len()
        invariant
            h == token_digest(tokens@.take(i as int)),
    {
        assert(tokens@.take(i + 1).drop_last() =~= tokens@.take(i as int));
        h = (h ^ (tokens[i] as u64)).wrapping_mul(FNV_PRIME);
    }
    assert(tokens@.take(tokens@.len() as int) =~= tokens@);
    h ^ (position as u64).wrapping_mul(0x9E37_79B9_7F4A_7C15)
}

/// A generator's state after `n` draws.
pub open spec fn after_draws(state: u64, n: nat) -> u64
    decreases n,
{
    if n == 0 {
        state
    } else {
        xorshift(after_draws(state, (n - 1) as nat))
    }
}

/// The `i`th byte of a small legible alphabet: the letters, then the space.
pub open spec fn legible(i: int) -> int {
    if i < 26 {
        97 + i
    } else {
        32
    }
}

/// The slots of the first `n` letters that a vocabulary has.
pub open spec fn legible_slots(n: nat, vocab: nat) -> Seq<usize>
    decreases n,
{
    if n == 0 {
        Seq::empty()
    } else if legible(n - 1) < vocab {
        legible_slots((n - 1) as nat, vocab).push(legible(n - 1) as usize)
    } else {
        legible_slots((n - 1) as nat, vocab)
    }
}

/// One draw for each legible slot of a vocabulary, in order, from a generator
/// seeded with the context: what a stand-in for a model biases its logits by. It
/// carries no linguistic meaning.
pub fn legible_draws(tokens: &[TokenId], position: usize, vocab: usize) -> (r: Vec<(usize, F32)>)
    ensures
        r@.len() == legible_slots(27, vocab as nat).len(),
        forall|i: int|
            0 <= i < r@.len() ==> (#[trigger] r@[i]).0 == legible_slots(27, vocab as nat)[i]
                && r@[i].1.is_24th(
                (scrambled(
                    after_draws(seeded(context_seed_spec(tokens@, position)), i as nat),
                ) >> 40) as nat,
            ),
{
    let ghost start = seeded(context_seed_spec(tokens@, position));
    let mut rng = Rng::seed(context_seed(tokens, position));
    let mut out: Vec<(usize, F32)> = Vec::new();
    let mut i: usize = 0;
    while i < 27
        invariant
            i <= 27,
            out@.len() == legible_slots(i as nat, vocab as nat).len(),
            rng@ == after_draws(start, out@.len()),
            forall|k: int|
                0 <= k < out@.len() ==> (#[trigger] out@[k]).0 == legible_slots(
                    i as nat,
                    vocab as nat,
                )[k] && out@[k].1.is_24th(
                    (scrambled(after_draws(start, k as nat)) >> 40) as nat,
                ),
        decreases 27 - i,
    {
        let slot: usize = if i < 26 {
            97 + i
        } else {
            32
        };
        if slot < vocab {
            let draw: F32 = rng.next_f32();
            out.push((slot, draw));
        }
        i = i + 1;
    }
    out
}

/// Another last token is another context, with another seed.
pub proof fn law_another_last_token_is_another_context(
    context: Seq<TokenId>,
    one: TokenId,
    other: TokenId,
    position: usize,
)
    requires
        one != other,
    ensures
        context_seed_spec(context.push(one), position) != context_seed_spec(
            context.push(other),
            position,
        ),
{
    assert(context.push(one).drop_last() =~= context);
    assert(context.push(other).drop_last() =~= context);
    let h = token_digest(context);
    let (a, b) = (one as u64, other as u64);
    assert(h ^ a != h ^ b) by (bit_vector)
        requires
            a != b,
    ;
    lemma_prime_undone(h ^ a);
    lemma_prime_undone(h ^ b);
    let (x, y) = (token_digest(context.push(one)), token_digest(context.push(other)));
    let p = (position as u64).wrapping_mul(0x9E37_79B9_7F4A_7C15);
    assert(x ^ p != y ^ p) by (bit_vector)
        requires
            x != y,
    ;
}

/// How many of the first `n` pieces of work are a single token.
pub open spec fn single_works(work: Seq<SequenceWork<'_>>, n: nat) -> nat
    decreases n,
{
    if n == 0 {
        0
    } else {
        single_works(work, (n - 1) as nat) + if work[n - 1].tokens@.len() == 1 {
            1nat
        } else {
            0nat
        }
    }
}

proof fn lemma_tokens_are_prefill_or_single(work: Seq<SequenceWork<'_>>, n: nat)
    ensures
        work_tokens(work, n, false) == work_tokens(work, n, true) + single_works(work, n),
    decreases n,
{
    if n > 0 {
        lemma_tokens_are_prefill_or_single(work, (n - 1) as nat);
    }
}

/// Every token of a pass belongs to a prefill chunk or is a decode of its own: all
/// tokens less those of prefill chunks are as many as there is work of a single
/// token.
pub proof fn law_a_token_is_prefilled_or_decoded(pass: ForwardPass<'_>)
    ensures
        work_tokens(pass.work@, pass.work@.len(), false) - work_tokens(
            pass.work@,
            pass.work@.len(),
            true,
        ) == single_works(pass.work@, pass.work@.len()),
{
    lemma_tokens_are_prefill_or_single(pass.work@, pass.work@.len());
}

/// The tokens of a pass are those of its pieces together, and those of its prefill
/// chunks are those of the pieces with more than one.
pub proof fn law_tokens_add_up(work: Seq<SequenceWork<'_>>, n: nat)
    ensures
        work_tokens(work, 0, false) == 0,
        work_tokens(work, 0, true) == 0,
        work_tokens(work, n + 1, false) == work_tokens(work, n, false) + work[n as int].tokens@.len(),
        work[n as int].tokens@.len() > 1 ==> work_tokens(work, n + 1, true) == work_tokens(
            work,
            n,
            true,
        ) + work[n as int].tokens@.len(),
        work[n as int].tokens@.len() <= 1 ==> work_tokens(work, n + 1, true) == work_tokens(
            work,
            n,
            true,
        ),
{
}

/// The positions with logits are those of the pieces that need them, each once and
/// in order.
pub proof fn law_logits_come_in_the_order_of_the_work(
    work: Seq<SequenceWork<'_>>,
    n: nat,
    i: usize,
)
    requires
        n <= work.len() <= usize::MAX,
    ensures
        logit_slots(work, n).contains(i) <==> i < n && work[i as int].needs_logits,
        forall|k: int, l: int|
            0 <= k < l < logit_slots(work, n).len() ==> (#[trigger] logit_slots(work, n)[k]) < (
            #[trigger] logit_slots(work, n)[l]),
        forall|k: int|
            0 <= k < logit_slots(work, n).len() ==> (#[trigger] logit_slots(work, n)[k]) < n,
    decreases n,
{
    if n > 0 {
        let m = (n - 1) as nat;
        law_logits_come_in_the_order_of_the_work(work, m, i);
        let fewer = logit_slots(work, m);
        let all = logit_slots(work, n);
        if work[n - 1].needs_logits {
            assert(all == fewer.push(m as usize));
            assert(all[fewer.len() as int] == m);
            if fewer.contains(i) {
                assert(all[fewer.index_of(i)] == i);
            }
            if all.contains(i) && i != m {
                assert(fewer[all.index_of(i)] == i);
            }
        }
    } else {
        assert(!logit_slots(work, n).contains(i));
    }
}

/// The seed of a context folds its tokens one by one, each by an exclusive or and a
/// multiplication by `2^40 + 2^8 + 0xb3`, modulo `2^64`; then the position, times
/// the golden gamma, is folded in.
pub proof fn law_a_context_is_folded_token_by_token(
    tokens: Seq<TokenId>,
    token: TokenId,
    position: usize,
    spread: u64,
)
    requires
        spread == (position * 0x9E37_79B9_7F4A_7C15) % 0x1_0000_0000_0000_0000,
    ensures
        token_digest(Seq::empty()) == 0xcbf2_9ce4_8422_2325,
        token_digest(tokens.push(token)) == ((token_digest(tokens) ^ (token as u64)) as int * (
        0x100_0000_0000 + 0x100 + 0xb3)) % 0x1_0000_0000_0000_0000,
        context_seed_spec(tokens, position) == token_digest(tokens) ^ spread,
{
    assert(tokens.push(token).drop_last() =~= tokens);
    assert((position as u64).wrapping_mul(0x9E37_79B9_7F4A_7C15) == spread);
}

proof fn lemma_legible_slots(n: nat, vocab: nat, slot: usize)
    requires
        n <= 27,
    ensures
        legible_slots(n, vocab).contains(slot) <==> slot < vocab && exists|i: int|
            0 <= i < n && #[trigger] legible(i) == slot,
    decreases n,
{
    if n > 0 {
        let m = (n - 1) as nat;
        lemma_legible_slots(m, vocab, slot);
        let fewer = legible_slots(m, vocab);
        let all = legible_slots(n, vocab);
        if legible(n - 1) < vocab {
            assert(all[fewer.len() as int] == legible(n - 1));
            if fewer.contains(slot) {
                assert(all[fewer.index_of(slot)] == slot);
            }
            if all.contains(slot) && slot != legible(n - 1) {
                assert(fewer[all.index_of(slot)] == slot);
            }
        }
        if slot < vocab && exists|i: int| 0 <= i < n && #[trigger] legible(i) == slot {
            let i = choose|i: int| 0 <= i < n && #[trigger] legible(i) == slot;
            if i < m {
                assert(legible(i) == slot);
            }
        }
    } else {
        assert(!legible_slots(n, vocab).contains(slot));
    }
}

/// The legible slots are those of the small letters and of the space, as far as the
/// vocabulary has them.
pub proof fn law_letters_and_space_are_legible(vocab: nat, slot: usize)
    ensures
        legible_slots(27, vocab).contains(slot) <==> slot < vocab && (97 <= slot < 123 || slot
            == 32),
{
    lemma_legible_slots(27, vocab, slot);
    if 97 <= slot < 123 {
        assert(legible(slot - 97) == slot);
    }
    if slot == 32 {
        assert(legible(26) == slot);
    }
}

proof fn lemma_slots_in_order(n: nat, vocab: nat)
    requires
        n <= 27,
        vocab > 122,
    ensures
        legible_slots(n, vocab).len() == n,
        forall|i: int| 0 <= i < n ==> #[trigger] legible_slots(n, vocab)[i] == legible(i),
    decreases n,
{
    if n > 0 {
        let m = (n - 1) as nat;
        lemma_slots_in_order(m, vocab);
        let fewer = legible_slots(m, vocab);
        let all = legible_slots(n, vocab);
        assert(all == fewer.push(legible(n - 1) as usize));
        assert forall|i: int| 0 <= i < n implies #[trigger] all[i] == legible(i) by {
            if i < m {
                assert(all[i] == fewer[i]);
            }
        }
    }
}

/// A vocabulary with all the letters has them in order, and the space last; and each
/// is drawn for after the one before it, by one more step of the generator.
pub proof fn law_letters_come_in_order(vocab: nat, state: u64, n: nat)
    requires
        vocab > 122,
    ensures
        legible_slots(27, vocab).len() == 27,
        forall|i: int| 0 <= i < 26 ==> #[trigger] legible_slots(27, vocab)[i] == 97 + i,
        legible_slots(27, vocab)[26] == 32,
        after_draws(state, 0) == state,
        after_draws(state, n + 1) == xorshift(after_draws(state, n)),
{
    lemma_slots_in_order(27, vocab);
}

} // verus!
