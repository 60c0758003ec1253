//! Token sampling: temperature, top-k and nucleus filtering over logits.
//!
//! Sampling is separated from execution so it can be tested against synthetic
//! logits, where the correct answer is known exactly. A sampler validated only
//! through a real model is validated against nothing in particular.
//!
//! Every draw comes from an explicitly seeded generator. A request that does
//! not supply a seed is given one and told what it was, so any generation can
//! be reproduced from its response alone.
//!
//! Every choice is made here: which logit is masked, which token is the peak,
//! how candidates rank, how many of them stay, what is drawn and which token
//! the draw falls on. The floating point arithmetic between two choices is the
//! caller's, who hands its results in.
use vstd::prelude::*;

use crate::number::F32;
use crate::sampling::{SamplingParams, SamplingView};
use crate::TokenId;

verus! {

/// Small deterministic generator.
///
/// xorshift64* seeded through splitmix64, so a caller passing `seed: 0` or a
/// run of sequential seeds still gets well-separated streams.
#[derive(Debug, Clone)]
pub struct Rng {
    state: u64,
}

/// One splitmix64 round.
pub open spec fn splitmix(seed: u64) -> u64 {
    let z = seed.wrapping_add(0x9E37_79B9_7F4A_7C15);
    let y = (z ^ (z >> 30)).wrapping_mul(0xBF58_476D_1CE4_E5B9);
    let x = (y ^ (y >> 27)).wrapping_mul(0x94D0_49BB_1331_11EB);
    x ^ (x >> 31)
}

/// The state that a seed gives. Zero would be stuck, so it becomes one.
pub open spec fn seeded(seed: u64) -> u64 {
    if splitmix(seed) == 0 {
        1
    } else {
        splitmix(seed)
    }
}

/// One xorshift round.
pub open spec fn xorshift(state: u64) -> u64 {
    let a = state ^ (state >> 12);
    let b = a ^ (a << 25);
    b ^ (b >> 27)
}

/// The number that a state, once stepped, gives.
pub open spec fn scrambled(state: u64) -> u64 {
    xorshift(state).wrapping_mul(0x2545_F491_4F6C_DD1D)
}

impl View for Rng {
    type V = u64;

    closed spec fn view(&self) -> u64 {
        self.state
    }
}

impl Rng {
    pub fn seed(seed: u64) -> (r: Self)
        ensures
            r@ == seeded(seed),
            r@ != 0,
    {
        let z: u64 = seed.wrapping_add(0x9E37_79B9_7F4A_7C15);
        let y: u64 = (z ^ (z >> 30)).wrapping_mul(0xBF58_476D_1CE4_E5B9);
        let x: u64 = (y ^ (y >> 27)).wrapping_mul(0x94D0_49BB_1331_11EB);
        let state: u64 = x ^ (x >> 31);
        Rng {
            state: if state == 0 {
                1
            } else {
                state
            },
        }
    }

    pub fn next_u64(&mut self) -> (r: u64)
        ensures
            r == scrambled(old(self)@),
            final(self)@ == xorshift(old(self)@),
    {
        let s: u64 = self.state;
        let a: u64 = s ^ (s >> 12);
        let b: u64 = a ^ (a << 25);
        let c: u64 = b ^ (b >> 27);
        self.state = c;
        c.wrapping_mul(0x2545_F491_4F6C_DD1D)
    }

    /// Uniform in `[0, 1)`: the top 24 bits, which give exactly the mantissa
    /// precision of a single precision number, over `2^24`.
    pub fn next_f32(&mut self) -> (r: F32)
        ensures
            r.is_24th((scrambled(old(self)@) >> 40) as nat),
            !r.is_nan(),
            0 <= r.rank() < F32::one_spec().rank(),
            final(self)@ == xorshift(old(self)@),
    {
        let x: u64 = self.next_u64();
        assert(x >> 40 < 0x100_0000) by (bit_vector);
        F32::of_24ths((x >> 40) as u32)
    }
}

/// A generator never gets stuck: a state that is not zero steps to another.
pub proof fn law_a_generator_never_reaches_zero(state: u64)
    requires
        state != 0,
    ensures
        xorshift(state) != 0,
{
    let a = state ^ (state >> 12);
    let b = a ^ (a << 25);
    assert(a != 0) by (bit_vector)
        requires
            state != 0,
            a == state ^ (state >> 12),
    ;
    assert(b != 0) by (bit_vector)
        requires
            a != 0,
            b == a ^ (a << 25),
    ;
    assert(b ^ (b >> 27) != 0) by (bit_vector)
        requires
            b != 0,
    ;
}

/// The first position of the first `n` that no later one of them exceeds.
pub open spec fn peak(logits: Seq<F32>, n: nat) -> nat
    decreases n,
{
    if n <= 1 {
        0
    } else {
        let best = peak(logits, (n - 1) as nat);
        if logits[best as int].below(logits[n - 1]) {
            (n - 1) as nat
        } else {
            best
        }
    }
}

/// The position of the largest logit, the first of several.
pub fn argmax(logits: &[F32]) -> (r: TokenId)
    requires
        logits@.len() > 0,
    ensures
        r == (peak(logits@, logits@.len()) as TokenId),
{
    let mut best: usize = 0;
    let mut i: usize = 1;
    while i < logits.len()
        invariant
            1 <= i <= logits@.len(),
            best == peak(logits@, i as nat),
            best < i,
        decreases logits.len() - i,
    {
        if logits[best].is_below(logits[i]) {
            best = i;
        }
        i = i + 1;
    }
    #[verifier::truncate] (best as TokenId)
}

/// Where every logit is a number, the peak is the first of the largest.
pub proof fn law_the_peak_is_the_first_maximum(logits: Seq<F32>, n: nat)
    requires
        0 < n <= logits.len(),
        forall|i: int| 0 <= i < n ==> !(#[trigger] logits[i]).is_nan(),
    ensures
        peak(logits, n) < n,
        forall|i: int|
            0 <= i < n ==> (#[trigger] logits[i]).rank() <= logits[peak(logits, n) as int].rank(),
        forall|i: int|
            0 <= i < peak(logits, n) ==> (#[trigger] logits[i]).rank()
                < logits[peak(logits, n) as int].rank(),
    decreases n,
{
    if n > 1 {
        law_the_peak_is_the_first_maximum(logits, (n - 1) as nat);
    }
}

/// Whether candidate `a` ranks before candidate `b`: the more likely first, and
/// of two equally likely ones the lower id.
pub open spec fn ranks_before(probs: Seq<F32>, a: u32, b: u32) -> bool {
    let (x, y) = (probs[a as int].rank(), probs[b as int].rank());
    x > y || (x == y && a < b)
}

/// Candidates stand in the order of their ranks.
pub open spec fn ranked(probs: Seq<F32>, order: Seq<u32>) -> bool {
    forall|i: int, j: int|
        0 <= i < j < order.len() ==> ranks_before(probs, #[trigger] order[i], #[trigger] order[j])
}

/// `order` holds the candidates from `lo` up to `hi`, by rank.
pub open spec fn ranks(probs: Seq<F32>, order: Seq<u32>, lo: int, hi: int) -> bool {
    &&& order.len() == hi - lo
    &&& ranked(probs, order)
    &&& forall|i: int| 0 <= i < order.len() ==> lo <= #[trigger] order[i] < hi
    &&& forall|x: u32| lo <= x < hi ==> #[trigger] order.contains(x)
}

fn goes_before(probs: &[F32], a: u32, b: u32) -> (r: bool)
    requires
        a < probs@.len(),
        b < probs@.len(),
    ensures
        r == ranks_before(probs@, a, b),
{
    let x: i64 = probs[a as usize].signed_rank();
    let y: i64 = probs[b as usize].signed_rank();
    x > y || (x == y && a < b)
}

fn merge(probs: &[F32], left: &Vec<u32>, right: &Vec<u32>, Ghost(lo): Ghost<int>, Ghost(
    mid,
): Ghost<int>, Ghost(hi): Ghost<int>) -> (r: Vec<u32>)
    requires
        0 <= lo <= mid <= hi <= probs@.len(),
        probs@.len() <= u32::MAX,
        ranks(probs@, left@, lo, mid),
        ranks(probs@, right@, mid, hi),
    ensures
        ranks(probs@, r@, lo, hi),
{
    let mut out: Vec<u32> = Vec::with_capacity(left.len());
    let mut i: usize = 0;
    let mut j: usize = 0;
    while i < left.len() || j < right.len()
        invariant
            0 <= lo <= mid <= hi <= probs@.len(),
            probs@.len() <= u32::MAX,
            ranks(probs@, left@, lo, mid),
            ranks(probs@, right@, mid, hi),
            i <= left@.len(),
            j <= right@.len(),
            out@.len() == i + j,
            ranked(probs@, out@),
            forall|k: int| 0 <= k < out@.len() ==> lo <= #[trigger] out@[k] < hi,
            forall|k: int, l: int|
                0 <= k < out@.len() && i <= l < left@.len() ==> ranks_before(
                    probs@,
                    #[trigger] out@[k],
                    #[trigger] left@[l],
                ),
            forall|k: int, l: int|
                0 <= k < out@.len() && j <= l < right@.len() ==> ranks_before(
                    probs@,
                    #[trigger] out@[k],
                    #[trigger] right@[l],
                ),
            forall|k: int| 0 <= k < i ==> out@.contains(#[trigger] left@[k]),
            forall|k: int| 0 <= k < j ==> out@.contains(#[trigger] right@[k]),
        decreases left.len() - i + (right.len() - j),
    {
        let ghost before = out@;
        let from_left: bool = if i == left.len() {
            false
        } else if j == right.len() {
            true
        } else {
            goes_before(probs, left[i], right[j])
        };
        let next: u32 = if from_left {
            left[i]
        } else {
            right[j]
        };
        out.push(next);
        proof {
            assert(out@[before.len() as int] == next);
            assert forall|x: u32| before.contains(x) implies out@.contains(x) by {
                let k = before.index_of(x);
                assert(out@[k] == x);
            }
        }
        if from_left {
            i = i + 1;
        } else {
            j = j + 1;
        }
    }
    proof {
        assert forall|x: u32| lo <= x < hi implies #[trigger] out@.contains(x) by {
            if x < mid {
                assert(left@.contains(x));
                let k = left@.index_of(x);
                assert(left@[k] == x);
            } else {
                assert(right@.contains(x));
                let k = right@.index_of(x);
                assert(right@[k] == x);
            }
        }
    }
    out
}

fn rank_range(probs: &[F32], lo: usize, hi: usize) -> (r: Vec<u32>)
    requires
        lo < hi <= probs@.len(),
        probs@.len() <= u32::MAX,
    ensures
        ranks(probs@, r@, lo as int, hi as int),
    decreases hi - lo,
{
    if hi - lo == 1 {
        let mut out: Vec<u32> = Vec::with_capacity(1);
        out.push(lo as u32);
        assert(out@[0] == lo as u32);
        return out;
    }
    let mid: usize = lo + (hi - lo) / 2;
    let left = rank_range(probs, lo, mid);
    let right = rank_range(probs, mid, hi);
    merge(probs, &left, &right, Ghost(lo as int), Ghost(mid as int), Ghost(hi as int))
}

/// The candidates, most likely first.
pub fn rank(probs: &[F32]) -> (r: Vec<u32>)
    requires
        0 < probs@.len() <= u32::MAX,
    ensures
        ranks(probs@, r@, 0, probs@.len() as int),
{
    rank_range(probs, 0, probs.len())
}

/// How many of the ranked candidates it takes until their probabilities,
/// summed up one by one in `cumulative`, reach `top_p`; all where they do not.
pub open spec fn nucleus(cumulative: Seq<F32>, top_p: F32, n: nat) -> nat
    decreases cumulative.len() - n,
{
    if n >= cumulative.len() {
        cumulative.len()
    } else if top_p.at_most(cumulative[n as int]) {
        n + 1
    } else {
        nucleus(cumulative, top_p, n + 1)
    }
}

/// The first of the first `keep` candidates at which what is `left` of the draw
/// is used up; the last of them where none is.
pub open spec fn landing(left: Seq<F32>, keep: nat, n: nat) -> nat
    decreases keep - n,
{
    if n + 1 >= keep {
        n
    } else if left[n as int].at_most(F32::zero_spec()) {
        n
    } else {
        landing(left, keep, n + 1)
    }
}

/// A share of zero, or one that is not a finite number, cannot be drawn from.
pub open spec fn degenerate(total: F32) -> bool {
    total.at_most(F32::zero_spec()) || total.magnitude() >= 0x7f80_0000
}

/// Whether there is nothing to draw from, so that the likeliest candidate wins.
pub fn is_degenerate(total: F32) -> (r: bool)
    ensures
        r == degenerate(total),
{
    let rank: i64 = total.signed_rank();
    total.is_at_most(F32::zero()) || rank >= 0x7f80_0000 || rank <= -0x7f80_0000
}

/// The candidate that a draw falls on. `left[i]` is what is left of the draw
/// once the probabilities of the first `i + 1` candidates are taken off it.
pub fn land(order: &[u32], keep: usize, left: &[F32]) -> (r: TokenId)
    requires
        0 < keep <= order@.len(),
        keep <= left@.len(),
    ensures
        r == order@[landing(left@, keep as nat, 0) as int],
{
    let mut i: usize = 0;
    while i + 1 < keep
        invariant_except_break
            landing(left@, keep as nat, 0) == landing(left@, keep as nat, i as nat),
        invariant
            i < keep <= order@.len(),
            keep <= left@.len(),
        ensures
            i == landing(left@, keep as nat, 0),
        decreases keep - i,
    {
        if left[i].is_at_most(F32::zero()) {
            break ;
        }
        i = i + 1;
    }
    order[i]
}

/// Applies sampling parameters to a logits vector and draws one token.
#[derive(Debug, Clone)]
pub struct Sampler {
    params: SamplingParams,
    rng: Rng,
    /// Suppressed until `min_tokens` have been produced.
    eos: TokenId,
    seed: u64,
}

/// What a sampler holds.
#[verifier::ext_equal]
pub struct SamplerView {
    pub params: SamplingView,
    pub rng: u64,
    pub eos: TokenId,
    pub seed: u64,
}

impl View for Sampler {
    type V = SamplerView;

    closed spec fn view(&self) -> SamplerView {
        SamplerView { params: self.params@, rng: self.rng@, eos: self.eos, seed: self.seed }
    }
}

impl SamplerView {
    /// A sampler draws from the seed of its parameters, or from the one it is
    /// given where they have none.
    pub open spec fn fresh(params: SamplingView, eos: TokenId, fallback_seed: u64) -> SamplerView {
        let seed = match params.seed {
            Some(s) => s,
            None => fallback_seed,
        };
        SamplerView { params, rng: seeded(seed), eos, seed }
    }

    /// The logits with stopping forbidden before the caller's floor.
    pub open spec fn masked(self, logits: Seq<F32>, generated: nat) -> Seq<F32> {
        if generated < self.params.min_tokens && self.eos < logits.len() {
            logits.update(self.eos as int, F32::neg_infinity_spec())
        } else {
            logits
        }
    }

    /// Whether logits are divided by the temperature: it is positive, and further
    /// from one than the gap between one and the next larger number.
    pub open spec fn scales(self) -> bool {
        let t = self.params.temperature;
        F32::zero_spec().below(t) && !(0x3f7f_fffe <= t.rank() <= 0x3f80_0001)
    }

    /// How many of the ranked candidates stay.
    pub open spec fn kept(self, candidates: nat, cumulative: Seq<F32>) -> nat {
        let by_count = match self.params.top_k {
            Some(k) => if k < candidates {
                k as nat
            } else {
                candidates
            },
            None => candidates,
        };
        if self.params.top_p.below(F32::one_spec()) {
            // Always keep at least one token, whatever top_p asks for.
            let by_mass = if nucleus(cumulative, self.params.top_p, 0) >= 1 {
                nucleus(cumulative, self.params.top_p, 0)
            } else {
                1
            };
            if by_mass < by_count {
                by_mass
            } else {
                by_count
            }
        } else {
            by_count
        }
    }

    /// True if this token ends the sequence.
    pub open spec fn stops(self, token: TokenId) -> bool {
        (token == self.eos && !self.params.ignore_eos) || self.params.stop_tokens.contains(token)
    }
}

impl Sampler {
    pub fn new(params: SamplingParams, eos: TokenId, fallback_seed: u64) -> (r: Self)
        ensures
            r@ == SamplerView::fresh(params@, eos, fallback_seed),
    {
        let seed: u64 = match params.seed {
            Some(s) => s,
            None => fallback_seed,
        };
        Sampler { params, rng: Rng::seed(seed), eos, seed }
    }

    /// The seed actually in use, so it can be reported back to the client.
    pub fn effective_seed(&self) -> (r: u64)
        ensures
            r == self@.seed,
    {
        self.seed
    }

    /// The logits to choose from. `generated` is how many tokens this sequence
    /// has already produced, which governs whether EOS is allowed yet.
    pub fn mask(&self, logits: &[F32], generated: usize) -> (r: Vec<F32>)
        ensures
            r@ == self@.masked(logits@, generated as nat),
    {
        let mut work: Vec<F32> = vstd::slice::slice_to_vec(logits);
        if generated < self.params.min_tokens {
            let slot: usize = self.eos as usize;
            if slot < work.len() {
                work.set(slot, F32::neg_infinity());
            }
        }
        work
    }

    /// The token, where the parameters leave nothing to chance.
    pub fn greedy_token(&self, work: &[F32]) -> (r: Option<TokenId>)
        requires
            work@.len() > 0,
        ensures
            r == if self@.params.greedy() {
                Some((peak(work@, work@.len()) as TokenId))
            } else {
                None
            },
    {
        if self.params.is_greedy() {
            Some(argmax(work))
        } else {
            None
        }
    }

    /// The temperature, where logits have to be divided by it.
    pub fn scaling(&self) -> (r: Option<F32>)
        ensures
            r == if self@.scales() {
                Some(self@.params.temperature)
            } else {
                None
            },
    {
        let t: F32 = self.params.temperature;
        let rank: i64 = t.signed_rank();
        if F32::zero().is_below(t) && !(0x3f7f_fffe <= rank && rank <= 0x3f80_0001) {
            Some(t)
        } else {
            None
        }
    }

    /// How many of the ranked candidates stay, given the running sums of their
    /// probabilities.
    pub fn keep(&self, candidates: usize, cumulative: &[F32]) -> (r: usize)
        ensures
            r == self@.kept(candidates as nat, cumulative@),
            candidates == cumulative@.len() && candidates > 0 && self@.params.fault() is None ==> {
                let top_p = self@.params.top_p;
                let allowed = match self@.params.top_k {
                    Some(most) => if most <= candidates {
                        most as int
                    } else {
                        candidates as int
                    },
                    None => candidates as int,
                };
                &&& 1 <= r <= allowed
                &&& top_p.bits == 0x3f80_0000 ==> r == allowed
                &&& top_p.bits < 0x3f80_0000 ==> {
                    &&& forall|i: int| 0 <= i < r - 1 ==> !top_p.at_most(#[trigger] cumulative@[i])
                    &&& r < allowed ==> top_p.at_most(cumulative@[r - 1])
                }
            },
    {
        proof {
            if candidates == cumulative@.len() && candidates > 0 && self@.params.fault() is None {
                law_the_nucleus_is_the_least_that_has_the_mass(self@, cumulative@);
            }
        }
        let mut keep: usize = candidates;
        if let Some(k) = self.params.top_k {
            if (k as u64) < candidates as u64 {
                keep = k as usize;
            }
        }
        if self.params.top_p.is_below(F32::one()) {
            let mut rank: usize = 0;
            while rank < cumulative.len()
                invariant_except_break
                    nucleus(cumulative@, self.params.top_p, 0) == nucleus(
                        cumulative@,
                        self.params.top_p,
                        rank as nat,
                    ),
                invariant
                    rank <= cumulative@.len(),
                ensures
                    rank == nucleus(cumulative@, self.params.top_p, 0),
                decreases cumulative.len() - rank,
            {
                let reached: bool = self.params.top_p.is_at_most(cumulative[rank]);
                rank = rank + 1;
                if reached {
                    break ;
                }
            }
            if rank == 0 {
                rank = 1;
            }
            if rank < keep {
                keep = rank;
            }
        }
        keep
    }

    /// Draw a share of the kept probability, uniform in `[0, 1)`.
    pub fn draw(&mut self) -> (r: F32)
        ensures
            r.is_24th((scrambled(old(self)@.rng) >> 40) as nat),
            !r.is_nan(),
            0 <= r.rank() < F32::one_spec().rank(),
            final(self)@ == (SamplerView { rng: xorshift(old(self)@.rng), ..old(self)@ }),
    {
        self.rng.next_f32()
    }

    /// True if this token ends the sequence.
    pub fn is_stop(&self, token: TokenId) -> (r: bool)
        ensures
            r == self@.stops(token),
    {
        if token == self.eos && !self.params.ignore_eos {
            return true;
        }
        for i in 0..self.params.stop_tokens.len()
            invariant
                forall|j: int| 0 <= j < i ==> self.params.stop_tokens@[j] != token,
        {
            if self.params.stop_tokens[i] == token {
                assert(self.params.stop_tokens@.contains(token));
                return true;
            }
        }
        false
    }
}

/// EOS cannot be the peak before the floor is met, as long as another logit is a
/// number above negative infinity.
pub proof fn law_the_floor_forbids_stopping(
    s: SamplerView,
    logits: Seq<F32>,
    generated: nat,
    other: int,
)
    requires
        generated < s.params.min_tokens,
        s.eos < logits.len(),
        0 <= other < logits.len(),
        other != s.eos,
        forall|i: int| 0 <= i < logits.len() ==> !(#[trigger] logits[i]).is_nan(),
        F32::neg_infinity_spec().below(logits[other]),
    ensures
        peak(s.masked(logits, generated), logits.len()) != s.eos,
{
    let work = s.masked(logits, generated);
    assert forall|i: int| 0 <= i < work.len() implies !(#[trigger] work[i]).is_nan() by {
        assert(!logits[i].is_nan());
    }
    law_the_peak_is_the_first_maximum(work, work.len());
    assert(work[other] == logits[other]);
}

/// Filtering never leaves nothing: one candidate stays at least, for parameters
/// that are valid.
pub proof fn law_one_candidate_always_stays(
    s: SamplerView,
    candidates: nat,
    cumulative: Seq<F32>,
)
    requires
        s.params.fault() is None,
        candidates > 0,
    ensures
        1 <= s.kept(candidates, cumulative) <= candidates,
        match s.params.top_k {
            Some(k) => s.kept(candidates, cumulative) <= k,
            None => true,
        },
{
}

proof fn lemma_landing(left: Seq<F32>, keep: nat, n: nat)
    requires
        n < keep,
    ensures
        n <= landing(left, keep, n) < keep,
    decreases keep - n,
{
    if n + 1 < keep && !left[n as int].at_most(F32::zero_spec()) {
        lemma_landing(left, keep, n + 1);
    }
}

/// A draw never falls outside the candidates that were kept.
pub proof fn law_a_draw_falls_on_a_kept_candidate(left: Seq<F32>, keep: nat)
    requires
        keep > 0,
    ensures
        landing(left, keep, 0) < keep,
{
    lemma_landing(left, keep, 0);
}

/// The same seed reproduces the same draws: what a sampler draws next depends on
/// its parameters and seed alone.
pub proof fn law_a_seed_reproduces_its_draws(
    params: SamplingView,
    eos: TokenId,
    one: u64,
    other: u64,
)
    requires
        params.seed is Some || one == other,
    ensures
        SamplerView::fresh(params, eos, one) == SamplerView::fresh(params, eos, other),
        SamplerView::fresh(params, eos, one).rng == seeded(
            SamplerView::fresh(params, eos, one).seed,
        ),
{
}

proof fn lemma_nucleus(cumulative: Seq<F32>, top_p: F32, n: nat)
    requires
        n <= cumulative.len(),
    ensures
        ({
            let k = nucleus(cumulative, top_p, n);
            &&& n <= k <= cumulative.len()
            &&& n < cumulative.len() ==> n < k
            &&& forall|i: int| n <= i < k - 1 ==> !top_p.at_most(#[trigger] cumulative[i])
            &&& k == cumulative.len() || top_p.at_most(cumulative[k - 1])
        }),
    decreases cumulative.len() - n,
{
    if n < cumulative.len() && !top_p.at_most(cumulative[n as int]) {
        lemma_nucleus(cumulative, top_p, n + 1);
    }
}

/// The nucleus is the smallest that has the mass: of the ranked candidates, whose
/// running sums are given, so many stay that no shorter start of them reaches
/// `top_p`, and they reach it themselves unless there are no more of them, or no
/// more are allowed. With a `top_p` of one, all that are allowed stay.
pub proof fn law_the_nucleus_is_the_least_that_has_the_mass(
    s: SamplerView,
    cumulative: Seq<F32>,
)
    requires
        s.params.fault() is None,
        cumulative.len() > 0,
    ensures
        ({
            let n = cumulative.len();
            let k = s.kept(n, cumulative);
            let allowed = match s.params.top_k {
                Some(most) => if most as nat <= n {
                    most as nat
                } else {
                    n
                },
                None => n,
            };
            &&& 1 <= k <= allowed
            &&& s.params.top_p.bits == 0x3f80_0000 ==> k == allowed
            &&& s.params.top_p.bits < 0x3f80_0000 ==> {
                &&& forall|i: int|
                    0 <= i < k - 1 ==> !s.params.top_p.at_most(#[trigger] cumulative[i])
                &&& k < allowed ==> s.params.top_p.at_most(cumulative[k - 1])
            }
        }),
{
    lemma_nucleus(cumulative, s.params.top_p, 0);
}

proof fn lemma_landing_is_the_first(left: Seq<F32>, keep: nat, n: nat)
    requires
        n < keep,
    ensures
        ({
            let k = landing(left, keep, n);
            &&& n <= k < keep
            &&& forall|i: int| n <= i < k ==> !(#[trigger] left[i]).at_most(F32::zero_spec())
            &&& k == keep - 1 || left[k as int].at_most(F32::zero_spec())
        }),
    decreases keep - n,
{
    if n + 1 < keep && !left[n as int].at_most(F32::zero_spec()) {
        lemma_landing_is_the_first(left, keep, n + 1);
    }
}

/// A draw falls on the first candidate at which nothing of it is left, and on the
/// last of those that were kept where something always is. Nothing is left where
/// the remainder is zero or negative.
pub proof fn law_a_draw_falls_where_it_is_used_up(left: Seq<F32>, keep: nat)
    requires
        0 < keep <= left.len(),
        forall|i: int| 0 <= i < keep ==> !(#[trigger] left[i]).is_nan(),
    ensures
        ({
            let k = landing(left, keep, 0) as int;
            &&& 0 <= k < keep
            &&& forall|i: int|
                0 <= i < k ==> 0 < (#[trigger] left[i]).bits && left[i].bits < 0x8000_0000
            &&& k < keep - 1 ==> left[k].bits == 0 || left[k].bits >= 0x8000_0000
        }),
{
    lemma_landing_is_the_first(left, keep, 0);
    let k = landing(left, keep, 0) as int;
    assert forall|i: int| 0 <= i < k implies 0 < (#[trigger] left[i]).bits && left[i].bits
        < 0x8000_0000 by {
        assert(!left[i].at_most(F32::zero_spec()));
        assert(!left[i].is_nan());
    }
}

/// Masking touches nothing but the end token, and that only before the floor: it
/// then has the pattern of negative infinity.
pub proof fn law_masking_touches_only_the_end_token(
    s: SamplerView,
    logits: Seq<F32>,
    generated: nat,
    i: int,
)
    requires
        0 <= i < logits.len(),
    ensures
        s.masked(logits, generated).len() == logits.len(),
        i == s.eos && generated < s.params.min_tokens ==> s.masked(logits, generated)[i].bits
            == 0xff80_0000,
        !(i == s.eos && generated < s.params.min_tokens) ==> s.masked(logits, generated)[i]
            == logits[i],
{
}

/// A token ends a sequence exactly where it is the end token and that is not to be
/// ignored, or where it is among the stop tokens of the request.
pub proof fn law_only_end_and_stop_tokens_end_a_sequence(s: SamplerView, token: TokenId)
    ensures
        s.stops(token) <==> {
            ||| token == s.eos && !s.params.ignore_eos
            ||| exists|i: int|
                0 <= i < s.params.stop_tokens.len() && #[trigger] s.params.stop_tokens[i] == token
        },
{
    if s.params.stop_tokens.contains(token) {
        let k = s.params.stop_tokens.index_of(token);
        assert(s.params.stop_tokens[k] == token);
    }
}

/// A request that brings its own seed draws from it, and one that brings none from
/// the seed it is given; that seed is the one reported.
pub proof fn law_the_seed_in_use_is_the_one_asked_for(
    params: SamplingView,
    eos: TokenId,
    fallback: u64,
)
    ensures
        params.seed is Some ==> SamplerView::fresh(params, eos, fallback).seed == params.seed->0,
        params.seed is None ==> SamplerView::fresh(params, eos, fallback).seed == fallback,
        params.seed is Some ==> SamplerView::fresh(params, eos, fallback).rng == seeded(
            params.seed->0,
        ),
        params.seed is None ==> SamplerView::fresh(params, eos, fallback).rng == seeded(fallback),
        SamplerView::fresh(params, eos, fallback).params == params,
        SamplerView::fresh(params, eos, fallback).eos == eos,
{
}

/// Logits are divided by every temperature that is positive, save those no further
/// from one than the gap to the next number above it.
pub proof fn law_a_temperature_near_one_leaves_logits_alone(s: SamplerView)
    requires
        s.params.fault() is None,
    ensures
        s.scales() <==> {
            &&& 0 < s.params.temperature.bits <= 0x4000_0000
            &&& s.params.temperature.bits < 0x3f80_0000 - 2 || s.params.temperature.bits
                > 0x3f80_0000 + 1
        },
{
}

/// There is nothing to draw from exactly where the share is no positive finite
/// number.
pub proof fn law_a_share_is_drawn_from_if_positive_and_finite(total: F32)
    ensures
        !degenerate(total) <==> 0 < total.bits < 0x7f80_0000,
{
}

/// A seed is spread by splitmix64: with the golden gamma added, twice folded onto
/// itself and multiplied, by 30 bits and 27, and folded by 31 at last; modulo
/// `2^64`. A state of zero, which would stay zero, becomes one.
pub proof fn law_seeds_are_spread_by_splitmix(seed: u64, z: u64, y: u64, x: u64)
    requires
        z == (seed + 0x9E37_79B9_7F4A_7C15) % 0x1_0000_0000_0000_0000,
        y == ((z ^ (z >> 30)) as int * 0xBF58_476D_1CE4_E5B9) % 0x1_0000_0000_0000_0000,
        x == ((y ^ (y >> 27)) as int * 0x94D0_49BB_1331_11EB) % 0x1_0000_0000_0000_0000,
    ensures
        x ^ (x >> 31) != 0 ==> seeded(seed) == x ^ (x >> 31),
        x ^ (x >> 31) == 0 ==> seeded(seed) == 1,
{
}

/// The generator steps by xorshift64*: the state is folded by 12 bits down, 25 up and
/// 27 down, and what it gives is the new state times a constant, modulo `2^64`.
pub proof fn law_the_generator_steps_by_xorshift(state: u64, a: u64, b: u64)
    requires
        a == state ^ (state >> 12),
        b == a ^ (a << 25),
    ensures
        xorshift(state) == b ^ (b >> 27),
        scrambled(state) == ((b ^ (b >> 27)) as int * 0x2545_F491_4F6C_DD1D)
            % 0x1_0000_0000_0000_0000,
{
}

/// Candidates are ranked by what they have, most first, and where two have the same
/// the lower index comes first; each stands in the ranking once.
pub proof fn law_candidates_are_ranked_by_what_they_have(
    probs: Seq<F32>,
    order: Seq<u32>,
    i: int,
    j: int,
)
    requires
        ranks(probs, order, 0, probs.len() as int),
        probs.len() <= u32::MAX,
        0 <= i < j < order.len(),
        !probs[order[i] as int].is_nan(),
        !probs[order[j] as int].is_nan(),
    ensures
        order.len() == probs.len(),
        order[i] != order[j],
        !probs[order[i] as int].below(probs[order[j] as int]),
        probs[order[i] as int].same(probs[order[j] as int]) ==> order[i] < order[j],
        forall|k: u32| k < probs.len() ==> #[trigger] order.contains(k),
{
    assert(ranks_before(probs, order[i], order[j]));
}

} // verus!
