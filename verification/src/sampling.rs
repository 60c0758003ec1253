//! Decoding parameters.
use vstd::prelude::*;

use crate::error::{Error, Result, SamplingFault};
use crate::number::F32;
use crate::TokenId;

verus! {

/// Decoding parameters for one sequence.
#[derive(Debug, Clone, PartialEq)]
pub struct SamplingParams {
    pub temperature: F32,
    pub top_p: F32,
    pub top_k: Option<u32>,
    pub max_tokens: usize,
    pub min_tokens: usize,
    pub stop_tokens: Vec<TokenId>,
    /// Fixed seed. `None` means the runtime picks one and reports it back, so
    /// every generation can be replayed.
    pub seed: Option<u64>,
    pub ignore_eos: bool,
}

/// Decoding parameters as values.
#[verifier::ext_equal]
pub struct SamplingView {
    pub temperature: F32,
    pub top_p: F32,
    pub top_k: Option<u32>,
    pub max_tokens: usize,
    pub min_tokens: usize,
    pub stop_tokens: Seq<TokenId>,
    pub seed: Option<u64>,
    pub ignore_eos: bool,
}

impl View for SamplingParams {
    type V = SamplingView;

    open spec fn view(&self) -> SamplingView {
        SamplingView {
            temperature: self.temperature,
            top_p: self.top_p,
            top_k: self.top_k,
            max_tokens: self.max_tokens,
            min_tokens: self.min_tokens,
            stop_tokens: self.stop_tokens@,
            seed: self.seed,
            ignore_eos: self.ignore_eos,
        }
    }
}

impl SamplingView {
    /// What a request gets that asks for nothing in particular.
    pub open spec fn default_spec() -> SamplingView {
        SamplingView {
            temperature: F32::one_spec(),
            top_p: F32::one_spec(),
            top_k: None,
            max_tokens: 128,
            min_tokens: 0,
            stop_tokens: Seq::empty(),
            seed: None,
            ignore_eos: false,
        }
    }

    /// The first thing wrong with the parameters, if anything is.
    pub open spec fn fault(self) -> Option<SamplingFault> {
        if !(F32::zero_spec().at_most(self.temperature) && self.temperature.at_most(
            F32::two_spec(),
        )) {
            Some(SamplingFault::Temperature(self.temperature))
        } else if !(F32::zero_spec().at_most(self.top_p) && self.top_p.at_most(F32::one_spec())) {
            Some(SamplingFault::TopP(self.top_p))
        } else if self.top_p.same(F32::zero_spec()) {
            Some(SamplingFault::TopPZero)
        } else if self.top_k == Some(0u32) {
            Some(SamplingFault::TopKZero)
        } else if self.max_tokens == 0 {
            Some(SamplingFault::MaxTokensZero)
        } else if self.min_tokens > self.max_tokens {
            Some(
                SamplingFault::MinAboveMax {
                    min_tokens: self.min_tokens,
                    max_tokens: self.max_tokens,
                },
            )
        } else {
            None
        }
    }

    /// True when the parameters always pick the argmax token.
    pub open spec fn greedy(self) -> bool {
        self.temperature.same(F32::zero_spec()) || self.top_k == Some(1u32)
    }
}

impl Default for SamplingParams {
    fn default() -> (r: Self)
        ensures
            r@ == SamplingView::default_spec(),
    {
        SamplingParams {
            temperature: F32::one(),
            top_p: F32::one(),
            top_k: None,
            max_tokens: 128,
            min_tokens: 0,
            stop_tokens: Vec::new(),
            seed: None,
            ignore_eos: false,
        }
    }
}

impl SamplingParams {
    /// Greedy decoding: deterministic given the same model and batch shape.
    pub fn greedy(max_tokens: usize) -> (r: Self)
        ensures
            r@ == (SamplingView {
                temperature: F32::zero_spec(),
                max_tokens,
                ..SamplingView::default_spec()
            }),
    {
        SamplingParams {
            temperature: F32::zero(),
            top_p: F32::one(),
            top_k: None,
            max_tokens,
            min_tokens: 0,
            stop_tokens: Vec::new(),
            seed: None,
            ignore_eos: false,
        }
    }

    /// A copy of the parameters.
    pub fn copy(&self) -> (r: Self)
        ensures
            r@ == self@,
    {
        let mut stop_tokens: Vec<TokenId> = Vec::with_capacity(self.stop_tokens.len());
        for i in 0..self.stop_tokens.len()
            invariant
                stop_tokens@ == self.stop_tokens@.take(i as int),
        {
            stop_tokens.push(self.stop_tokens[i]);
            assert(stop_tokens@ =~= self.stop_tokens@.take(i + 1));
        }
        assert(stop_tokens@ =~= self.stop_tokens@);
        SamplingParams {
            temperature: self.temperature,
            top_p: self.top_p,
            top_k: self.top_k,
            max_tokens: self.max_tokens,
            min_tokens: self.min_tokens,
            stop_tokens,
            seed: self.seed,
            ignore_eos: self.ignore_eos,
        }
    }

    pub fn validate(&self) -> (r: Result<()>)
        ensures
            r == match self@.fault() {
                Some(fault) => Err::<(), Error>(Error::InvalidSampling(fault)),
                None => Ok(()),
            },
    {
        if !(F32::zero().is_at_most(self.temperature) && self.temperature.is_at_most(F32::two())) {
            return Err(Error::InvalidSampling(SamplingFault::Temperature(self.temperature)));
        }
        if !(F32::zero().is_at_most(self.top_p) && self.top_p.is_at_most(F32::one())) {
            return Err(Error::InvalidSampling(SamplingFault::TopP(self.top_p)));
        }
        if self.top_p.is_same(F32::zero()) {
            return Err(Error::InvalidSampling(SamplingFault::TopPZero));
        }
        if let Some(k) = self.top_k {
            if k == 0 {
                return Err(Error::InvalidSampling(SamplingFault::TopKZero));
            }
        }
        if self.max_tokens == 0 {
            return Err(Error::InvalidSampling(SamplingFault::MaxTokensZero));
        }
        if self.min_tokens > self.max_tokens {
            return Err(
                Error::InvalidSampling(
                    SamplingFault::MinAboveMax {
                        min_tokens: self.min_tokens,
                        max_tokens: self.max_tokens,
                    },
                ),
            );
        }
        Ok(())
    }

    /// True when this configuration always picks the argmax token.
    pub fn is_greedy(&self) -> (r: bool)
        ensures
            r == self@.greedy(),
    {
        if self.temperature.is_same(F32::zero()) {
            return true;
        }
        match self.top_k {
            Some(k) => k == 1,
            None => false,
        }
    }
}

/// Parameters that pass validation have a temperature in `[0, 2]`, a nucleus
/// mass in `(0, 1]`, room for a token, and no more tokens demanded than allowed.
pub proof fn law_valid_parameters_are_in_range(v: SamplingView)
    requires
        v.fault() is None,
    ensures
        !v.temperature.is_nan(),
        0 <= v.temperature.rank() <= F32::two_spec().rank(),
        !v.top_p.is_nan(),
        0 < v.top_p.rank() <= F32::one_spec().rank(),
        v.top_k != Some(0u32),
        v.min_tokens <= v.max_tokens,
        v.max_tokens >= 1,
{
}

/// Parameters are accepted exactly where the temperature is in `[0, 2]`, the nucleus
/// mass in `(0, 1]`, a limit on candidates leaves one at least, and there is room
/// for a token and for as many as are demanded. The numbers are given by their bit
/// patterns.
pub proof fn law_parameters_are_accepted_exactly_in_range(v: SamplingView)
    ensures
        v.fault() is None <==> {
            &&& v.temperature.bits <= 0x4000_0000 || v.temperature.bits == 0x8000_0000
            &&& 0 < v.top_p.bits <= 0x3f80_0000
            &&& v.top_k != Some(0u32)
            &&& 1 <= v.max_tokens
            &&& v.min_tokens <= v.max_tokens
        },
{
}

/// What is found at fault is at fault, and what is said of it is what it is.
pub proof fn law_a_fault_is_named_for_what_it_is(v: SamplingView)
    ensures
        match v.fault() {
            Some(SamplingFault::Temperature(t)) => t == v.temperature && !(t.bits <= 0x4000_0000
                || t.bits == 0x8000_0000),
            Some(SamplingFault::TopP(p)) => p == v.top_p && !(p.bits <= 0x3f80_0000 || p.bits
                == 0x8000_0000),
            Some(SamplingFault::TopPZero) => v.top_p.bits == 0 || v.top_p.bits == 0x8000_0000,
            Some(SamplingFault::TopKZero) => v.top_k == Some(0u32),
            Some(SamplingFault::MaxTokensZero) => v.max_tokens == 0,
            Some(SamplingFault::MinAboveMax { min_tokens, max_tokens }) => {
                &&& min_tokens == v.min_tokens
                &&& max_tokens == v.max_tokens
                &&& max_tokens < min_tokens
            },
            Some(_) => false,
            None => true,
        },
{
}

/// Nothing is left to chance exactly at a temperature of zero, of either sign, or
/// with a single candidate.
pub proof fn law_only_zero_temperature_or_one_candidate_is_greedy(v: SamplingView)
    ensures
        v.greedy() <==> v.temperature.bits == 0 || v.temperature.bits == 0x8000_0000 || v.top_k
            == Some(1u32),
{
}

/// A request that asks for nothing in particular is sampled from the whole
/// distribution as it is, ends at the model's end token or after 128 tokens, and
/// is valid.
pub proof fn law_the_default_changes_nothing()
    ensures
        ({
            let v = SamplingView::default_spec();
            &&& v.temperature.bits == 0x3f80_0000
            &&& v.top_p.bits == 0x3f80_0000
            &&& v.top_k is None
            &&& v.max_tokens == 128
            &&& v.min_tokens == 0
            &&& v.stop_tokens.len() == 0
            &&& v.seed is None
            &&& !v.ignore_eos
            &&& v.fault() is None
        }),
{
}

/// Of several faults the first is named, in this order: the temperature, the nucleus
/// mass out of its range and at zero, the number of candidates, the limit on tokens,
/// and the demand on them.
pub proof fn law_the_first_fault_is_named(v: SamplingView)
    ensures
        ({
            let warm = v.temperature.bits <= 0x4000_0000 || v.temperature.bits == 0x8000_0000;
            let mass = v.top_p.bits <= 0x3f80_0000 || v.top_p.bits == 0x8000_0000;
            let some = v.top_p.bits % 0x8000_0000 != 0;
            let picks = v.top_k != Some(0u32);
            &&& !warm ==> v.fault() == Some(SamplingFault::Temperature(v.temperature))
            &&& warm && !mass ==> v.fault() == Some(SamplingFault::TopP(v.top_p))
            &&& warm && mass && !some ==> v.fault() == Some(SamplingFault::TopPZero)
            &&& warm && mass && some && !picks ==> v.fault() == Some(SamplingFault::TopKZero)
            &&& warm && mass && some && picks && v.max_tokens == 0 ==> v.fault() == Some(
                SamplingFault::MaxTokensZero,
            )
            &&& warm && mass && some && picks && 0 < v.max_tokens < v.min_tokens ==> v.fault()
                == Some(
                SamplingFault::MinAboveMax {
                    min_tokens: v.min_tokens,
                    max_tokens: v.max_tokens,
                },
            )
        }),
{
}

} // verus!
