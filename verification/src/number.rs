//! Exact numbers: ratios of integers, fractions of a whole, and single
//! precision numbers by their bit pattern.
//!
//! Rates, shares and sizes in units are kept as the two integers they are made
//! of. Whoever displays one divides. Sampling parameters and logits are single
//! precision numbers; what the library asks of them is how they compare, and
//! that is a question about their bits.
use vstd::arithmetic::power2::{lemma2_to64, lemma_pow2_unfold, pow2};
use vstd::prelude::*;

verus! {

/// The rational number `part / whole`.
#[derive(Debug, Clone, Copy, PartialEq, Eq, Structural)]
pub struct Ratio {
    pub part: u128,
    pub whole: u128,
}

impl Ratio {
    /// A ratio has a value only over a whole that is not zero.
    pub open spec fn wf(self) -> bool {
        self.whole > 0
    }

    /// The ratio of `part` to `whole`, and zero where there is no whole.
    pub open spec fn share_spec(part: nat, whole: nat) -> Ratio {
        if whole == 0 {
            Ratio { part: 0, whole: 1 }
        } else {
            Ratio { part: part as u128, whole: whole as u128 }
        }
    }

    /// The ratio of `part` to `whole`, and zero where there is no whole.
    pub fn share(part: u128, whole: u128) -> (r: Self)
        ensures
            r == Self::share_spec(part as nat, whole as nat),
            r.wf(),
    {
        if whole == 0 {
            Ratio { part: 0, whole: 1 }
        } else {
            Ratio { part, whole }
        }
    }
}

/// A share of a whole, such as one hundredth.
#[derive(Debug, Clone, Copy, PartialEq, Eq, Structural)]
pub struct Fraction {
    pub num: u64,
    pub den: u64,
}

impl Fraction {
    pub open spec fn wf(self) -> bool {
        self.den > 0
    }

    /// The share of `n`, rounded up.
    pub open spec fn of_rounded_up(self, n: nat) -> nat {
        ((n * self.num + self.den - 1) / self.den as int) as nat
    }

    /// The share of `n`, rounded down.
    pub open spec fn of_rounded_down(self, n: nat) -> nat {
        ((n * self.num) / self.den as int) as nat
    }

    /// The share of `n`, rounded up, or the largest number there is.
    pub fn round_up(self, n: usize) -> (r: usize)
        requires
            self.wf(),
        ensures
            r == if self.of_rounded_up(n as nat) <= usize::MAX {
                self.of_rounded_up(n as nat) as int
            } else {
                usize::MAX as int
            },
    {
        let wide: u128 = n as u128;
        let num: u128 = self.num as u128;
        proof {
            lemma_product_fits(wide as int, num as int);
        }
        let share: u128 = (wide * num + (self.den as u128 - 1)) / (self.den as u128);
        if share <= usize::MAX as u128 {
            share as usize
        } else {
            usize::MAX
        }
    }

    /// The share of `n`, rounded down.
    pub fn round_down(self, n: u64) -> (r: u128)
        requires
            self.wf(),
        ensures
            r == self.of_rounded_down(n as nat),
    {
        let wide: u128 = n as u128;
        let num: u128 = self.num as u128;
        proof {
            lemma_product_fits(wide as int, num as int);
        }
        (wide * num) / (self.den as u128)
    }
}

/// The product of two numbers of 64 bits fits 128.
pub proof fn lemma_product_fits(a: int, b: int)
    requires
        0 <= a <= 0xffff_ffff_ffff_ffff,
        0 <= b <= 0xffff_ffff_ffff_ffff,
    ensures
        0 <= a * b <= 0xffff_ffff_ffff_fffe_0000_0000_0000_0001,
{
    assert(0 <= a * b <= 0xffff_ffff_ffff_ffff * 0xffff_ffff_ffff_ffff) by (nonlinear_arith)
        requires
            0 <= a <= 0xffff_ffff_ffff_ffff,
            0 <= b <= 0xffff_ffff_ffff_ffff,
    ;
}

/// A single precision number, by its IEEE 754 bit pattern: one sign bit above
/// thirty-one bits of magnitude.
#[derive(Debug, Clone, Copy, PartialEq, Eq, Structural)]
pub struct F32 {
    pub bits: u32,
}

impl F32 {
    pub open spec fn is_negative(self) -> bool {
        self.bits >= 0x8000_0000
    }

    pub open spec fn magnitude(self) -> int {
        if self.is_negative() {
            self.bits - 0x8000_0000
        } else {
            self.bits as int
        }
    }

    /// Magnitudes above that of infinity are not numbers.
    pub open spec fn is_nan(self) -> bool {
        self.magnitude() > 0x7f80_0000
    }

    /// Where the number stands in the order of numbers. Both zeros stand at 0.
    pub open spec fn rank(self) -> int {
        if self.is_negative() {
            -self.magnitude()
        } else {
            self.magnitude()
        }
    }

    /// `self < other`, which is false where either is not a number.
    pub open spec fn below(self, other: F32) -> bool {
        !self.is_nan() && !other.is_nan() && self.rank() < other.rank()
    }

    /// `self <= other`, which is false where either is not a number.
    pub open spec fn at_most(self, other: F32) -> bool {
        !self.is_nan() && !other.is_nan() && self.rank() <= other.rank()
    }

    /// `self == other`, which is false where either is not a number.
    pub open spec fn same(self, other: F32) -> bool {
        !self.is_nan() && !other.is_nan() && self.rank() == other.rank()
    }

    pub open spec fn zero_spec() -> F32 {
        F32 { bits: 0 }
    }

    pub open spec fn one_spec() -> F32 {
        F32 { bits: 0x3f80_0000 }
    }

    pub open spec fn two_spec() -> F32 {
        F32 { bits: 0x4000_0000 }
    }

    pub open spec fn neg_infinity_spec() -> F32 {
        F32 { bits: 0xff80_0000 }
    }

    /// 0.0
    pub fn zero() -> (r: F32)
        ensures
            r == Self::zero_spec(),
    {
        F32 { bits: 0 }
    }

    /// 1.0
    pub fn one() -> (r: F32)
        ensures
            r == Self::one_spec(),
    {
        F32 { bits: 0x3f80_0000 }
    }

    /// 2.0
    pub fn two() -> (r: F32)
        ensures
            r == Self::two_spec(),
    {
        F32 { bits: 0x4000_0000 }
    }

    /// The number below every other.
    pub fn neg_infinity() -> (r: F32)
        ensures
            r == Self::neg_infinity_spec(),
    {
        F32 { bits: 0xff80_0000 }
    }

    /// Where the number stands in the order of numbers.
    pub fn signed_rank(self) -> (r: i64)
        ensures
            r == self.rank(),
    {
        if self.bits >= 0x8000_0000 {
            -((self.bits - 0x8000_0000) as i64)
        } else {
            self.bits as i64
        }
    }

    pub fn not_a_number(self) -> (r: bool)
        ensures
            r == self.is_nan(),
    {
        let rank: i64 = self.signed_rank();
        rank > 0x7f80_0000 || rank < -0x7f80_0000
    }

    pub fn is_below(self, other: F32) -> (r: bool)
        ensures
            r == self.below(other),
    {
        !self.not_a_number() && !other.not_a_number() && self.signed_rank() < other.signed_rank()
    }

    pub fn is_at_most(self, other: F32) -> (r: bool)
        ensures
            r == self.at_most(other),
    {
        !self.not_a_number() && !other.not_a_number() && self.signed_rank() <= other.signed_rank()
    }

    pub fn is_same(self, other: F32) -> (r: bool)
        ensures
            r == self.same(other),
    {
        !self.not_a_number() && !other.not_a_number() && self.signed_rank() == other.signed_rank()
    }
}

impl F32 {
    /// The number is `num / 2^24`, for a positive number of ordinary size: its
    /// significand, one and the low 23 bits, scaled by its exponent.
    pub open spec fn is_24th(self, num: nat) -> bool {
        if num == 0 {
            self.bits == 0
        } else {
            let exponent = self.bits / 0x80_0000;
            let significand = 0x80_0000 + self.bits % 0x80_0000;
            &&& 0 < exponent <= 126
            // significand * 2^(exponent - 150) == num * 2^-24
            &&& significand == num * pow2((126 - exponent) as nat)
        }
    }

    /// `num / 2^24`. Every such number below one is exact in single precision.
    pub fn of_24ths(num: u32) -> (r: F32)
        requires
            num < 0x100_0000,
        ensures
            r.is_24th(num as nat),
            !r.is_nan(),
            0 <= r.rank() < F32::one_spec().rank(),
    {
        if num == 0 {
            return F32 { bits: 0 };
        }
        let mut significand: u32 = num;
        let mut shift: u32 = 0;
        proof {
            lemma2_to64();
        }
        while significand < 0x80_0000
            invariant
                0 < significand < 0x100_0000,
                0 < num,
                shift <= 23,
                significand == num * pow2(shift as nat),
            decreases 0x100_0000 - significand,
        {
            proof {
                lemma_pow2_unfold((shift + 1) as nat);
                assert(num * (2 * pow2(shift as nat)) == 2 * (num * pow2(shift as nat)))
                    by (nonlinear_arith);
                if shift == 23 {
                    lemma2_to64();
                    assert(num * pow2(23) >= pow2(23)) by (nonlinear_arith)
                        requires
                            num >= 1,
                            pow2(23) >= 0,
                    ;
                }
            }
            significand = 2 * significand;
            shift = shift + 1;
        }
        F32 { bits: (126 - shift) * 0x80_0000 + (significand - 0x80_0000) }
    }
}

/// A share rounded up is the least number that is no smaller than the share, and
/// one rounded down the largest that is no larger.
pub proof fn law_shares_are_rounded_to_the_nearest_side(f: Fraction, n: nat)
    requires
        f.den > 0,
    ensures
        f.of_rounded_up(n) * f.den >= n * f.num,
        f.of_rounded_up(n) > 0 ==> (f.of_rounded_up(n) - 1) * f.den < n * f.num,
        f.of_rounded_down(n) * f.den <= n * f.num,
        n * f.num < (f.of_rounded_down(n) + 1) * f.den,
{
    let d = f.den as int;
    let x = n * f.num;
    assert(x >= 0) by (nonlinear_arith)
        requires
            x == n * f.num,
            n >= 0,
            f.num >= 0,
    ;
    vstd::arithmetic::div_mod::lemma_fundamental_div_mod(x, d);
    vstd::arithmetic::div_mod::lemma_fundamental_div_mod(x + d - 1, d);
    let (up, down) = ((x + d - 1) / d, x / d);
    assert(up * d == d * up && (up - 1) * d == d * up - d) by (nonlinear_arith);
    assert(down * d == d * down && (down + 1) * d == d * down + d) by (nonlinear_arith);
    vstd::arithmetic::div_mod::lemma_mod_bound(x, d);
    vstd::arithmetic::div_mod::lemma_mod_bound(x + d - 1, d);
    assert(up >= 0 && down >= 0) by {
        vstd::arithmetic::div_mod::lemma_div_pos_is_pos(x, d);
        vstd::arithmetic::div_mod::lemma_div_pos_is_pos(x + d - 1, d);
    }
}

/// A share has the value of its part over its whole, and none where there is no
/// whole.
pub proof fn law_a_share_is_its_part_over_its_whole(part: nat, whole: nat)
    requires
        part <= u128::MAX,
        whole <= u128::MAX,
    ensures
        Ratio::share_spec(part, whole).whole > 0,
        whole > 0 ==> Ratio::share_spec(part, whole).part * whole == part * Ratio::share_spec(
            part,
            whole,
        ).whole,
        whole == 0 ==> Ratio::share_spec(part, whole).part == 0,
{
}

/// Single precision numbers compare as IEEE 754 has it: a pattern beyond that of
/// infinity is no number and compares with nothing; positive patterns ascend,
/// negative ones descend, and the two zeros are one.
pub proof fn law_numbers_compare_by_their_patterns(a: F32, b: F32)
    ensures
        a.is_nan() <==> 0x7f80_0000 < a.bits < 0x8000_0000 || 0xff80_0000 < a.bits,
        a.is_nan() || b.is_nan() ==> !a.below(b) && !a.at_most(b) && !a.same(b),
        !a.is_nan() && !b.is_nan() ==> {
            &&& a.bits < 0x8000_0000 && b.bits < 0x8000_0000 ==> (a.below(b) <==> a.bits < b.bits)
            &&& a.bits >= 0x8000_0000 && b.bits >= 0x8000_0000 ==> (a.below(b) <==> a.bits
                > b.bits)
            &&& a.bits >= 0x8000_0000 && b.bits < 0x8000_0000 ==> (a.below(b) <==> !(a.bits
                == 0x8000_0000 && b.bits == 0))
            &&& a.bits < 0x8000_0000 && b.bits >= 0x8000_0000 ==> !a.below(b)
            &&& a.same(b) <==> a.bits == b.bits || (a.bits % 0x8000_0000 == 0 && b.bits
                % 0x8000_0000 == 0)
            &&& a.at_most(b) <==> !b.below(a)
        },
{
}

/// The numbers that stand for themselves are 0, 1, 2 and negative infinity: one is
/// the number with exponent 0 and no fraction, two is the next power of two, and
/// nothing is below negative infinity.
pub proof fn law_constants_are_what_they_are_called(a: F32)
    ensures
        F32::zero_spec().bits == 0,
        F32::one_spec().bits == 127 * 0x80_0000,
        F32::two_spec().bits == 128 * 0x80_0000,
        !a.below(F32::neg_infinity_spec()),
        !F32::neg_infinity_spec().is_nan(),
{
}

/// A count of parts in `2^24` stands for one number, and half of the parts for one
/// half.
pub proof fn law_a_24th_is_one_number(a: F32, b: F32, num: nat)
    requires
        a.is_24th(num),
        b.is_24th(num),
    ensures
        a == b,
        num == 0x80_0000 ==> a.bits == 0x3f00_0000,
{
    if num > 0 {
        let (x, y) = ((126 - a.bits / 0x80_0000) as nat, (126 - b.bits / 0x80_0000) as nat);
        lemma2_to64();
        if x != y {
            let (lo, hi) = if x < y {
                (x, y)
            } else {
                (y, x)
            };
            vstd::arithmetic::power2::lemma_pow2_strictly_increases(lo, hi);
            vstd::arithmetic::power2::lemma_pow2_pos(lo);
            vstd::arithmetic::power2::lemma_pow2_adds(lo, (hi - lo) as nat);
            if hi - lo > 1 {
                vstd::arithmetic::power2::lemma_pow2_strictly_increases(1, (hi - lo) as nat);
            }
            let (p, q, r) = (pow2(lo) as int, pow2(hi) as int, pow2((hi - lo) as nat) as int);
            assert(r >= 2);
            assert(num * q >= 2 * (num * p)) by (nonlinear_arith)
                requires
                    q == p * r,
                    r >= 2,
                    num >= 0,
                    p >= 0,
            ;
        }
        if num == 0x80_0000 {
            assert(pow2(0) == 1);
            if x > 0 {
                vstd::arithmetic::power2::lemma_pow2_strictly_increases(0, x);
                assert(num * pow2(x) >= num * 2) by (nonlinear_arith)
                    requires
                        pow2(x) >= 2,
                        num >= 0,
                ;
            }
            assert(x == 0);
            assert(pow2(x) == 1);
            assert(num * pow2(x) == num) by (nonlinear_arith)
                requires
                    pow2(x) == 1,
            ;
            assert(a.bits % 0x80_0000 == 0);
            assert(a.bits / 0x80_0000 == 126);
        }
    }
}

} // verus!
