//! Numeric formats, including the sub-byte weight formats.
use vstd::prelude::*;

use crate::number::Ratio;

verus! {

#[derive(Debug, Clone, Copy, PartialEq, Eq, Hash, Structural)]
pub enum DType {
    F32,
    F16,
    BF16,
    /// FP8 with 4 exponent bits — the usual choice for weights and activations.
    F8E4M3,
    /// FP8 with 5 exponent bits — wider range, fewer mantissa bits, used where
    /// activation outliers would otherwise saturate E4M3.
    F8E5M2,
    I8,
    /// 4-bit integer weights. Packed two per byte, so a tensor with an odd
    /// element count still costs a whole trailing byte.
    I4,
}

/// `a / b`, rounded up.
pub open spec fn ceil_div(a: nat, b: nat) -> nat {
    a / b + if a % b > 0 {
        1nat
    } else {
        0nat
    }
}

/// `a / b`, rounded up.
pub fn div_ceil(a: usize, b: usize) -> (r: usize)
    requires
        b > 0,
    ensures
        r == ceil_div(a as nat, b as nat),
{
    if a % b > 0 {
        assert(a as int / b as int + 1 <= a) by (nonlinear_arith)
            requires
                b > 0,
                a as int % b as int > 0,
                a >= 0,
        ;
        a / b + 1
    } else {
        a / b
    }
}

impl DType {
    pub open spec fn width(self) -> nat {
        match self {
            DType::F32 => 32,
            DType::F16 => 16,
            DType::BF16 => 16,
            DType::F8E4M3 => 8,
            DType::F8E5M2 => 8,
            DType::I8 => 8,
            DType::I4 => 4,
        }
    }

    /// Bytes that `n` elements take.
    pub open spec fn size_of(self, n: nat) -> nat {
        ceil_div(n * self.width(), 8)
    }

    pub fn bits(self) -> (r: usize)
        ensures
            r == self.width(),
    {
        match self {
            DType::F32 => 32,
            DType::F16 => 16,
            DType::BF16 => 16,
            DType::F8E4M3 => 8,
            DType::F8E5M2 => 8,
            DType::I8 => 8,
            DType::I4 => 4,
        }
    }

    /// Bytes needed for `n` elements, rounding sub-byte formats up.
    pub fn bytes_for(self, n: usize) -> (r: usize)
        requires
            n * self.width() <= usize::MAX,
        ensures
            r == self.size_of(n as nat),
    {
        div_ceil(n * self.bits(), 8)
    }

    /// True for formats that need a scale (and possibly a zero point) per
    /// group of elements rather than one per tensor.
    pub fn is_quantized(self) -> (r: bool)
        ensures
            r == (self.width() <= 8),
            r == (self is F8E4M3 || self is F8E5M2 || self is I8 || self is I4),
    {
        match self {
            DType::F8E4M3 => true,
            DType::F8E5M2 => true,
            DType::I8 => true,
            DType::I4 => true,
            _ => false,
        }
    }

    /// Precision that accumulation and reference comparison run in.
    pub fn accumulator(self) -> (r: DType)
        ensures
            r == DType::F32,
    {
        DType::F32
    }

    /// Relative tolerance a kernel in this format is checked against.
    pub open spec fn tolerance(self) -> Ratio {
        match self {
            DType::F32 => Ratio { part: 1, whole: 1_000_000 },
            DType::F16 => Ratio { part: 1, whole: 1_000 },
            DType::BF16 => Ratio { part: 8, whole: 1_000 },
            DType::F8E4M3 => Ratio { part: 6, whole: 100 },
            DType::F8E5M2 => Ratio { part: 6, whole: 100 },
            DType::I8 => Ratio { part: 6, whole: 100 },
            DType::I4 => Ratio { part: 15, whole: 100 },
        }
    }

    /// Relative tolerance a kernel in this format is checked against.
    ///
    /// These are thresholds, not measurements: a kernel whose output drifts
    /// further than this from single precision is rejected regardless of how
    /// fast it is.
    pub fn default_rtol(self) -> (r: Ratio)
        ensures
            r == self.tolerance(),
    {
        match self {
            DType::F32 => Ratio { part: 1, whole: 1_000_000 },
            DType::F16 => Ratio { part: 1, whole: 1_000 },
            DType::BF16 => Ratio { part: 8, whole: 1_000 },
            DType::F8E4M3 => Ratio { part: 6, whole: 100 },
            DType::F8E5M2 => Ratio { part: 6, whole: 100 },
            DType::I8 => Ratio { part: 6, whole: 100 },
            DType::I4 => Ratio { part: 15, whole: 100 },
        }
    }
}

/// How weights are stored, including the overhead of quantization metadata.
#[derive(Debug, Clone, Copy, PartialEq, Eq, Structural)]
pub struct WeightFormat {
    pub dtype: DType,
    /// Elements sharing one scale. `None` means per-tensor scaling.
    pub group_size: Option<usize>,
    /// Whether each group also carries a zero point (asymmetric quantization).
    pub zero_point: bool,
    /// Scales and zero points are kept in this format.
    pub scale_dtype: DType,
}

impl WeightFormat {
    /// A group, where there are groups, has a member.
    pub open spec fn wf(self) -> bool {
        self.group_size != Some(0usize)
    }

    /// Bytes of metadata that each group carries.
    pub open spec fn group_overhead(self) -> nat {
        self.scale_dtype.size_of(1) * if self.zero_point {
            2nat
        } else {
            1nat
        }
    }

    /// Bytes that `n` weights take, with scales and zero points.
    pub open spec fn size_of(self, n: nat) -> nat {
        match self.group_size {
            None => self.dtype.size_of(n),
            Some(group) => self.dtype.size_of(n) + ceil_div(n, group as nat)
                * self.group_overhead(),
        }
    }

    /// The size of `n` weights can be computed on this machine.
    pub open spec fn sizeable(self, n: nat) -> bool {
        n * self.dtype.width() <= usize::MAX && self.size_of(n) <= usize::MAX
    }

    pub fn dense(dtype: DType) -> (r: Self)
        ensures
            r == (WeightFormat {
                dtype,
                group_size: None,
                zero_point: false,
                scale_dtype: DType::F16,
            }),
    {
        WeightFormat { dtype, group_size: None, zero_point: false, scale_dtype: DType::F16 }
    }

    /// The common 4-bit setup: 128-element groups, each with an FP16 scale and
    /// an FP16 zero point.
    pub fn w4_g128() -> (r: Self)
        ensures
            r == (WeightFormat {
                dtype: DType::I4,
                group_size: Some(128),
                zero_point: true,
                scale_dtype: DType::F16,
            }),
    {
        WeightFormat {
            dtype: DType::I4,
            group_size: Some(128),
            zero_point: true,
            scale_dtype: DType::F16,
        }
    }

    pub fn w8_per_tensor(dtype: DType) -> (r: Self)
        ensures
            r == (WeightFormat {
                dtype,
                group_size: None,
                zero_point: false,
                scale_dtype: DType::F32,
            }),
    {
        WeightFormat { dtype, group_size: None, zero_point: false, scale_dtype: DType::F32 }
    }

    /// Storage cost of `n` weights, counting scales and zero points.
    ///
    /// Group metadata is not a rounding error at 4 bits: 128-element groups
    /// with FP16 scales and zero points add 4 bytes per 64 bytes of payload,
    /// which is over 6% on top of the nominal compression ratio.
    pub fn bytes_for(&self, n: usize) -> (r: usize)
        requires
            self.wf(),
            self.sizeable(n as nat),
        ensures
            r == self.size_of(n as nat),
    {
        let payload: usize = self.dtype.bytes_for(n);
        match self.group_size {
            None => payload,
            Some(group) => {
                let groups: usize = div_ceil(n, group);
                let copies: usize = if self.zero_point {
                    2
                } else {
                    1
                };
                let per_group: usize = self.scale_dtype.bytes_for(1) * copies;
                payload + groups * per_group
            },
        }
    }

    /// Whether the size of `n` weights can be computed on this machine.
    pub fn is_sizeable(&self, n: usize) -> (r: bool)
        requires
            self.wf(),
        ensures
            r == self.sizeable(n as nat),
    {
        let bits: u128 = n as u128 * self.dtype.bits() as u128;
        if bits > usize::MAX as u128 {
            return false;
        }
        let payload: usize = self.dtype.bytes_for(n);
        match self.group_size {
            None => true,
            Some(group) => {
                let groups: usize = div_ceil(n, group);
                let copies: usize = if self.zero_point {
                    2
                } else {
                    1
                };
                let per_group: usize = self.scale_dtype.bytes_for(1) * copies;
                assert(per_group <= 8);
                assert(groups as int * per_group as int <= groups as int * 8) by (nonlinear_arith)
                    requires
                        per_group <= 8,
                        groups >= 0,
                ;
                payload as u128 + groups as u128 * per_group as u128 <= usize::MAX as u128
            },
        }
    }

    /// Effective bits per weight once metadata is counted.
    pub fn effective_bits(&self, n: usize) -> (r: Ratio)
        requires
            self.wf(),
            self.sizeable(n as nat),
        ensures
            r == Ratio::share_spec((self.size_of(n as nat) * 8) as nat, n as nat),
    {
        Ratio::share(self.bytes_for(n) as u128 * 8, n as u128)
    }
}

/// Group metadata is never free: `n` weights in groups take more than their
/// packed bits.
pub proof fn law_groups_cost_more_than_their_payload(f: WeightFormat, n: nat)
    requires
        f.wf(),
        f.group_size is Some,
        n > 0,
    ensures
        f.size_of(n) > f.dtype.size_of(n),
        f.size_of(n) * 8 > n * f.dtype.width(),
{
    let group = f.group_size->0 as nat;
    assert(ceil_div(n, group) >= 1) by {
        if n % group == 0 {
            assert(n / group >= 1) by (nonlinear_arith)
                requires
                    n > 0,
                    group > 0,
                    n % group == 0,
            ;
        } else {
            assert(n / group >= 0) by (nonlinear_arith)
                requires
                    n > 0,
                    group > 0,
            ;
        }
    }
    assert(f.scale_dtype.size_of(1) >= 1);
    assert(f.group_overhead() >= 1);
    let groups = ceil_div(n, group);
    let each = f.group_overhead();
    assert(groups * each >= 1) by (nonlinear_arith)
        requires
            groups >= 1,
            each >= 1,
    ;
}

/// Formats without groups carry no overhead: `n` weights take their packed bits,
/// rounded up to a byte.
pub proof fn law_per_tensor_formats_carry_no_overhead(f: WeightFormat, n: nat)
    requires
        f.group_size is None,
    ensures
        f.size_of(n) == f.dtype.size_of(n),
        n * f.dtype.width() <= f.size_of(n) * 8 < n * f.dtype.width() + 8,
{
}

} // verus!
