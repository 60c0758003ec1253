//! Reference model shapes and accelerator profiles.
//!
//! Model presets are *shapes*, kept here so the planner can be exercised
//! without a checkpoint on disk. They are not a substitute for
//! [`ModelConfig::from_hf_config`] — the tests check each preset reproduces its
//! published parameter count, which catches a typo but not a checkpoint that
//! has since changed.
//!
//! GPU profiles carry vendor peak figures. Peak numbers are ceilings, not
//! expectations: real kernels reach a fraction of them. They are used here only
//! for capacity planning arithmetic, and every field should be replaced with a
//! value measured on your own fleet before it informs a scheduling decision.
use vstd::prelude::*;

use super::config::{AttentionConfig, FeedForward, ModelConfig, ModelView};
use super::dtype::{DType, WeightFormat};

verus! {

/// The shape of a Llama model.
pub open spec fn llama_shape(
    name: Seq<char>,
    num_layers: usize,
    hidden_size: usize,
    num_q_heads: usize,
    num_kv_heads: usize,
    intermediate_size: usize,
) -> ModelView {
    ModelView {
        name,
        num_layers,
        hidden_size,
        attention: AttentionConfig { num_q_heads, num_kv_heads, head_dim: 128 },
        ffn: FeedForward::Dense { intermediate_size },
        vocab_size: 128_256,
        tie_word_embeddings: false,
        max_position_embeddings: 131_072,
        weights: WeightFormat {
            dtype: DType::BF16,
            group_size: None,
            zero_point: false,
            scale_dtype: DType::F16,
        },
        kv_dtype: DType::BF16,
    }
}

/// The shape of a Mixtral model.
pub open spec fn mixtral_shape(
    name: Seq<char>,
    num_layers: usize,
    hidden_size: usize,
    num_q_heads: usize,
    expert_intermediate_size: usize,
) -> ModelView {
    ModelView {
        name,
        num_layers,
        hidden_size,
        attention: AttentionConfig { num_q_heads, num_kv_heads: 8, head_dim: 128 },
        ffn: FeedForward::Moe {
            num_experts: 8,
            experts_per_token: 2,
            expert_intermediate_size,
            shared_experts: 0,
        },
        vocab_size: 32_000,
        tie_word_embeddings: false,
        max_position_embeddings: 65_536,
        weights: WeightFormat {
            dtype: DType::BF16,
            group_size: None,
            zero_point: false,
            scale_dtype: DType::F16,
        },
        kv_dtype: DType::BF16,
    }
}

fn llama_like(
    name: &str,
    num_layers: usize,
    hidden_size: usize,
    num_q_heads: usize,
    num_kv_heads: usize,
    intermediate_size: usize,
) -> (r: ModelConfig)
    ensures
        r@ == llama_shape(
            name@,
            num_layers,
            hidden_size,
            num_q_heads,
            num_kv_heads,
            intermediate_size,
        ),
{
    ModelConfig {
        name: String::from_str(name),
        num_layers,
        hidden_size,
        attention: AttentionConfig { num_q_heads, num_kv_heads, head_dim: 128 },
        ffn: FeedForward::Dense { intermediate_size },
        vocab_size: 128_256,
        tie_word_embeddings: false,
        max_position_embeddings: 131_072,
        weights: WeightFormat::dense(DType::BF16),
        kv_dtype: DType::BF16,
    }
}

fn mixtral_like(
    name: &str,
    num_layers: usize,
    hidden_size: usize,
    num_q_heads: usize,
    expert_intermediate_size: usize,
) -> (r: ModelConfig)
    ensures
        r@ == mixtral_shape(name@, num_layers, hidden_size, num_q_heads, expert_intermediate_size),
{
    ModelConfig {
        name: String::from_str(name),
        num_layers,
        hidden_size,
        attention: AttentionConfig { num_q_heads, num_kv_heads: 8, head_dim: 128 },
        ffn: FeedForward::Moe {
            num_experts: 8,
            experts_per_token: 2,
            expert_intermediate_size,
            shared_experts: 0,
        },
        vocab_size: 32_000,
        tie_word_embeddings: false,
        max_position_embeddings: 65_536,
        weights: WeightFormat::dense(DType::BF16),
        kv_dtype: DType::BF16,
    }
}

pub fn llama3_8b() -> (r: ModelConfig)
    ensures
        r@ == llama_shape("llama-3.1-8b"@, 32, 4096, 32, 8, 14_336),
{
    llama_like("llama-3.1-8b", 32, 4096, 32, 8, 14_336)
}

pub fn llama3_70b() -> (r: ModelConfig)
    ensures
        r@ == llama_shape("llama-3.1-70b"@, 80, 8192, 64, 8, 28_672),
{
    llama_like("llama-3.1-70b", 80, 8192, 64, 8, 28_672)
}

pub fn llama3_405b() -> (r: ModelConfig)
    ensures
        r@ == llama_shape("llama-3.1-405b"@, 126, 16_384, 128, 8, 53_248),
{
    llama_like("llama-3.1-405b", 126, 16_384, 128, 8, 53_248)
}

pub fn mixtral_8x7b() -> (r: ModelConfig)
    ensures
        r@ == mixtral_shape("mixtral-8x7b"@, 32, 4096, 32, 14_336),
{
    mixtral_like("mixtral-8x7b", 32, 4096, 32, 14_336)
}

pub fn mixtral_8x22b() -> (r: ModelConfig)
    ensures
        r@ == mixtral_shape("mixtral-8x22b"@, 56, 6144, 48, 16_384),
{
    mixtral_like("mixtral-8x22b", 56, 6144, 48, 16_384)
}

pub fn all() -> (r: Vec<ModelConfig>)
    ensures
        r@.len() == 5,
        r@[0]@ == llama_shape("llama-3.1-8b"@, 32, 4096, 32, 8, 14_336),
        r@[1]@ == llama_shape("llama-3.1-70b"@, 80, 8192, 64, 8, 28_672),
        r@[2]@ == llama_shape("llama-3.1-405b"@, 126, 16_384, 128, 8, 53_248),
        r@[3]@ == mixtral_shape("mixtral-8x7b"@, 32, 4096, 32, 14_336),
        r@[4]@ == mixtral_shape("mixtral-8x22b"@, 56, 6144, 48, 16_384),
{
    let mut r: Vec<ModelConfig> = Vec::with_capacity(5);
    r.push(llama3_8b());
    r.push(llama3_70b());
    r.push(llama3_405b());
    r.push(mixtral_8x7b());
    r.push(mixtral_8x22b());
    r
}

/// One accelerator's capacity, as published by the vendor.
#[derive(Debug, Clone, Copy, PartialEq)]
pub struct GpuProfile {
    pub name: &'static str,
    pub memory_bytes: u64,
    /// Peak HBM bandwidth. Decode is bandwidth-bound, so this sets the ceiling
    /// on tokens per second far more often than the FLOP number does.
    pub hbm_bandwidth_bytes_per_s: u64,
    /// Dense BF16 tensor-core peak, without sparsity.
    pub bf16_flops_per_s: u64,
    /// Whether ranks on this part are expected to be NVLink-connected.
    pub nvlink: bool,
}

/// An accelerator's capacity, as values.
#[verifier::ext_equal]
pub struct GpuView {
    pub name: Seq<char>,
    pub memory_bytes: u64,
    pub hbm_bandwidth_bytes_per_s: u64,
    pub bf16_flops_per_s: u64,
    pub nvlink: bool,
}

impl View for GpuProfile {
    type V = GpuView;

    open spec fn view(&self) -> GpuView {
        GpuView {
            name: self.name@,
            memory_bytes: self.memory_bytes,
            hbm_bandwidth_bytes_per_s: self.hbm_bandwidth_bytes_per_s,
            bf16_flops_per_s: self.bf16_flops_per_s,
            nvlink: self.nvlink,
        }
    }
}

#[allow(non_snake_case)]
pub fn A100_80GB() -> (r: GpuProfile)
    ensures
        r@ == (GpuView {
            name: "A100-SXM-80GB"@,
            memory_bytes: 85_899_345_920,
            hbm_bandwidth_bytes_per_s: 2_039_000_000_000,
            bf16_flops_per_s: 312_000_000_000_000,
            nvlink: true,
        }),
{
    GpuProfile {
        name: "A100-SXM-80GB",
        memory_bytes: 80 * 1024 * 1024 * 1024,
        hbm_bandwidth_bytes_per_s: 2_039_000_000_000,
        bf16_flops_per_s: 312_000_000_000_000,
        nvlink: true,
    }
}

#[allow(non_snake_case)]
pub fn H100_80GB() -> (r: GpuProfile)
    ensures
        r@ == (GpuView {
            name: "H100-SXM-80GB"@,
            memory_bytes: 85_899_345_920,
            hbm_bandwidth_bytes_per_s: 3_350_000_000_000,
            bf16_flops_per_s: 989_000_000_000_000,
            nvlink: true,
        }),
{
    GpuProfile {
        name: "H100-SXM-80GB",
        memory_bytes: 80 * 1024 * 1024 * 1024,
        hbm_bandwidth_bytes_per_s: 3_350_000_000_000,
        bf16_flops_per_s: 989_000_000_000_000,
        nvlink: true,
    }
}

#[allow(non_snake_case)]
pub fn H200_141GB() -> (r: GpuProfile)
    ensures
        r@ == (GpuView {
            name: "H200-SXM-141GB"@,
            memory_bytes: 141_000_000_000,
            hbm_bandwidth_bytes_per_s: 4_800_000_000_000,
            bf16_flops_per_s: 989_000_000_000_000,
            nvlink: true,
        }),
{
    GpuProfile {
        name: "H200-SXM-141GB",
        memory_bytes: 141 * 1000 * 1000 * 1000,
        hbm_bandwidth_bytes_per_s: 4_800_000_000_000,
        bf16_flops_per_s: 989_000_000_000_000,
        nvlink: true,
    }
}

#[allow(non_snake_case)]
pub fn L40S_48GB() -> (r: GpuProfile)
    ensures
        r@ == (GpuView {
            name: "L40S-48GB"@,
            memory_bytes: 51_539_607_552,
            hbm_bandwidth_bytes_per_s: 864_000_000_000,
            bf16_flops_per_s: 362_000_000_000_000,
            nvlink: false,
        }),
{
    GpuProfile {
        name: "L40S-48GB",
        memory_bytes: 48 * 1024 * 1024 * 1024,
        hbm_bandwidth_bytes_per_s: 864_000_000_000,
        bf16_flops_per_s: 362_000_000_000_000,
        nvlink: false,
    }
}

} // verus!
