//! How a deployment is put together from what it is asked for.
use vstd::prelude::*;

use crate::backend::remote::{WorkerInfo, WorkerView};
use crate::engine::EngineConfig;
use crate::json::{json_of_text, members_of};
use crate::kvcache::cache::KvCacheConfig;
use crate::model::config::{hf_model, ModelView};
use crate::model::dtype::ceil_div;
use crate::model::figures::law_elements_are_packed;
use crate::model::presets::{
    llama3_405b, llama3_70b, llama3_8b, llama_shape, mixtral_8x22b, mixtral_8x7b, mixtral_shape,
    GpuProfile, GpuView, A100_80GB, H100_80GB, H200_141GB, L40S_48GB,
};
use crate::model::{DType, ModelConfig, ParallelConfig, WeightFormat};
use crate::number::Fraction;
use crate::sched::SchedulerConfig;
use crate::text::{decimal, push_decimal};

verus! {

/// A built-in model shape.
#[derive(Debug, Clone, Copy, PartialEq, Eq, Structural)]
pub enum ModelArg {
    Llama3_8b,
    Llama3_70b,
    Llama3_405b,
    Mixtral8x7b,
    Mixtral8x22b,
}

/// An accelerator.
#[derive(Debug, Clone, Copy, PartialEq, Eq, Structural)]
pub enum GpuArg {
    A100,
    H100,
    H200,
    L40s,
}

/// How weights are stored.
#[derive(Debug, Clone, Copy, PartialEq, Eq, Structural)]
pub enum WeightArg {
    Bf16,
    Fp8,
    Int4,
}

/// How the KV cache is stored.
#[derive(Debug, Clone, Copy, PartialEq, Eq, Structural)]
pub enum KvArg {
    Bf16,
    Fp8,
}

/// What a deployment is asked for.
#[derive(Debug, Clone, Copy, PartialEq, Eq, Structural)]
pub struct Args {
    /// Built-in model shape to serve.
    pub model: ModelArg,
    /// Accelerator the deployment is planned against.
    pub gpu: GpuArg,
    /// Tensor parallel degree.
    pub tp: usize,
    /// Pipeline parallel degree.
    pub pp: usize,
    /// Expert parallel degree. MoE models only.
    pub ep: usize,
    pub weights: WeightArg,
    pub kv_cache: KvArg,
    /// Tokens per KV block.
    pub block_size: usize,
    /// Override the planned block count. Normally derived from device memory.
    pub num_blocks: Option<usize>,
    /// Token budget per forward pass.
    pub max_batch_tokens: usize,
    /// Sequence budget per forward pass.
    pub max_batch_seqs: usize,
    /// Longest prompt plus completion accepted.
    pub max_model_len: usize,
    /// Requests accepted before the server tells clients to back off.
    pub max_queued: usize,
    /// Pace the simulated backend to its modelled latency instead of running
    /// as fast as the host allows.
    pub realtime: bool,
}

impl ModelArg {
    /// The shape that the argument stands for.
    pub open spec fn shape(self) -> ModelView {
        match self {
            ModelArg::Llama3_8b => llama_shape("llama-3.1-8b"@, 32, 4096, 32, 8, 14_336),
            ModelArg::Llama3_70b => llama_shape("llama-3.1-70b"@, 80, 8192, 64, 8, 28_672),
            ModelArg::Llama3_405b => llama_shape("llama-3.1-405b"@, 126, 16_384, 128, 8, 53_248),
            ModelArg::Mixtral8x7b => mixtral_shape("mixtral-8x7b"@, 32, 4096, 32, 14_336),
            ModelArg::Mixtral8x22b => mixtral_shape("mixtral-8x22b"@, 56, 6144, 48, 16_384),
        }
    }
}

impl GpuArg {
    /// The accelerator that the argument stands for.
    pub open spec fn profile(self) -> GpuView {
        match self {
            GpuArg::A100 => GpuView {
                name: "A100-SXM-80GB"@,
                memory_bytes: 85_899_345_920,
                hbm_bandwidth_bytes_per_s: 2_039_000_000_000,
                bf16_flops_per_s: 312_000_000_000_000,
                nvlink: true,
            },
            GpuArg::H100 => GpuView {
                name: "H100-SXM-80GB"@,
                memory_bytes: 85_899_345_920,
                hbm_bandwidth_bytes_per_s: 3_350_000_000_000,
                bf16_flops_per_s: 989_000_000_000_000,
                nvlink: true,
            },
            GpuArg::H200 => GpuView {
                name: "H200-SXM-141GB"@,
                memory_bytes: 141_000_000_000,
                hbm_bandwidth_bytes_per_s: 4_800_000_000_000,
                bf16_flops_per_s: 989_000_000_000_000,
                nvlink: true,
            },
            GpuArg::L40s => GpuView {
                name: "L40S-48GB"@,
                memory_bytes: 51_539_607_552,
                hbm_bandwidth_bytes_per_s: 864_000_000_000,
                bf16_flops_per_s: 362_000_000_000_000,
                nvlink: false,
            },
        }
    }
}

impl WeightArg {
    /// The format that the argument stands for.
    pub open spec fn format(self) -> WeightFormat {
        match self {
            WeightArg::Bf16 => WeightFormat {
                dtype: DType::BF16,
                group_size: None,
                zero_point: false,
                scale_dtype: DType::F16,
            },
            WeightArg::Fp8 => WeightFormat {
                dtype: DType::F8E4M3,
                group_size: None,
                zero_point: false,
                scale_dtype: DType::F32,
            },
            WeightArg::Int4 => WeightFormat {
                dtype: DType::I4,
                group_size: Some(128),
                zero_point: true,
                scale_dtype: DType::F16,
            },
        }
    }
}

impl KvArg {
    /// The number format that the argument stands for.
    pub open spec fn dtype(self) -> DType {
        match self {
            KvArg::Bf16 => DType::BF16,
            KvArg::Fp8 => DType::F8E4M3,
        }
    }
}

/// The model with room for contexts of that length.
pub open spec fn with_context(m: ModelView, max_model_len: usize) -> ModelView {
    ModelView {
        max_position_embeddings: if m.max_position_embeddings >= max_model_len {
            m.max_position_embeddings
        } else {
            max_model_len
        },
        ..m
    }
}

/// What a model is served as, or the first thing that is wrong with it.
pub open spec fn served(m: ModelView, max_model_len: usize) -> std::result::Result<
    ModelView,
    Seq<char>,
> {
    match with_context(m, max_model_len).fault() {
        Some(why) => Err(why),
        None => Ok(with_context(m, max_model_len)),
    }
}

/// The result is that model, or that reason.
pub open spec fn yields(
    r: std::result::Result<ModelConfig, String>,
    m: std::result::Result<ModelView, Seq<char>>,
) -> bool {
    match r {
        Ok(config) => m == Ok::<ModelView, Seq<char>>(config@),
        Err(why) => m == Err::<ModelView, Seq<char>>(why@),
    }
}

/// Why a worker does not fit what was planned, if it does not. The capacity
/// plan and the KV cache sizing would both be wrong under another degree.
pub open spec fn worker_fault(info: WorkerView, tp: usize, block_size: usize) -> Option<Seq<char>> {
    if info.tensor_parallel_size != tp {
        Some(
            "tensor parallel mismatch: this server planned tp="@ + decimal(tp as nat)
                + " but the worker is sharded across "@ + decimal(info.tensor_parallel_size as nat)
                + " ranks. The capacity plan and the KV cache sizing would both be wrong. Relaunch the worker with `torchrun --nproc_per_node="@
                + decimal(tp as nat) + "`, or pass --tp "@ + decimal(
                info.tensor_parallel_size as nat,
            ) + "."@,
        )
    } else if info.block_size != block_size {
        Some(
            "block size mismatch: the server plans "@ + decimal(block_size as nat)
                + " tokens per block, the worker allocated "@ + decimal(info.block_size as nat)
                + ". Restart one of them to agree."@,
        )
    } else {
        None
    }
}

impl Args {
    pub fn gpu(&self) -> (r: GpuProfile)
        ensures
            r@ == self.gpu.profile(),
    {
        match self.gpu {
            GpuArg::A100 => A100_80GB(),
            GpuArg::H100 => H100_80GB(),
            GpuArg::H200 => H200_141GB(),
            GpuArg::L40s => L40S_48GB(),
        }
    }

    pub fn weight_format(&self) -> (r: WeightFormat)
        ensures
            r == self.weights.format(),
    {
        match self.weights {
            WeightArg::Bf16 => WeightFormat::dense(DType::BF16),
            WeightArg::Fp8 => WeightFormat::w8_per_tensor(DType::F8E4M3),
            WeightArg::Int4 => WeightFormat::w4_g128(),
        }
    }

    pub fn kv_dtype(&self) -> (r: DType)
        ensures
            r == self.kv_cache.dtype(),
    {
        match self.kv_cache {
            KvArg::Bf16 => DType::BF16,
            KvArg::Fp8 => DType::F8E4M3,
        }
    }

    pub fn parallel(&self) -> (r: ParallelConfig)
        ensures
            r == (ParallelConfig { tensor: self.tp, pipeline: self.pp, expert: self.ep }),
    {
        ParallelConfig { tensor: self.tp, pipeline: self.pp, expert: self.ep }
    }

    /// The model to serve: the one that a checkpoint's `config.json` describes,
    /// where its text is given, and the built-in shape otherwise. It is given
    /// room for the contexts that are accepted.
    pub fn model_config(&self, json: Option<&str>) -> (r: std::result::Result<ModelConfig, String>)
        ensures
            match json {
                None => yields(
                    r,
                    served(
                        ModelView {
                            weights: self.weights.format(),
                            kv_dtype: self.kv_cache.dtype(),
                            ..self.model.shape()
                        },
                        self.max_model_len,
                    ),
                ),
                Some(text) => match json_of_text(text@) {
                    Err(why) => r is Err && r->Err_0@ == why,
                    Ok(doc) => match hf_model(
                        members_of(doc),
                        self.weights.format(),
                        self.kv_cache.dtype(),
                    ) {
                        Err(why) => r is Err && r->Err_0@ == why,
                        Ok(m) => yields(r, served(m, self.max_model_len)),
                    },
                },
            },
    {
        match json {
            Some(text) => match ModelConfig::from_hf_config(
                text,
                self.weight_format(),
                self.kv_dtype(),
            ) {
                Ok(cfg) => self.finish_model(cfg),
                Err(e) => Err(e),
            },
            None => {
                let mut cfg = match self.model {
                    ModelArg::Llama3_8b => llama3_8b(),
                    ModelArg::Llama3_70b => llama3_70b(),
                    ModelArg::Llama3_405b => llama3_405b(),
                    ModelArg::Mixtral8x7b => mixtral_8x7b(),
                    ModelArg::Mixtral8x22b => mixtral_8x22b(),
                };
                cfg.weights = self.weight_format();
                cfg.kv_dtype = self.kv_dtype();
                self.finish_model(cfg)
            },
        }
    }

    /// The model with room for the contexts that are accepted, where it is
    /// valid.
    pub fn finish_model(&self, model: ModelConfig) -> (r: std::result::Result<ModelConfig, String>)
        ensures
            yields(r, served(model@, self.max_model_len)),
    {
        let mut cfg = model;
        if cfg.max_position_embeddings < self.max_model_len {
            cfg.max_position_embeddings = self.max_model_len;
        }
        assert(cfg@ == with_context(model@, self.max_model_len));
        match cfg.validate() {
            Ok(_) => Ok(cfg),
            Err(e) => Err(e),
        }
    }

    /// The block count of a simulated deployment: the planned one, unless
    /// another was asked for.
    pub fn blocks(&self, planned: usize) -> (r: usize)
        ensures
            r == match self.num_blocks {
                Some(n) => n,
                None => planned,
            },
    {
        match self.num_blocks {
            Some(n) => n,
            None => planned,
        }
    }

    /// How the engine is set up over a pool of that many blocks.
    pub fn engine_config(&self, blocks: usize) -> (r: EngineConfig)
        ensures
            r == (EngineConfig {
                scheduler: SchedulerConfig {
                    max_batch_seqs: self.max_batch_seqs,
                    max_batch_tokens: self.max_batch_tokens,
                    max_model_len: self.max_model_len,
                    watermark: Fraction { num: 1, den: 100 },
                    chunked_prefill: true,
                },
                cache: KvCacheConfig { num_blocks: blocks, block_size: self.block_size },
                max_queued_requests: self.max_queued,
                realtime: self.realtime,
                base_seed: 0x5721_9A3C_11FF_0042,
            }),
    {
        let d = EngineConfig::default();
        EngineConfig {
            scheduler: SchedulerConfig {
                max_batch_seqs: self.max_batch_seqs,
                max_batch_tokens: self.max_batch_tokens,
                max_model_len: self.max_model_len,
                watermark: Fraction { num: 1, den: 100 },
                chunked_prefill: true,
            },
            cache: KvCacheConfig { num_blocks: blocks, block_size: self.block_size },
            max_queued_requests: self.max_queued,
            realtime: self.realtime,
            base_seed: d.base_seed,
        }
    }

    /// Check a worker against what was planned.
    pub fn check_worker(&self, info: &WorkerInfo) -> (r: std::result::Result<(), String>)
        ensures
            match r {
                Ok(_) => worker_fault(info@, self.tp, self.block_size) is None,
                Err(e) => worker_fault(info@, self.tp, self.block_size) == Some(e@),
            },
    {
        if info.tensor_parallel_size != self.tp {
            let mut e = String::from_str("tensor parallel mismatch: this server planned tp=");
            push_decimal(&mut e, self.tp as u64);
            e.append(" but the worker is sharded across ");
            push_decimal(&mut e, info.tensor_parallel_size as u64);
            e.append(
                " ranks. The capacity plan and the KV cache sizing would both be wrong. Relaunch the worker with `torchrun --nproc_per_node=",
            );
            push_decimal(&mut e, self.tp as u64);
            e.append("`, or pass --tp ");
            push_decimal(&mut e, info.tensor_parallel_size as u64);
            e.append(".");
            return Err(e);
        }
        if info.block_size != self.block_size {
            let mut e = String::from_str("block size mismatch: the server plans ");
            push_decimal(&mut e, self.block_size as u64);
            e.append(" tokens per block, the worker allocated ");
            push_decimal(&mut e, info.block_size as u64);
            e.append(". Restart one of them to agree.");
            return Err(e);
        }
        Ok(())
    }
}

/// What a vocabulary that differs from the worker's is worth saying.
pub open spec fn vocabulary_spec(tokenizer: usize, worker: usize) -> Option<Seq<char>> {
    if tokenizer == worker {
        None
    } else {
        Some(
            "tokenizer vocabulary is "@ + decimal(tokenizer as nat) + " but the worker reports "@
                + decimal(worker as nat) + "; ids near the boundary may not round-trip"@,
        )
    }
}

/// A warning where the tokenizer and the worker disagree on the vocabulary.
pub fn vocabulary_warning(tokenizer: usize, worker: usize) -> (r: Option<String>)
    ensures
        match r {
            Some(text) => vocabulary_spec(tokenizer, worker) == Some(text@),
            None => vocabulary_spec(tokenizer, worker) is None,
        },
{
    if tokenizer == worker {
        return None;
    }
    let mut out = String::from_str("tokenizer vocabulary is ");
    push_decimal(&mut out, tokenizer as u64);
    out.append(" but the worker reports ");
    push_decimal(&mut out, worker as u64);
    out.append("; ids near the boundary may not round-trip");
    Some(out)
}

/// A model that is served is valid and has room for the contexts that are
/// accepted.
pub proof fn law_a_served_model_has_room(m: ModelView, max_model_len: usize)
    requires
        served(m, max_model_len) is Ok,
    ensures
        served(m, max_model_len)->Ok_0.fault() is None,
        served(m, max_model_len)->Ok_0.max_position_embeddings >= max_model_len,
        served(m, max_model_len)->Ok_0.max_position_embeddings >= m.max_position_embeddings,
{
}

/// Every built-in shape can be served, in every format and at every length.
pub proof fn law_every_built_in_shape_is_served(args: Args)
    ensures
        served(
            ModelView {
                weights: args.weights.format(),
                kv_dtype: args.kv_cache.dtype(),
                ..args.model.shape()
            },
            args.max_model_len,
        ) is Ok,
{
}

/// A model is served as it is, but for its longest context, which is raised to what
/// is accepted where it falls short; and it is served exactly where it is valid.
pub proof fn law_a_model_is_served_as_it_is(m: ModelView, max_model_len: usize)
    ensures
        served(m, max_model_len) is Ok <==> m.fault() is None,
        served(m, max_model_len) matches Ok(s) ==> {
            &&& s.name == m.name
            &&& s.num_layers == m.num_layers
            &&& s.hidden_size == m.hidden_size
            &&& s.attention == m.attention
            &&& s.ffn == m.ffn
            &&& s.vocab_size == m.vocab_size
            &&& s.tie_word_embeddings == m.tie_word_embeddings
            &&& s.weights == m.weights
            &&& s.kv_dtype == m.kv_dtype
            &&& m.max_position_embeddings >= max_model_len ==> s.max_position_embeddings
                == m.max_position_embeddings
            &&& m.max_position_embeddings < max_model_len ==> s.max_position_embeddings
                == max_model_len
        },
        served(m, max_model_len) matches Err(why) ==> m.fault() == Some(why),
{
}

/// A worker fits exactly where it is sharded as planned and has blocks of the
/// planned size.
pub proof fn law_a_worker_fits_what_was_planned(info: WorkerView, tp: usize, block_size: usize)
    ensures
        worker_fault(info, tp, block_size) is None <==> info.tensor_parallel_size == tp
            && info.block_size == block_size,
{
}

/// Vocabularies are remarked on exactly where they differ.
pub proof fn law_only_different_vocabularies_are_remarked_on(tokenizer: usize, worker: usize)
    ensures
        vocabulary_spec(tokenizer, worker) is Some <==> tokenizer != worker,
{
}

/// The formats on offer: two bytes a weight; one byte; or half a byte, with four
/// bytes for every 128 weights. A cache entry takes two bytes or one.
pub proof fn law_formats_cost_what_they_are_called(n: nat)
    ensures
        WeightArg::Bf16.format().size_of(n) == 2 * n,
        WeightArg::Fp8.format().size_of(n) == n,
        WeightArg::Int4.format().size_of(256 * n) == 128 * n + 8 * n,
        KvArg::Bf16.dtype().size_of(n) == 2 * n,
        KvArg::Fp8.dtype().size_of(n) == n,
        WeightArg::Bf16.format().wf(),
        WeightArg::Fp8.format().wf(),
        WeightArg::Int4.format().wf(),
{
    law_elements_are_packed(DType::BF16, n);
    law_elements_are_packed(DType::F8E4M3, n);
    law_elements_are_packed(DType::I4, 256 * n);
    law_elements_are_packed(DType::F16, 1);
    assert((256 * n) / 128 == 2 * n && (256 * n) % 128 == 0);
    assert(ceil_div(256 * n, 128) == 2 * n);
    assert(WeightArg::Int4.format().group_overhead() == 4);
}

/// A card that is named for its memory has it, in gibibytes, or in the vendor's
/// gigabytes for the largest.
pub proof fn law_cards_have_the_memory_they_are_named_for()
    ensures
        GpuArg::A100.profile().memory_bytes == 80 * 1_073_741_824,
        GpuArg::H100.profile().memory_bytes == 80 * 1_073_741_824,
        GpuArg::H200.profile().memory_bytes == 141 * 1_000_000_000,
        GpuArg::L40s.profile().memory_bytes == 48 * 1_073_741_824,
{
}

/// A worker that is sharded otherwise is told of that first, and then of its block
/// size, with both numbers.
pub proof fn law_a_worker_is_told_how_it_differs(info: WorkerView, tp: usize, block_size: usize)
    ensures
        info.tensor_parallel_size == tp && info.block_size != block_size ==> worker_fault(
            info,
            tp,
            block_size,
        ) == Some(
            "block size mismatch: the server plans "@ + decimal(block_size as nat)
                + " tokens per block, the worker allocated "@ + decimal(info.block_size as nat)
                + ". Restart one of them to agree."@,
        ),
        info.tensor_parallel_size != tp ==> worker_fault(info, tp, block_size) == Some(
            "tensor parallel mismatch: this server planned tp="@ + decimal(tp as nat)
                + " but the worker is sharded across "@ + decimal(info.tensor_parallel_size as nat)
                + " ranks. The capacity plan and the KV cache sizing would both be wrong. Relaunch the worker with `torchrun --nproc_per_node="@
                + decimal(tp as nat) + "`, or pass --tp "@ + decimal(
                info.tensor_parallel_size as nat,
            ) + "."@,
        ),
{
}

} // verus!
