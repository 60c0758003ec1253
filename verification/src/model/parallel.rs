//! Sharding plans across GPUs, and what each rank ends up holding.
use vstd::prelude::*;

use super::config::{gated, FeedForward, ModelConfig, ModelView};
use crate::text::{decimal, push_decimal};

verus! {

/// How a model is split across devices.
///
/// Tensor and pipeline parallelism multiply into the world size. Expert
/// parallelism overlays that grid rather than extending it: EP ranks are drawn
/// from the same devices, each holding a slice of the expert set.
#[derive(Debug, Clone, Copy, PartialEq, Eq, Structural)]
pub struct ParallelConfig {
    /// Splits every weight matrix across ranks. Cheap on NVLink, punishing
    /// across PCIe, because every layer ends in an all-reduce.
    pub tensor: usize,
    /// Splits layers into stages. Adds no per-layer collective, but leaves
    /// bubbles unless enough microbatches are in flight.
    pub pipeline: usize,
    /// Splits MoE experts across ranks. Turns the FFN into an all-to-all.
    pub expert: usize,
}

impl Default for ParallelConfig {
    fn default() -> (r: Self)
        ensures
            r == (ParallelConfig { tensor: 1, pipeline: 1, expert: 1 }),
    {
        ParallelConfig { tensor: 1, pipeline: 1, expert: 1 }
    }
}

/// Weights of one layer by how ranks share them.
pub struct LayerShards {
    /// Split across the tensor group.
    pub by_tensor: nat,
    /// Split across the expert group.
    pub by_expert: nat,
    /// Held by every rank.
    pub replicated: nat,
}

/// How the weights of one layer are shared.
pub open spec fn layer_shards(m: ModelView) -> LayerShards {
    match m.ffn {
        FeedForward::Dense { intermediate_size } => LayerShards {
            by_tensor: m.attention_params() + gated(m.hidden(), intermediate_size as nat),
            by_expert: 0,
            replicated: 0,
        },
        FeedForward::Moe {
            num_experts,
            experts_per_token,
            expert_intermediate_size,
            shared_experts,
        } => {
            let per_expert = gated(m.hidden(), expert_intermediate_size as nat);
            LayerShards {
                by_tensor: m.attention_params() + per_expert * shared_experts as nat,
                by_expert: per_expert * num_experts as nat,
                replicated: m.hidden() * num_experts as nat,
            }
        },
    }
}

impl ParallelConfig {
    pub open spec fn world(self) -> nat {
        self.tensor as nat * self.pipeline as nat
    }

    /// Why the model cannot be split this way, if it cannot.
    pub open spec fn fault(self, m: ModelView) -> Option<Seq<char>> {
        if self.tensor == 0 || self.pipeline == 0 || self.expert == 0 {
            Some("parallel degrees must be at least 1"@)
        } else if m.attention.num_q_heads as int % self.tensor as int != 0 {
            Some(
                "tp="@ + decimal(self.tensor as nat) + ": "@ + decimal(
                    m.attention.num_q_heads as nat,
                ) + " query heads do not divide evenly"@,
            )
        } else if m.attention.num_kv_heads as int % self.tensor as int != 0 {
            Some(
                "tp="@ + decimal(self.tensor as nat) + ": "@ + decimal(
                    m.attention.num_kv_heads as nat,
                ) + " KV heads do not divide evenly. Either lower tp, or replicate KV heads and accept the duplicated cache"@,
            )
        } else if m.num_layers as int % self.pipeline as int != 0 {
            Some(
                "pp="@ + decimal(self.pipeline as nat) + ": "@ + decimal(m.num_layers as nat)
                    + " layers do not divide evenly"@,
            )
        } else {
            match m.ffn {
                FeedForward::Moe { num_experts, .. } => if num_experts as int % self.expert as int
                    != 0 {
                    Some(
                        "ep="@ + decimal(self.expert as nat) + ": "@ + decimal(num_experts as nat)
                            + " experts do not divide evenly"@,
                    )
                } else if self.expert > self.world() {
                    Some(
                        "ep="@ + decimal(self.expert as nat) + " exceeds the world size of "@
                            + decimal(self.world()),
                    )
                } else {
                    None
                },
                FeedForward::Dense { .. } => if self.expert > 1 {
                    Some("expert parallelism requires an MoE model"@)
                } else {
                    None
                },
            }
        }
    }

    /// Weights one rank holds.
    pub open spec fn rank_params(self, m: ModelView) -> nat {
        let s = layer_shards(m);
        let per_layer = s.by_tensor / self.tensor as nat + s.by_expert / self.expert as nat
            + s.replicated;
        per_layer * (m.num_layers as nat / self.pipeline as nat) + m.embedding_params()
            / self.tensor as nat
    }

    /// Bytes of weights one rank holds.
    pub open spec fn rank_weight_bytes(self, m: ModelView) -> nat {
        m.weights.size_of(self.rank_params(m))
    }

    /// KV-cache bytes one rank stores per token.
    pub open spec fn rank_kv_bytes(self, m: ModelView) -> nat {
        m.kv_bytes() / self.world()
    }

    /// The shares of the weights can be counted on this machine.
    pub open spec fn layers_fit(self, m: ModelView) -> bool {
        &&& m.attention_fits()
        &&& m.ffn.experts_fit(m.hidden())
        &&& m.layer_params() <= u64::MAX
        &&& m.embedding_params() <= u64::MAX
    }

    /// The weights a rank holds can be counted on this machine.
    pub open spec fn rank_sizeable(self, m: ModelView) -> bool {
        &&& self.layers_fit(m)
        &&& m.weights.wf()
        &&& self.rank_params(m) <= usize::MAX
        &&& m.weights.sizeable(self.rank_params(m))
    }

    pub fn tp(tensor: usize) -> (r: Self)
        ensures
            r == (ParallelConfig { tensor, pipeline: 1, expert: 1 }),
    {
        ParallelConfig { tensor, pipeline: 1, expert: 1 }
    }

    pub fn with_pipeline(self, pipeline: usize) -> (r: Self)
        ensures
            r == (ParallelConfig { pipeline, ..self }),
    {
        ParallelConfig { tensor: self.tensor, pipeline, expert: self.expert }
    }

    pub fn with_expert(self, expert: usize) -> (r: Self)
        ensures
            r == (ParallelConfig { expert, ..self }),
    {
        ParallelConfig { tensor: self.tensor, pipeline: self.pipeline, expert }
    }

    pub fn world_size(&self) -> (r: usize)
        requires
            self.world() <= usize::MAX,
        ensures
            r == self.world(),
    {
        self.tensor * self.pipeline
    }

    /// Reject plans the model geometry cannot support.
    ///
    /// These are hard divisibility constraints, not preferences. A plan that
    /// fails here would either crash at load time or silently replicate what
    /// it was asked to shard.
    pub fn validate(&self, model: &ModelConfig) -> (r: std::result::Result<(), String>)
        ensures
            match r {
                Ok(_) => self.fault(model@) is None,
                Err(e) => self.fault(model@) == Some(e@),
            },
    {
        if self.tensor == 0 || self.pipeline == 0 || self.expert == 0 {
            return Err(String::from_str("parallel degrees must be at least 1"));
        }
        if model.attention.num_q_heads % self.tensor != 0 {
            let mut e = String::from_str("tp=");
            push_decimal(&mut e, self.tensor as u64);
            e.append(": ");
            push_decimal(&mut e, model.attention.num_q_heads as u64);
            e.append(" query heads do not divide evenly");
            return Err(e);
        }
        if model.attention.num_kv_heads % self.tensor != 0 {
            let mut e = String::from_str("tp=");
            push_decimal(&mut e, self.tensor as u64);
            e.append(": ");
            push_decimal(&mut e, model.attention.num_kv_heads as u64);
            e.append(
                " KV heads do not divide evenly. Either lower tp, or replicate KV heads and accept the duplicated cache",
            );
            return Err(e);
        }
        if model.num_layers % self.pipeline != 0 {
            let mut e = String::from_str("pp=");
            push_decimal(&mut e, self.pipeline as u64);
            e.append(": ");
            push_decimal(&mut e, model.num_layers as u64);
            e.append(" layers do not divide evenly");
            return Err(e);
        }
        match model.ffn {
            FeedForward::Moe { num_experts, .. } => {
                if num_experts % self.expert != 0 {
                    let mut e = String::from_str("ep=");
                    push_decimal(&mut e, self.expert as u64);
                    e.append(": ");
                    push_decimal(&mut e, num_experts as u64);
                    e.append(" experts do not divide evenly");
                    return Err(e);
                }
                let world: Option<usize> = self.tensor.checked_mul(self.pipeline);
                if let Some(world) = world {
                    if self.expert > world {
                        let mut e = String::from_str("ep=");
                        push_decimal(&mut e, self.expert as u64);
                        e.append(" exceeds the world size of ");
                        push_decimal(&mut e, world as u64);
                        return Err(e);
                    }
                }
            },
            FeedForward::Dense { .. } => {
                if self.expert > 1 {
                    return Err(String::from_str("expert parallelism requires an MoE model"));
                }
            },
        }
        Ok(())
    }

    /// KV-cache bytes one rank stores per token.
    ///
    /// Tensor parallelism shards KV heads and pipeline parallelism shards
    /// layers, so both divide the per-token cost.
    pub fn kv_bytes_per_token_per_rank(&self, model: &ModelConfig) -> (r: u64)
        requires
            model@.kv_sizeable(),
            0 < self.world() <= usize::MAX,
        ensures
            r == self.rank_kv_bytes(model@),
    {
        model.kv_bytes_per_token() / (self.world_size() as u64)
    }

    /// What one rank holds of a layer, and of the embeddings.
    fn shares(&self, model: &ModelConfig) -> (r: (u64, u64))
        requires
            self.tensor > 0,
            self.expert > 0,
            self.layers_fit(model@),
        ensures
            r.0 as nat * (model.num_layers as nat / self.pipeline as nat) + r.1
                == self.rank_params(model@),
    {
        let ghost m = model@;
        let ghost shards = layer_shards(m);
        let h: u64 = model.hidden_size as u64;
        let q: u64 = model.attention.q_dim() as u64;
        let kv: u64 = model.attention.kv_dim() as u64;
        let attention: u64 = 2 * (h * q) + 2 * (h * kv);
        let (by_tensor, by_expert, replicated): (u64, u64, u64) = match model.ffn {
            FeedForward::Dense { intermediate_size } => {
                (attention + 3 * (h * intermediate_size as u64), 0, 0)
            },
            FeedForward::Moe { num_experts, expert_intermediate_size, shared_experts, .. } => {
                let per_expert: u64 = 3 * (h * expert_intermediate_size as u64);
                proof {
                    lemma_expert_shares(
                        per_expert as nat,
                        num_experts as nat,
                        shared_experts as nat,
                    );
                }
                (
                    attention + per_expert * (shared_experts as u64),
                    per_expert * (num_experts as u64),
                    h * (num_experts as u64),
                )
            },
        };
        assert(by_tensor == shards.by_tensor && by_expert == shards.by_expert && replicated
            == shards.replicated);
        proof {
            lemma_shards_fit(*self, m);
        }
        let per_layer: u64 = by_tensor / (self.tensor as u64) + by_expert / (self.expert as u64)
            + replicated;
        let one: u64 = model.vocab_size as u64 * h;
        let embeddings: u64 = if model.tie_word_embeddings {
            one
        } else {
            2 * one
        };
        (per_layer, embeddings / (self.tensor as u64))
    }

    /// Weights one rank holds.
    fn params_per_rank(&self, model: &ModelConfig) -> (r: u64)
        requires
            self.tensor > 0,
            self.pipeline > 0,
            self.expert > 0,
            self.layers_fit(model@),
            self.rank_params(model@) <= u64::MAX,
        ensures
            r == self.rank_params(model@),
    {
        let (per_layer, embeddings) = self.shares(model);
        let layers_here: u64 = (model.num_layers / self.pipeline) as u64;
        proof {
            assert(per_layer as nat * layers_here as nat >= 0);
        }
        per_layer * layers_here + embeddings
    }

    fn do_layers_fit(&self, model: &ModelConfig) -> (r: bool)
        ensures
            r == self.layers_fit(model@),
    {
        let attention: u64 = match model.count_attention() {
            Some(n) => n,
            None => return false,
        };
        if model.count_embeddings().is_none() {
            return false;
        }
        match model.ffn {
            FeedForward::Dense { intermediate_size } => match FeedForward::count_expert(
                model.hidden_size,
                intermediate_size,
            ) {
                Some(n) => attention.checked_add(n).is_some(),
                None => false,
            },
            FeedForward::Moe { num_experts, expert_intermediate_size, shared_experts, .. } => {
                let per_expert: u64 = match FeedForward::count_expert(
                    model.hidden_size,
                    expert_intermediate_size,
                ) {
                    Some(n) => n,
                    None => return false,
                };
                proof {
                    lemma_expert_shares(
                        per_expert as nat,
                        num_experts as nat,
                        shared_experts as nat,
                    );
                }
                let (routed, shared, router) = match (
                    per_expert.checked_mul(num_experts as u64),
                    per_expert.checked_mul(shared_experts as u64),
                    (model.hidden_size as u64).checked_mul(num_experts as u64),
                ) {
                    (Some(routed), Some(shared), Some(router)) => (routed, shared, router),
                    _ => return false,
                };
                attention as u128 + routed as u128 + shared as u128 + router as u128
                    <= u64::MAX as u128
            },
        }
    }

    /// Weight bytes one rank holds.
    ///
    /// Attention and dense FFN shard by `tensor`; MoE experts shard by
    /// `expert` instead, while the router is replicated. Layers then divide by
    /// `pipeline`. Embeddings are assumed sharded across the tensor group.
    pub fn weight_bytes_per_rank(&self, model: &ModelConfig) -> (r: u64)
        requires
            self.tensor > 0,
            self.pipeline > 0,
            self.expert > 0,
            self.rank_sizeable(model@),
        ensures
            r == self.rank_weight_bytes(model@),
    {
        let params: u64 = self.params_per_rank(model);
        model.weights.bytes_for(params as usize) as u64
    }

    /// Whether the weights a rank holds can be counted on this machine.
    pub fn is_rank_sizeable(&self, model: &ModelConfig) -> (r: bool)
        requires
            self.tensor > 0,
            self.pipeline > 0,
            self.expert > 0,
            model@.weights.wf(),
        ensures
            r == self.rank_sizeable(model@),
    {
        if !self.do_layers_fit(model) {
            return false;
        }
        let (per_layer, embeddings) = self.shares(model);
        let layers_here: u64 = (model.num_layers / self.pipeline) as u64;
        proof {
            assert(per_layer as nat * layers_here as nat >= 0);
        }
        let params: u64 = match per_layer.checked_mul(layers_here) {
            Some(n) => match n.checked_add(embeddings) {
                Some(n) => n,
                None => return false,
            },
            None => return false,
        };
        params <= usize::MAX as u64 && model.weights.is_sizeable(params as usize)
    }

    /// Collectives one token of decode triggers per layer.
    pub open spec fn collectives(self, m: ModelView) -> Seq<Seq<char>> {
        let ops = (if self.tensor > 1 {
            seq!["all-reduce after attention and FFN (tensor parallel)"@]
        } else {
            Seq::empty()
        }) + (if self.pipeline > 1 {
            seq!["point-to-point activation handoff between stages"@]
        } else {
            Seq::empty()
        }) + (if self.expert > 1 && m.ffn is Moe {
            seq!["all-to-all dispatch and combine around the experts"@]
        } else {
            Seq::empty()
        });
        if ops.len() == 0 {
            seq!["none: single-rank execution"@]
        } else {
            ops
        }
    }

    /// Collectives one token of decode triggers per layer, as a rough guide to
    /// which fabric a plan needs.
    pub fn describe_collectives(&self, model: &ModelConfig) -> (r: Vec<&'static str>)
        ensures
            Seq::new(r@.len(), |i: int| r@[i]@) == self.collectives(model@),
    {
        let mut ops: Vec<&'static str> = Vec::new();
        if self.tensor > 1 {
            ops.push("all-reduce after attention and FFN (tensor parallel)");
        }
        if self.pipeline > 1 {
            ops.push("point-to-point activation handoff between stages");
        }
        if self.expert > 1 && model.ffn.is_moe() {
            ops.push("all-to-all dispatch and combine around the experts");
        }
        if ops.len() == 0 {
            ops.push("none: single-rank execution");
        }
        assert(Seq::new(ops@.len(), |i: int| ops@[i]@) =~= self.collectives(model@));
        ops
    }
}

proof fn lemma_expert_shares(per_expert: nat, held: nat, shared: nat)
    ensures
        per_expert * (held + shared) == per_expert * held + per_expert * shared,
{
    assert(per_expert * (held + shared) == per_expert * held + per_expert * shared)
        by (nonlinear_arith);
}

proof fn lemma_share_is_a_part(n: nat, parts: nat)
    requires
        parts > 0,
    ensures
        n / parts <= n,
{
    assert(n / parts <= n) by (nonlinear_arith)
        requires
            parts > 0,
            n >= 0,
    ;
}

/// What a layer leaves on a rank is a part of the layer.
proof fn lemma_shards_fit(p: ParallelConfig, m: ModelView)
    requires
        p.tensor > 0,
        p.expert > 0,
    ensures
        ({
            let s = layer_shards(m);
            &&& s.by_tensor + s.by_expert + s.replicated == m.layer_params()
            &&& s.by_tensor / p.tensor as nat + s.by_expert / p.expert as nat + s.replicated
                <= m.layer_params()
        }),
{
    let s = layer_shards(m);
    lemma_share_is_a_part(s.by_tensor, p.tensor as nat);
    lemma_share_is_a_part(s.by_expert, p.expert as nat);
    if let FeedForward::Moe {
        num_experts,
        experts_per_token,
        expert_intermediate_size,
        shared_experts,
    } = m.ffn {
        lemma_expert_shares(
            gated(m.hidden(), expert_intermediate_size as nat),
            num_experts as nat,
            shared_experts as nat,
        );
    }
}

proof fn lemma_rank_holds_a_part(p: ParallelConfig, m: ModelView)
    requires
        p.tensor > 0,
        p.pipeline > 0,
        p.expert > 0,
    ensures
        p.rank_params(m) <= m.total(),
{
    lemma_shards_fit(p, m);
    let s = layer_shards(m);
    let mine = s.by_tensor / p.tensor as nat + s.by_expert / p.expert as nat + s.replicated;
    lemma_share_is_a_part(m.num_layers as nat, p.pipeline as nat);
    lemma_share_is_a_part(m.embedding_params(), p.tensor as nat);
    let stage = m.num_layers as nat / p.pipeline as nat;
    assert(mine * stage <= m.layer_params() * m.num_layers as nat) by (nonlinear_arith)
        requires
            mine <= m.layer_params(),
            stage <= m.num_layers,
            mine >= 0,
            stage >= 0,
    ;
}

/// A rank never holds more weights than the model has.
pub proof fn law_a_rank_holds_a_part_of_the_model(p: ParallelConfig, m: ModelView)
    requires
        p.fault(m) is None,
    ensures
        p.rank_params(m) <= m.total(),
        p.rank_kv_bytes(m) <= m.kv_bytes(),
{
    lemma_rank_holds_a_part(p, m);
    assert(p.world() > 0) by (nonlinear_arith)
        requires
            p.world() == p.tensor as nat * p.pipeline as nat,
            p.tensor > 0,
            p.pipeline > 0,
    ;
    lemma_share_is_a_part(m.kv_bytes(), p.world());
}

/// Moving experts off each rank never adds weights to it.
pub proof fn law_expert_parallelism_sheds_weights(
    p: ParallelConfig,
    m: ModelView,
    expert: usize,
)
    requires
        p.tensor > 0,
        p.pipeline > 0,
        p.expert > 0,
        expert >= p.expert,
    ensures
        (ParallelConfig { expert, ..p }).rank_params(m) <= p.rank_params(m),
{
    let s = layer_shards(m);
    let fewer = s.by_expert / expert as nat;
    let more = s.by_expert / p.expert as nat;
    vstd::arithmetic::div_mod::lemma_div_is_ordered_by_denominator(
        s.by_expert as int,
        p.expert as int,
        expert as int,
    );
    let a = s.by_tensor / p.tensor as nat + fewer + s.replicated;
    let b = s.by_tensor / p.tensor as nat + more + s.replicated;
    let stage = m.num_layers as nat / p.pipeline as nat;
    assert(a * stage <= b * stage) by (nonlinear_arith)
        requires
            a <= b,
            stage >= 0,
    ;
}

/// A single rank holds every weight of the model, scales and zero points included.
pub proof fn law_one_rank_holds_the_whole_model(m: ModelView)
    ensures
        ({
            let p = ParallelConfig { tensor: 1, pipeline: 1, expert: 1 };
            &&& p.rank_params(m) == m.total()
            &&& p.rank_weight_bytes(m) == m.weights.size_of(m.total())
            &&& p.rank_kv_bytes(m) == m.kv_bytes()
        }),
{
    let p = ParallelConfig { tensor: 1, pipeline: 1, expert: 1 };
    lemma_shards_fit(p, m);
    assert(p.world() == 1);
}

proof fn lemma_shares_multiply(t: int, s: int, layers: int, heads: int, dim: int, bytes: int)
    ensures
        2 * ((s * layers) * (((t * heads) * dim) * bytes)) == (2 * (layers * (heads * dim * bytes)))
            * (t * s),
{
    let cell = dim * bytes;
    assert(((t * heads) * dim) * bytes == t * (heads * cell)) by (nonlinear_arith)
        requires
            cell == dim * bytes,
    ;
    assert((heads * dim) * bytes == heads * cell) by (nonlinear_arith)
        requires
            cell == dim * bytes,
    ;
    let rest = heads * cell;
    assert((s * layers) * (t * rest) == (layers * rest) * (t * s)) by (nonlinear_arith);
    assert(2 * ((layers * rest) * (t * s)) == (2 * (layers * rest)) * (t * s)) by (nonlinear_arith);
}

/// The ranks of a valid plan share the cost of a token evenly, without remainder,
/// where an element takes whole bytes; and the expert degree plays no part.
pub proof fn law_ranks_share_the_cache_evenly(p: ParallelConfig, m: ModelView, expert: usize)
    requires
        p.fault(m) is None,
        m.kv_dtype.width() >= 8,
    ensures
        p.rank_kv_bytes(m) * p.world() == m.kv_bytes(),
        (ParallelConfig { expert, ..p }).rank_kv_bytes(m) == p.rank_kv_bytes(m),
{
    let (t, s) = (p.tensor as int, p.pipeline as int);
    let bytes = m.kv_dtype.width() as int / 8;
    let dim = m.attention.head_dim as int;
    let heads = m.attention.num_kv_heads as int / t;
    let layers = m.num_layers as int / s;
    vstd::arithmetic::div_mod::lemma_fundamental_div_mod(m.attention.num_kv_heads as int, t);
    vstd::arithmetic::div_mod::lemma_fundamental_div_mod(m.num_layers as int, s);
    let width = m.attention.kv_width() as int;
    assert(m.kv_dtype.width() == 8 * bytes);
    assert(width * (8 * bytes) == 8 * (width * bytes)) by (nonlinear_arith);
    assert(m.kv_dtype.size_of(width as nat) == width * bytes) by {
        let n = width * bytes;
        assert(n >= 0) by (nonlinear_arith)
            requires
                n == width * bytes,
                width >= 0,
                bytes >= 0,
        ;
        assert((8 * n + 7) / 8 == n);
        assert((8 * n) / 8 == n && (8 * n) % 8 == 0);
    }
    let share = 2 * (layers * (heads * dim * bytes));
    lemma_shares_multiply(t, s, layers, heads, dim, bytes);
    assert(m.num_layers as int == s * layers);
    assert(m.attention.num_kv_heads as int == t * heads);
    assert(m.kv_bytes() == share * (t * s));
    assert(t * s > 0) by (nonlinear_arith)
        requires
            t > 0,
            s > 0,
    ;
    vstd::arithmetic::div_mod::lemma_div_multiples_vanish(share, t * s);
    assert((t * s) * share == share * (t * s)) by (nonlinear_arith);
}

} // verus!
