//! Transformer geometry for dense and Mixture-of-Experts models.
//!
//! Everything the runtime needs to size memory comes from here: how many bytes
//! a token of KV cache costs, how many bytes the weights occupy under a given
//! quantization scheme, and how both divide across a parallelism plan.
//!
//! Presets are convenience shapes. The canonical path is
//! [`ModelConfig::from_hf_config`], which reads the model's own `config.json`,
//! because a preset that drifts from the real checkpoint would silently
//! mis-size the cache.
use vstd::prelude::*;

use super::dtype::{DType, WeightFormat};
use crate::json::{
    flag_of, json_of_text, members_of, parse_text, text_of, uint_of, JsonObject, Members,
};
use crate::text::{decimal, push_decimal};

verus! {

/// Grouped-query attention shape. `num_kv_heads == num_q_heads` is multi-head
/// attention; `num_kv_heads == 1` is multi-query.
#[derive(Debug, Clone, Copy, PartialEq, Eq, Structural)]
pub struct AttentionConfig {
    pub num_q_heads: usize,
    pub num_kv_heads: usize,
    pub head_dim: usize,
}

impl AttentionConfig {
    pub open spec fn q_width(self) -> nat {
        self.num_q_heads as nat * self.head_dim as nat
    }

    pub open spec fn kv_width(self) -> nat {
        self.num_kv_heads as nat * self.head_dim as nat
    }

    /// Query heads sharing each KV head.
    pub fn gqa_ratio(&self) -> (r: usize)
        ensures
            r as int == self.num_q_heads as int / if self.num_kv_heads == 0 {
                1int
            } else {
                self.num_kv_heads as int
            },
    {
        if self.num_kv_heads == 0 {
            self.num_q_heads
        } else {
            self.num_q_heads / self.num_kv_heads
        }
    }

    pub fn q_dim(&self) -> (r: usize)
        requires
            self.q_width() <= usize::MAX,
        ensures
            r == self.q_width(),
    {
        self.num_q_heads * self.head_dim
    }

    pub fn kv_dim(&self) -> (r: usize)
        requires
            self.kv_width() <= usize::MAX,
        ensures
            r == self.kv_width(),
    {
        self.num_kv_heads * self.head_dim
    }
}

/// The feed-forward block: one dense MLP, or a routed set of experts.
#[derive(Debug, Clone, Copy, PartialEq, Eq, Structural)]
pub enum FeedForward {
    Dense { intermediate_size: usize },
    Moe {
        num_experts: usize,
        /// Experts each token is routed to.
        experts_per_token: usize,
        expert_intermediate_size: usize,
        /// Experts every token passes through regardless of routing.
        shared_experts: usize,
    },
}

/// Weights of a gated MLP: gate, up and down projections.
pub open spec fn gated(hidden: nat, intermediate: nat) -> nat {
    3 * (hidden * intermediate)
}

/// Weights of `used` experts and of the router over `all` of them.
pub open spec fn routed(hidden: nat, intermediate: nat, used: nat, all: nat) -> nat {
    gated(hidden, intermediate) * used + hidden * all
}

impl FeedForward {
    /// Weights in this block, counting every expert.
    pub open spec fn params_spec(self, hidden: nat) -> nat {
        match self {
            FeedForward::Dense { intermediate_size } => gated(hidden, intermediate_size as nat),
            FeedForward::Moe {
                num_experts,
                experts_per_token,
                expert_intermediate_size,
                shared_experts,
            } => routed(
                hidden,
                expert_intermediate_size as nat,
                (num_experts + shared_experts) as nat,
                num_experts as nat,
            ),
        }
    }

    /// Weights actually touched by one token.
    pub open spec fn active_spec(self, hidden: nat) -> nat {
        match self {
            FeedForward::Dense { intermediate_size } => gated(hidden, intermediate_size as nat),
            FeedForward::Moe {
                num_experts,
                experts_per_token,
                expert_intermediate_size,
                shared_experts,
            } => routed(
                hidden,
                expert_intermediate_size as nat,
                (experts_per_token + shared_experts) as nat,
                num_experts as nat,
            ),
        }
    }

    /// The weights of one expert can be counted on this machine.
    pub open spec fn experts_fit(self, hidden: nat) -> bool {
        match self {
            FeedForward::Dense { .. } => true,
            FeedForward::Moe { expert_intermediate_size, .. } => gated(
                hidden,
                expert_intermediate_size as nat,
            ) <= u64::MAX,
        }
    }

    /// The weights of this block can be counted on this machine.
    pub open spec fn params_fit(self, hidden: nat) -> bool {
        &&& self.params_spec(hidden) <= u64::MAX
        &&& self.experts_fit(hidden)
        &&& match self {
            FeedForward::Dense { .. } => true,
            FeedForward::Moe { num_experts, shared_experts, .. } => num_experts + shared_experts
                <= usize::MAX,
        }
    }

    /// The weights that one token touches can be counted on this machine.
    pub open spec fn active_fit(self, hidden: nat) -> bool {
        &&& self.active_spec(hidden) <= u64::MAX
        &&& self.experts_fit(hidden)
        &&& match self {
            FeedForward::Dense { .. } => true,
            FeedForward::Moe { experts_per_token, shared_experts, .. } => experts_per_token
                + shared_experts <= usize::MAX,
        }
    }

    /// Weights in this block, counting every expert.
    pub fn params(&self, hidden: usize) -> (r: u64)
        requires
            self.params_fit(hidden as nat),
        ensures
            r == self.params_spec(hidden as nat),
    {
        match *self {
            FeedForward::Dense { intermediate_size } => gated_params(
                hidden as u64,
                intermediate_size as u64,
            ),
            FeedForward::Moe { num_experts, expert_intermediate_size, shared_experts, .. } => {
                let per_expert: u64 = gated_params(hidden as u64, expert_intermediate_size as u64);
                routed_params(
                    per_expert,
                    (num_experts + shared_experts) as u64,
                    hidden as u64,
                    num_experts as u64,
                )
            },
        }
    }

    /// Weights actually touched by one token. For MoE this is the routed
    /// subset, which is why an MoE model's compute cost tracks its active
    /// parameters while its memory cost tracks its total parameters.
    pub fn active_params(&self, hidden: usize) -> (r: u64)
        requires
            self.active_fit(hidden as nat),
        ensures
            r == self.active_spec(hidden as nat),
    {
        match *self {
            FeedForward::Dense { intermediate_size } => gated_params(
                hidden as u64,
                intermediate_size as u64,
            ),
            FeedForward::Moe {
                num_experts,
                experts_per_token,
                expert_intermediate_size,
                shared_experts,
            } => {
                let per_expert: u64 = gated_params(hidden as u64, expert_intermediate_size as u64);
                routed_params(
                    per_expert,
                    (experts_per_token + shared_experts) as u64,
                    hidden as u64,
                    num_experts as u64,
                )
            },
        }
    }

    pub fn is_moe(&self) -> (r: bool)
        ensures
            r == (self is Moe),
    {
        match self {
            FeedForward::Moe { .. } => true,
            _ => false,
        }
    }
}

fn gated_params(hidden: u64, intermediate: u64) -> (r: u64)
    requires
        gated(hidden as nat, intermediate as nat) <= u64::MAX,
    ensures
        r == gated(hidden as nat, intermediate as nat),
{
    3 * (hidden * intermediate)
}

fn routed_params(per_expert: u64, used: u64, hidden: u64, all: u64) -> (r: u64)
    requires
        per_expert as nat * used as nat + hidden as nat * all as nat <= u64::MAX,
    ensures
        r == per_expert as nat * used as nat + hidden as nat * all as nat,
{
    assert(0 <= per_expert as int * used as int) by (nonlinear_arith)
        requires
            per_expert >= 0,
            used >= 0,
    ;
    assert(0 <= hidden as int * all as int) by (nonlinear_arith)
        requires
            hidden >= 0,
            all >= 0,
    ;
    per_expert * used + hidden * all
}

#[derive(Debug, Clone, PartialEq)]
pub struct ModelConfig {
    pub name: String,
    pub num_layers: usize,
    pub hidden_size: usize,
    pub attention: AttentionConfig,
    pub ffn: FeedForward,
    pub vocab_size: usize,
    /// Embedding and output projection share weights.
    pub tie_word_embeddings: bool,
    pub max_position_embeddings: usize,
    pub weights: WeightFormat,
    /// Format the KV cache is stored in. Quantizing KV buys context length at
    /// a quality cost that has to be measured, not assumed.
    pub kv_dtype: DType,
}

/// A model's geometry, as values.
#[verifier::ext_equal]
pub struct ModelView {
    pub name: Seq<char>,
    pub num_layers: usize,
    pub hidden_size: usize,
    pub attention: AttentionConfig,
    pub ffn: FeedForward,
    pub vocab_size: usize,
    pub tie_word_embeddings: bool,
    pub max_position_embeddings: usize,
    pub weights: WeightFormat,
    pub kv_dtype: DType,
}

impl View for ModelConfig {
    type V = ModelView;

    open spec fn view(&self) -> ModelView {
        ModelView {
            name: self.name@,
            num_layers: self.num_layers,
            hidden_size: self.hidden_size,
            attention: self.attention,
            ffn: self.ffn,
            vocab_size: self.vocab_size,
            tie_word_embeddings: self.tie_word_embeddings,
            max_position_embeddings: self.max_position_embeddings,
            weights: self.weights,
            kv_dtype: self.kv_dtype,
        }
    }
}

impl ModelView {
    pub open spec fn hidden(self) -> nat {
        self.hidden_size as nat
    }

    /// Weights of the attention block: query, key, value and output projections.
    pub open spec fn attention_params(self) -> nat {
        2 * (self.hidden() * self.attention.q_width()) + 2 * (self.hidden()
            * self.attention.kv_width())
    }

    /// Weights per transformer layer, attention plus feed-forward.
    pub open spec fn layer_params(self) -> nat {
        self.attention_params() + self.ffn.params_spec(self.hidden())
    }

    /// Weights of the embedding, and of the output projection where it is apart.
    pub open spec fn embedding_params(self) -> nat {
        let one = self.vocab_size as nat * self.hidden();
        if self.tie_word_embeddings {
            one
        } else {
            2 * one
        }
    }

    /// Every weight in the checkpoint.
    pub open spec fn total(self) -> nat {
        self.layer_params() * self.num_layers as nat + self.embedding_params()
    }

    /// Weights one token's forward pass touches.
    pub open spec fn active(self) -> nat {
        (self.attention_params() + self.ffn.active_spec(self.hidden())) * self.num_layers as nat
            + self.embedding_params()
    }

    /// KV-cache bytes for one token: two tensors per layer.
    pub open spec fn kv_bytes(self) -> nat {
        2 * (self.num_layers as nat * self.kv_dtype.size_of(self.attention.kv_width()))
    }

    /// The weights of the attention block can be counted on this machine.
    pub open spec fn attention_fits(self) -> bool {
        &&& self.attention.q_width() <= usize::MAX
        &&& self.attention.kv_width() <= usize::MAX
        &&& self.attention_params() <= u64::MAX
    }

    /// The weights of a layer can be counted on this machine.
    pub open spec fn layer_fits(self) -> bool {
        &&& self.attention_fits()
        &&& self.ffn.params_fit(self.hidden())
        &&& self.layer_params() <= u64::MAX
    }

    /// The weights of the model can be counted on this machine.
    pub open spec fn total_fits(self) -> bool {
        self.layer_fits() && self.total() <= u64::MAX
    }

    /// The weights that one token touches can be counted on this machine.
    pub open spec fn active_fits(self) -> bool {
        &&& self.attention_fits()
        &&& self.ffn.active_fit(self.hidden())
        &&& self.attention_params() + self.ffn.active_spec(self.hidden()) <= u64::MAX
        &&& self.active() <= u64::MAX
    }

    /// The KV-cache cost of a token fits the machine.
    pub open spec fn kv_sizeable(self) -> bool {
        &&& self.attention.kv_width() * self.kv_dtype.width() <= usize::MAX
        &&& self.kv_bytes() <= u64::MAX
    }

    /// What is wrong with the geometry itself, if anything is.
    pub open spec fn fault(self) -> Option<Seq<char>> {
        if self.attention.num_kv_heads == 0 || self.attention.num_q_heads == 0 {
            Some("attention must have at least one query and KV head"@)
        } else if self.attention.num_q_heads as int % self.attention.num_kv_heads as int != 0 {
            Some(
                self.name + ": "@ + decimal(self.attention.num_q_heads as nat)
                    + " query heads do not divide evenly into "@ + decimal(
                    self.attention.num_kv_heads as nat,
                ) + " KV heads"@,
            )
        } else {
            match self.ffn {
                FeedForward::Moe { num_experts, experts_per_token, .. } => if experts_per_token
                    == 0 || experts_per_token > num_experts {
                    Some(
                        self.name + ": routes "@ + decimal(experts_per_token as nat) + " of "@
                            + decimal(num_experts as nat) + " experts"@,
                    )
                } else {
                    None
                },
                FeedForward::Dense { .. } => None,
            }
        }
    }
}

impl ModelConfig {
    fn attention_weights(&self) -> (r: u64)
        requires
            self@.attention_fits(),
        ensures
            r == self@.attention_params(),
    {
        let h: u64 = self.hidden_size as u64;
        let q: u64 = self.attention.q_dim() as u64;
        let kv: u64 = self.attention.kv_dim() as u64;
        2 * (h * q) + 2 * (h * kv)
    }

    /// Weights per transformer layer, attention plus feed-forward.
    pub fn params_per_layer(&self) -> (r: u64)
        requires
            self@.layer_fits(),
        ensures
            r == self@.layer_params(),
    {
        self.attention_weights() + self.ffn.params(self.hidden_size)
    }

    fn embedding_weights(&self) -> (r: u64)
        requires
            self@.embedding_params() <= u64::MAX,
        ensures
            r == self@.embedding_params(),
    {
        let one: u64 = self.vocab_size as u64 * self.hidden_size as u64;
        if self.tie_word_embeddings {
            one
        } else {
            2 * one
        }
    }

    /// Every weight in the checkpoint.
    pub fn total_params(&self) -> (r: u64)
        requires
            self@.total_fits(),
        ensures
            r == self@.total(),
    {
        proof {
            lemma_product_is_nonnegative(self@.layer_params(), self.num_layers as nat);
        }
        self.params_per_layer() * self.num_layers as u64 + self.embedding_weights()
    }

    /// Weights one token's forward pass touches. Equal to `total_params` for a
    /// dense model; far smaller for MoE.
    pub fn active_params(&self) -> (r: u64)
        requires
            self@.active_fits(),
        ensures
            r == self@.active(),
    {
        let layer: u64 = self.attention_weights() + self.ffn.active_params(self.hidden_size);
        proof {
            lemma_product_is_nonnegative(layer as nat, self.num_layers as nat);
        }
        layer * self.num_layers as u64 + self.embedding_weights()
    }

    /// Bytes the weights occupy under the configured format.
    pub fn weight_bytes(&self) -> (r: u64)
        requires
            self@.total_fits(),
            self@.weights.wf(),
            self@.total() <= usize::MAX,
            self@.weights.sizeable(self@.total()),
        ensures
            r == self@.weights.size_of(self@.total()),
    {
        self.weights.bytes_for(self.total_params() as usize) as u64
    }

    /// KV-cache bytes for one token, across all layers, on one GPU holding the
    /// whole model.
    ///
    /// Two tensors — K and V — per layer, each `num_kv_heads * head_dim`
    /// elements. This is the number that decides how much context a deployment
    /// can hold, and it is why grouped-query attention matters at scale.
    pub fn kv_bytes_per_token(&self) -> (r: u64)
        requires
            self@.kv_sizeable(),
        ensures
            r == self@.kv_bytes(),
    {
        assert(self@.attention.kv_width() <= self@.attention.kv_width() * self@.kv_dtype.width())
            by (nonlinear_arith)
            requires
                self@.kv_dtype.width() >= 1,
                self@.attention.kv_width() >= 0,
        ;
        let per_layer: u64 = self.kv_dtype.bytes_for(self.attention.kv_dim()) as u64;
        2 * (self.num_layers as u64 * per_layer)
    }

    /// FLOPs for one token of decode, counting a multiply-add as two.
    pub fn decode_flops_per_token(&self) -> (r: u64)
        requires
            self@.active_fits(),
            2 * self@.active() <= u64::MAX,
        ensures
            r == 2 * self@.active(),
    {
        2 * self.active_params()
    }

    /// Validate the geometry itself, independent of any parallelism plan.
    pub fn validate(&self) -> (r: std::result::Result<(), String>)
        ensures
            match r {
                Ok(_) => self@.fault() is None,
                Err(e) => self@.fault() == Some(e@),
            },
    {
        if self.attention.num_kv_heads == 0 || self.attention.num_q_heads == 0 {
            return Err(String::from_str("attention must have at least one query and KV head"));
        }
        if self.attention.num_q_heads % self.attention.num_kv_heads != 0 {
            let mut e = self.name.clone();
            e.append(": ");
            push_decimal(&mut e, self.attention.num_q_heads as u64);
            e.append(" query heads do not divide evenly into ");
            push_decimal(&mut e, self.attention.num_kv_heads as u64);
            e.append(" KV heads");
            return Err(e);
        }
        if let FeedForward::Moe { num_experts, experts_per_token, .. } = self.ffn {
            if experts_per_token == 0 || experts_per_token > num_experts {
                let mut e = self.name.clone();
                e.append(": routes ");
                push_decimal(&mut e, experts_per_token as u64);
                e.append(" of ");
                push_decimal(&mut e, num_experts as u64);
                e.append(" experts");
                return Err(e);
            }
        }
        Ok(())
    }
}

impl FeedForward {
    /// Whether the weights of one expert can be counted on this machine, and how
    /// many they are.
    pub(crate) fn count_expert(hidden: usize, intermediate: usize) -> (r: Option<u64>)
        ensures
            match r {
                Some(n) => n == gated(hidden as nat, intermediate as nat),
                None => gated(hidden as nat, intermediate as nat) > u64::MAX,
            },
    {
        match (hidden as u64).checked_mul(intermediate as u64) {
            Some(one) => if one <= u64::MAX / 3 {
                Some(3 * one)
            } else {
                None
            },
            None => None,
        }
    }

    /// Whether the weights of this block can be counted on this machine.
    pub fn do_params_fit(&self, hidden: usize) -> (r: bool)
        ensures
            r == self.params_fit(hidden as nat),
    {
        match *self {
            FeedForward::Dense { intermediate_size } => Self::count_expert(
                hidden,
                intermediate_size,
            ).is_some(),
            FeedForward::Moe { num_experts, expert_intermediate_size, shared_experts, .. } => {
                match (
                    Self::count_expert(hidden, expert_intermediate_size),
                    num_experts.checked_add(shared_experts),
                ) {
                    (Some(one), Some(held)) => routed_fits(
                        one,
                        held as u64,
                        hidden as u64,
                        num_experts as u64,
                    ),
                    _ => false,
                }
            },
        }
    }

    /// Whether the weights that one token touches can be counted on this machine.
    pub fn do_active_fit(&self, hidden: usize) -> (r: bool)
        ensures
            r == self.active_fit(hidden as nat),
    {
        match *self {
            FeedForward::Dense { intermediate_size } => Self::count_expert(
                hidden,
                intermediate_size,
            ).is_some(),
            FeedForward::Moe {
                num_experts,
                experts_per_token,
                expert_intermediate_size,
                shared_experts,
            } => {
                match (
                    Self::count_expert(hidden, expert_intermediate_size),
                    experts_per_token.checked_add(shared_experts),
                ) {
                    (Some(one), Some(used)) => routed_fits(
                        one,
                        used as u64,
                        hidden as u64,
                        num_experts as u64,
                    ),
                    _ => false,
                }
            },
        }
    }
}

fn routed_fits(per_expert: u64, used: u64, hidden: u64, all: u64) -> (r: bool)
    ensures
        r == (per_expert as nat * used as nat + hidden as nat * all as nat <= u64::MAX),
{
    match (per_expert.checked_mul(used), hidden.checked_mul(all)) {
        (Some(experts), Some(router)) => experts.checked_add(router).is_some(),
        _ => false,
    }
}

impl ModelConfig {
    /// The weights of the attention block, where they can be counted on this
    /// machine.
    pub(crate) fn count_attention(&self) -> (r: Option<u64>)
        ensures
            match r {
                Some(n) => self@.attention_fits() && n == self@.attention_params(),
                None => !self@.attention_fits(),
            },
    {
        let h: u64 = self.hidden_size as u64;
        let q: usize = match self.attention.num_q_heads.checked_mul(self.attention.head_dim) {
            Some(q) => q,
            None => return None,
        };
        let kv: usize = match self.attention.num_kv_heads.checked_mul(self.attention.head_dim) {
            Some(kv) => kv,
            None => return None,
        };
        let (hq, hkv) = match (h.checked_mul(q as u64), h.checked_mul(kv as u64)) {
            (Some(hq), Some(hkv)) => (hq, hkv),
            _ => return None,
        };
        let attention: u128 = 2 * (hq as u128) + 2 * (hkv as u128);
        if attention > u64::MAX as u128 {
            return None;
        }
        Some(attention as u64)
    }

    /// The weights of the embeddings, where they can be counted on this machine.
    pub(crate) fn count_embeddings(&self) -> (r: Option<u64>)
        ensures
            match r {
                Some(n) => n == self@.embedding_params(),
                None => self@.embedding_params() > u64::MAX,
            },
    {
        let one: u64 = match (self.vocab_size as u64).checked_mul(self.hidden_size as u64) {
            Some(one) => one,
            None => return None,
        };
        if self.tie_word_embeddings {
            Some(one)
        } else {
            one.checked_mul(2)
        }
    }

    /// Whether the weights of the model can be counted on this machine.
    pub fn does_total_fit(&self) -> (r: bool)
        ensures
            r == self@.total_fits(),
    {
        let ghost layers = self@.layer_params() * self.num_layers as nat;
        proof {
            lemma_product_is_nonnegative(self@.layer_params(), self.num_layers as nat);
        }
        let attention: u64 = match self.count_attention() {
            Some(n) => n,
            None => return false,
        };
        if !self.ffn.do_params_fit(self.hidden_size) {
            return false;
        }
        let layer: u64 = match attention.checked_add(self.ffn.params(self.hidden_size)) {
            Some(n) => n,
            None => return false,
        };
        match (layer.checked_mul(self.num_layers as u64), self.count_embeddings()) {
            (Some(layers), Some(embeddings)) => layers.checked_add(embeddings).is_some(),
            _ => false,
        }
    }

    /// Whether the weights that one token touches can be counted on this machine.
    pub fn does_active_fit(&self) -> (r: bool)
        ensures
            r == self@.active_fits(),
    {
        let ghost layer = self@.attention_params() + self@.ffn.active_spec(self@.hidden());
        proof {
            lemma_product_is_nonnegative(layer, self.num_layers as nat);
        }
        let attention: u64 = match self.count_attention() {
            Some(n) => n,
            None => return false,
        };
        if !self.ffn.do_active_fit(self.hidden_size) {
            return false;
        }
        let layer: u64 = match attention.checked_add(self.ffn.active_params(self.hidden_size)) {
            Some(n) => n,
            None => return false,
        };
        match (layer.checked_mul(self.num_layers as u64), self.count_embeddings()) {
            (Some(layers), Some(embeddings)) => layers.checked_add(embeddings).is_some(),
            _ => false,
        }
    }

    /// Whether the KV-cache cost of a token fits the machine.
    pub fn is_kv_sizeable(&self) -> (r: bool)
        ensures
            r == self@.kv_sizeable(),
    {
        let kv: usize = match self.attention.num_kv_heads.checked_mul(self.attention.head_dim) {
            Some(kv) => kv,
            None => {
                assert(self@.attention.kv_width() <= self@.attention.kv_width()
                    * self@.kv_dtype.width()) by (nonlinear_arith)
                    requires
                        self@.kv_dtype.width() >= 1,
                        self@.attention.kv_width() >= 0,
                ;
                return false;
            },
        };
        if kv.checked_mul(self.kv_dtype.bits()).is_none() {
            return false;
        }
        match (self.num_layers as u64).checked_mul(self.kv_dtype.bytes_for(kv) as u64) {
            Some(one) => one <= u64::MAX / 2,
            None => false,
        }
    }
}

/// The first of three members that is a non-negative integer.
pub open spec fn first_uint(
    doc: Members,
    a: Seq<char>,
    b: Seq<char>,
    c: Seq<char>,
) -> Option<u64> {
    if uint_of(doc, a) is Some {
        uint_of(doc, a)
    } else if uint_of(doc, b) is Some {
        uint_of(doc, b)
    } else {
        uint_of(doc, c)
    }
}

/// What is said of a member that has to be there and is not.
pub open spec fn missing(key: Seq<char>) -> Seq<char> {
    "config.json is missing `"@ + key + "`"@
}

/// The number of heads that keys and values have: that of queries, by default.
pub open spec fn hf_kv_heads(doc: Members, num_q_heads: u64) -> usize {
    match uint_of(doc, "num_key_value_heads"@) {
        Some(n) => n as usize,
        None => (num_q_heads as usize),
    }
}

/// The width of a head: by default, what the hidden size leaves each.
pub open spec fn hf_head_dim(doc: Members, hidden_size: u64, num_q_heads: u64) -> usize {
    match uint_of(doc, "head_dim"@) {
        Some(n) => n as usize,
        None => ((hidden_size as usize) as int / if (num_q_heads as usize) == 0 {
            1int
        } else {
            (num_q_heads as usize) as int
        }) as usize,
    }
}

/// The feed-forward block of a checkpoint. Checkpoints disagree on what they
/// call the experts; the common spellings are understood.
pub open spec fn hf_ffn(doc: Members) -> std::result::Result<FeedForward, Seq<char>> {
    let experts = first_uint(doc, "num_local_experts"@, "num_experts"@, "n_routed_experts"@);
    let routed = first_uint(doc, "num_experts_per_tok"@, "num_experts_per_token"@, "topk"@);
    if experts is Some && routed is Some && (experts->0 as usize) > 1 {
        let size = if uint_of(doc, "moe_intermediate_size"@) is Some {
            uint_of(doc, "moe_intermediate_size"@)
        } else {
            uint_of(doc, "intermediate_size"@)
        };
        match size {
            Some(size) => Ok(
                FeedForward::Moe {
                    num_experts: experts->0 as usize,
                    experts_per_token: routed->0 as usize,
                    expert_intermediate_size: size as usize,
                    shared_experts: match uint_of(doc, "n_shared_experts"@) {
                        Some(n) => n as usize,
                        None => 0,
                    },
                },
            ),
            None => Err("config.json is missing an expert intermediate size"@),
        }
    } else {
        match uint_of(doc, "intermediate_size"@) {
            Some(size) => Ok(FeedForward::Dense { intermediate_size: size as usize }),
            None => Err(missing("intermediate_size"@)),
        }
    }
}

/// The geometry that a checkpoint's `config.json` describes, or the first thing
/// that is missing from it or wrong with it.
pub open spec fn hf_model(
    doc: Members,
    weights: WeightFormat,
    kv_dtype: DType,
) -> std::result::Result<ModelView, Seq<char>> {
    let hidden = uint_of(doc, "hidden_size"@);
    let heads = uint_of(doc, "num_attention_heads"@);
    let layers = uint_of(doc, "num_hidden_layers"@);
    let vocab = uint_of(doc, "vocab_size"@);
    if hidden is None {
        Err(missing("hidden_size"@))
    } else if heads is None {
        Err(missing("num_attention_heads"@))
    } else if hf_ffn(doc) is Err {
        Err(hf_ffn(doc)->Err_0)
    } else if layers is None {
        Err(missing("num_hidden_layers"@))
    } else if vocab is None {
        Err(missing("vocab_size"@))
    } else {
        let model = ModelView {
            name: match text_of(doc, "_name_or_path"@) {
                Some(name) => name,
                None => "unnamed"@,
            },
            num_layers: layers->0 as usize,
            hidden_size: hidden->0 as usize,
            attention: AttentionConfig {
                num_q_heads: heads->0 as usize,
                num_kv_heads: hf_kv_heads(doc, heads->0),
                head_dim: hf_head_dim(doc, hidden->0, heads->0),
            },
            ffn: hf_ffn(doc)->Ok_0,
            vocab_size: vocab->0 as usize,
            tie_word_embeddings: flag_of(doc, "tie_word_embeddings"@) == Some(true),
            max_position_embeddings: match uint_of(doc, "max_position_embeddings"@) {
                Some(n) => n as usize,
                None => 4096,
            },
            weights,
            kv_dtype,
        };
        match model.fault() {
            Some(fault) => Err(fault),
            None => Ok(model),
        }
    }
}

fn missing_text(key: &str) -> (r: String)
    ensures
        r@ == missing(key@),
{
    let mut e = String::from_str("config.json is missing `");
    e.append(key);
    e.append("`");
    e
}

fn read_usize(doc: &JsonObject, key: &str) -> (r: std::result::Result<usize, String>)
    ensures
        match r {
            Ok(n) => uint_of(doc@, key@) is Some && n == (uint_of(doc@, key@)->0 as usize),
            Err(e) => uint_of(doc@, key@) is None && e@ == missing(key@),
        },
{
    match doc.uint(key) {
        Some(n) => Ok(#[verifier::truncate] (n as usize)),
        None => Err(missing_text(key)),
    }
}

fn read_first(doc: &JsonObject, a: &str, b: &str, c: &str) -> (r: Option<u64>)
    ensures
        r == first_uint(doc@, a@, b@, c@),
{
    match doc.uint(a) {
        Some(n) => Some(n),
        None => match doc.uint(b) {
            Some(n) => Some(n),
            None => doc.uint(c),
        },
    }
}

fn read_ffn(doc: &JsonObject) -> (r: std::result::Result<FeedForward, String>)
    ensures
        match r {
            Ok(f) => hf_ffn(doc@) == Ok::<FeedForward, Seq<char>>(f),
            Err(e) => hf_ffn(doc@) == Err::<FeedForward, Seq<char>>(e@),
        },
{
    // MoE checkpoints disagree on field names; accept the common spellings.
    let num_experts = read_first(doc, "num_local_experts", "num_experts", "n_routed_experts");
    let experts_per_token = read_first(
        doc,
        "num_experts_per_tok",
        "num_experts_per_token",
        "topk",
    );
    if let (Some(experts), Some(routed)) = (num_experts, experts_per_token) {
        let experts: usize = #[verifier::truncate] (experts as usize);
        if experts > 1 {
            let size: Option<u64> = match doc.uint("moe_intermediate_size") {
                Some(n) => Some(n),
                None => doc.uint("intermediate_size"),
            };
            return match size {
                Some(size) => Ok(
                    FeedForward::Moe {
                        num_experts: experts,
                        experts_per_token: #[verifier::truncate] (routed as usize),
                        expert_intermediate_size: #[verifier::truncate] (size as usize),
                        shared_experts: match doc.uint("n_shared_experts") {
                            Some(n) => #[verifier::truncate] (n as usize),
                            None => 0,
                        },
                    },
                ),
                None => Err(String::from_str("config.json is missing an expert intermediate size")),
            };
        }
    }
    match read_usize(doc, "intermediate_size") {
        Ok(intermediate_size) => Ok(FeedForward::Dense { intermediate_size }),
        Err(e) => Err(e),
    }
}

impl ModelConfig {
    /// Read geometry from the members of a Hugging Face `config.json`.
    pub fn from_hf_members(doc: &JsonObject, weights: WeightFormat, kv_dtype: DType) -> (r:
        std::result::Result<Self, String>)
        ensures
            match r {
                Ok(m) => hf_model(doc@, weights, kv_dtype) == Ok::<ModelView, Seq<char>>(m@),
                Err(e) => hf_model(doc@, weights, kv_dtype) == Err::<ModelView, Seq<char>>(e@),
            },
    {
        let hidden_size: usize = match read_usize(doc, "hidden_size") {
            Ok(n) => n,
            Err(e) => return Err(e),
        };
        let num_q_heads: usize = match read_usize(doc, "num_attention_heads") {
            Ok(n) => n,
            Err(e) => return Err(e),
        };
        let num_kv_heads: usize = match doc.uint("num_key_value_heads") {
            Some(n) => #[verifier::truncate] (n as usize),
            None => num_q_heads,
        };
        let head_dim: usize = match doc.uint("head_dim") {
            Some(n) => #[verifier::truncate] (n as usize),
            None => if num_q_heads == 0 {
                hidden_size
            } else {
                hidden_size / num_q_heads
            },
        };
        let ffn = match read_ffn(doc) {
            Ok(f) => f,
            Err(e) => return Err(e),
        };
        let name = match doc.text("_name_or_path") {
            Some(name) => String::from_str(name),
            None => String::from_str("unnamed"),
        };
        let num_layers: usize = match read_usize(doc, "num_hidden_layers") {
            Ok(n) => n,
            Err(e) => return Err(e),
        };
        let vocab_size: usize = match read_usize(doc, "vocab_size") {
            Ok(n) => n,
            Err(e) => return Err(e),
        };
        let tie_word_embeddings: bool = match doc.flag("tie_word_embeddings") {
            Some(b) => b,
            None => false,
        };
        let max_position_embeddings: usize = match doc.uint("max_position_embeddings") {
            Some(n) => #[verifier::truncate] (n as usize),
            None => 4096,
        };
        let model = ModelConfig {
            name,
            num_layers,
            hidden_size,
            attention: AttentionConfig { num_q_heads, num_kv_heads, head_dim },
            ffn,
            vocab_size,
            tie_word_embeddings,
            max_position_embeddings,
            weights,
            kv_dtype,
        };
        match model.validate() {
            Ok(_) => Ok(model),
            Err(e) => Err(e),
        }
    }

    /// Read geometry from a Hugging Face `config.json`.
    ///
    /// Prefer this over a preset. The checkpoint is the source of truth, and a
    /// preset that has drifted from it mis-sizes the KV cache silently.
    pub fn from_hf_config(json: &str, weights: WeightFormat, kv_dtype: DType) -> (r:
        std::result::Result<Self, String>)
        ensures
            match json_of_text(json@) {
                Ok(doc) => match r {
                    Ok(m) => hf_model(members_of(doc), weights, kv_dtype) == Ok::<
                        ModelView,
                        Seq<char>,
                    >(m@),
                    Err(e) => hf_model(members_of(doc), weights, kv_dtype) == Err::<
                        ModelView,
                        Seq<char>,
                    >(e@),
                },
                Err(why) => r is Err && r->Err_0@ == why,
            },
    {
        match parse_text(json) {
            Ok(doc) => Self::from_hf_members(&doc, weights, kv_dtype),
            Err(e) => Err(e),
        }
    }
}

/// A checkpoint that is read is valid, and nothing it lacks is made up: the
/// members that have to be there are.
pub proof fn law_a_geometry_that_is_read_is_valid(
    doc: Members,
    weights: WeightFormat,
    kv_dtype: DType,
)
    requires
        hf_model(doc, weights, kv_dtype) is Ok,
    ensures
        hf_model(doc, weights, kv_dtype)->Ok_0.fault() is None,
        uint_of(doc, "hidden_size"@) is Some,
        uint_of(doc, "num_attention_heads"@) is Some,
        uint_of(doc, "num_hidden_layers"@) is Some,
        uint_of(doc, "vocab_size"@) is Some,
{
}

proof fn lemma_product_is_nonnegative(a: nat, b: nat)
    ensures
        0 <= a * b,
{
}

/// A dense model activates every weight it has.
pub proof fn law_dense_models_activate_every_parameter(m: ModelView)
    requires
        m.ffn is Dense,
    ensures
        m.active() == m.total(),
{
}

/// A valid model never activates more weights than it has.
pub proof fn law_active_parameters_are_parameters(m: ModelView)
    requires
        m.fault() is None,
    ensures
        m.active() <= m.total(),
{
    if let FeedForward::Moe {
        num_experts,
        experts_per_token,
        expert_intermediate_size,
        shared_experts,
    } = m.ffn {
        let per_expert = gated(m.hidden(), expert_intermediate_size as nat);
        assert(per_expert * ((experts_per_token + shared_experts) as nat) <= per_expert * ((
        num_experts + shared_experts) as nat)) by (nonlinear_arith)
            requires
                experts_per_token <= num_experts,
                per_expert >= 0,
        ;
    }
    let a = m.attention_params() + m.ffn.active_spec(m.hidden());
    let b = m.layer_params();
    assert(a * m.num_layers as nat <= b * m.num_layers as nat) by (nonlinear_arith)
        requires
            a <= b,
            m.num_layers >= 0,
    ;
}

} // verus!
