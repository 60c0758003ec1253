//! What the sizes of a model come to, from the numbers in its geometry.
use vstd::arithmetic::div_mod::{lemma_fundamental_div_mod, lemma_mod_bound};
use vstd::prelude::*;

use super::config::{gated, hf_model, FeedForward, ModelView};
use super::dtype::{ceil_div, DType, WeightFormat};
use super::memory::{decode_ceiling, plan_spec, token_cost, PlanErrorView, PlanView};
use super::parallel::ParallelConfig;
use super::presets::{llama_shape, mixtral_shape, GpuView};
use crate::json::{flag_of, text_of, uint_of, Members};
use crate::number::{law_shares_are_rounded_to_the_nearest_side, Fraction, Ratio};
use crate::text::{decimal, one_decimal};

verus! {

/// Rounding a quotient up gives the least number of parts that hold the whole.
pub proof fn law_a_quotient_rounded_up_is_enough(a: nat, b: nat)
    requires
        b > 0,
    ensures
        ceil_div(a, b) * b >= a,
        ceil_div(a, b) * b < a + b,
        a > 0 ==> ceil_div(a, b) > 0,
{
    lemma_fundamental_div_mod(a as int, b as int);
    lemma_mod_bound(a as int, b as int);
    let q = a as int / b as int;
    assert(q * b == b * q && (q + 1) * b == b * q + b) by (nonlinear_arith);
    assert(q >= 0) by (nonlinear_arith)
        requires
            q == a as int / b as int,
            a >= 0,
            b > 0,
    ;
    if a > 0 && ceil_div(a, b) == 0 {
        assert(0 * b == 0);
    }
}

/// An element takes as many bits as its format says, and elements are packed: they
/// take the least number of whole bytes that hold their bits.
pub proof fn law_elements_are_packed(d: DType, n: nat)
    ensures
        d.width() == match d {
            DType::F32 => 32int,
            DType::F16 | DType::BF16 => 16,
            DType::F8E4M3 | DType::F8E5M2 | DType::I8 => 8,
            DType::I4 => 4,
        },
        d.size_of(n) * 8 >= n * d.width(),
        d.size_of(n) * 8 < n * d.width() + 8,
        d is F32 ==> d.size_of(n) == 4 * n,
        d is F16 || d is BF16 ==> d.size_of(n) == 2 * n,
        d is F8E4M3 || d is F8E5M2 || d is I8 ==> d.size_of(n) == n,
        d is I4 ==> 2 * d.size_of(n) == n + n % 2,
{
    law_a_quotient_rounded_up_is_enough(n * d.width(), 8);
}

/// Weights in groups carry a scale for each group, and a zero point as well where
/// the format has one; the last group may be short. Each is kept in the format of
/// scales. Without groups nothing is carried.
pub proof fn law_each_group_carries_its_scale(f: WeightFormat, n: nat)
    requires
        f.wf(),
    ensures
        f.group_size is None ==> f.size_of(n) == f.dtype.size_of(n),
        f.group_size is Some ==> exists|groups: nat|
            #![trigger groups * (f.group_size->0 as nat)]
            {
                &&& groups * (f.group_size->0 as nat) >= n
                &&& groups * (f.group_size->0 as nat) < n + f.group_size->0
                &&& !f.zero_point ==> f.size_of(n) == f.dtype.size_of(n) + groups
                    * f.scale_dtype.size_of(1)
                &&& f.zero_point ==> f.size_of(n) == f.dtype.size_of(n) + groups * (2
                    * f.scale_dtype.size_of(1))
            },
{
    if f.group_size is Some {
        let size = f.group_size->0 as nat;
        law_a_quotient_rounded_up_is_enough(n, size);
        let groups = ceil_div(n, size);
        assert(groups * (f.group_size->0 as nat) >= n);
    }
}

/// Every weight is counted: per layer the four projections of attention, two as wide
/// as the queries and two as wide as the keys, and three matrices for each gated
/// block, of which a dense layer has one and a routed layer one per expert beside a
/// router; and the embedding, twice where the output has a matrix of its own.
pub proof fn law_every_weight_is_counted(m: ModelView)
    ensures
        ({
            let h = m.hidden_size as int;
            let d = m.attention.head_dim as int;
            let attention = 2 * (h * (m.attention.num_q_heads * d)) + 2 * (h * (
            m.attention.num_kv_heads * d));
            let embedding = m.vocab_size * h;
            let output = if m.tie_word_embeddings {
                0
            } else {
                embedding
            };
            match m.ffn {
                FeedForward::Dense { intermediate_size } => {
                    &&& m.layer_params() == attention + 3 * (h * intermediate_size)
                    &&& m.total() == (attention + 3 * (h * intermediate_size)) * m.num_layers
                        + embedding + output
                    &&& m.active() == m.total()
                },
                FeedForward::Moe {
                    num_experts,
                    experts_per_token,
                    expert_intermediate_size,
                    shared_experts,
                } => {
                    let expert = 3 * (h * expert_intermediate_size);
                    let router = h * num_experts;
                    &&& m.layer_params() == attention + expert * (num_experts + shared_experts)
                        + router
                    &&& m.total() == (attention + expert * (num_experts + shared_experts) + router)
                        * m.num_layers + embedding + output
                    &&& m.active() == (attention + expert * (experts_per_token + shared_experts)
                        + router) * m.num_layers + embedding + output
                },
            }
        }),
{
}

/// A token keeps a key and a value in every layer, each as wide as its heads.
pub proof fn law_a_token_keeps_a_key_and_a_value_per_layer(m: ModelView)
    ensures
        ({
            let width = m.attention.num_kv_heads as nat * m.attention.head_dim as nat;
            let layers = m.num_layers as nat;
            &&& m.kv_dtype is F32 ==> m.kv_bytes() == 2 * (layers * (4 * width))
            &&& m.kv_dtype is F16 || m.kv_dtype is BF16 ==> m.kv_bytes() == 2 * (layers * (2
                * width))
            &&& m.kv_dtype is F8E4M3 || m.kv_dtype is F8E5M2 || m.kv_dtype is I8 ==> m.kv_bytes()
                == 2 * (layers * width)
            &&& m.kv_dtype is I4 && width % 2 == 0 ==> m.kv_bytes() == 2 * (layers * (width / 2))
        }),
{
    let width = m.attention.num_kv_heads as nat * m.attention.head_dim as nat;
    law_elements_are_packed(m.kv_dtype, width);
    assert(m.attention.kv_width() == width);
}

/// A geometry is valid exactly where there are heads, the query heads share the
/// key heads evenly, and a router picks some of its experts.
pub proof fn law_a_geometry_is_valid_if_its_parts_divide(m: ModelView)
    ensures
        m.fault() is None <==> {
            &&& m.attention.num_kv_heads >= 1
            &&& m.attention.num_q_heads >= 1
            &&& m.attention.num_q_heads as int % m.attention.num_kv_heads as int == 0
            &&& match m.ffn {
                FeedForward::Dense { .. } => true,
                FeedForward::Moe { num_experts, experts_per_token, .. } => 1 <= experts_per_token
                    <= num_experts,
            }
        },
{
}

/// A model can be split exactly where every degree is one at least, the heads divide
/// by the tensor degree, the layers by the pipeline degree and the experts by the
/// expert degree, which is no larger than the world; a model without experts has
/// nothing to split by the last.
pub proof fn law_a_split_is_valid_if_it_divides(p: ParallelConfig, m: ModelView)
    ensures
        p.fault(m) is None <==> {
            &&& p.tensor >= 1 && p.pipeline >= 1 && p.expert >= 1
            &&& m.attention.num_q_heads as int % p.tensor as int == 0
            &&& m.attention.num_kv_heads as int % p.tensor as int == 0
            &&& m.num_layers as int % p.pipeline as int == 0
            &&& match m.ffn {
                FeedForward::Dense { .. } => p.expert == 1,
                FeedForward::Moe { num_experts, .. } => num_experts as int % p.expert as int == 0
                    && p.expert <= p.tensor as int * p.pipeline as int,
            }
        },
{
}

/// What a rank holds: its share of the attention, of the dense and shared blocks and
/// of the embeddings by the tensor degree, its experts by the expert degree, and
/// the whole router; of its stage's layers only.
pub proof fn law_a_rank_holds_its_share(p: ParallelConfig, m: ModelView)
    requires
        p.fault(m) is None,
    ensures
        ({
            let h = m.hidden_size as int;
            let d = m.attention.head_dim as int;
            let attention = 2 * (h * (m.attention.num_q_heads * d)) + 2 * (h * (
            m.attention.num_kv_heads * d));
            let embeddings = if m.tie_word_embeddings {
                m.vocab_size * h
            } else {
                2 * (m.vocab_size * h)
            };
            let layers = m.num_layers as int / p.pipeline as int;
            let (t, e) = (p.tensor as int, p.expert as int);
            match m.ffn {
                FeedForward::Dense { intermediate_size } => p.rank_params(m) == ((attention + 3 * (h
                    * intermediate_size)) / t) * layers + embeddings / t,
                FeedForward::Moe {
                    num_experts,
                    experts_per_token,
                    expert_intermediate_size,
                    shared_experts,
                } => p.rank_params(m) == ((attention + 3 * (h * expert_intermediate_size)
                    * shared_experts) / t + (3 * (h * expert_intermediate_size) * num_experts) / e
                    + h * num_experts) * layers + embeddings / t,
            }
        }),
        p.rank_weight_bytes(m) == m.weights.size_of(p.rank_params(m)),
        p.rank_kv_bytes(m) == m.kv_bytes() / (p.tensor as nat * p.pipeline as nat),
{
    assert(m.embedding_params() / p.tensor as nat == m.embedding_params() as int
        / p.tensor as int);
    match m.ffn {
        FeedForward::Dense { intermediate_size } => {
            assert(0nat / p.expert as nat == 0) by (nonlinear_arith)
                requires
                    p.expert >= 1,
            ;
        },
        FeedForward::Moe { .. } => {},
    }
}

/// A plan needs a collective for each degree above one: a reduction where weights are
/// split, a handoff where layers are, and a dispatch where experts are; and one that
/// splits nothing says so.
pub proof fn law_each_degree_has_its_collective(p: ParallelConfig, m: ModelView)
    ensures
        ({
            let c = p.collectives(m);
            let routed = p.expert > 1 && m.ffn is Moe;
            &&& p.tensor <= 1 && p.pipeline <= 1 && !routed ==> c == seq![
                "none: single-rank execution"@,
            ]
            &&& p.tensor > 1 ==> c[0] == "all-reduce after attention and FFN (tensor parallel)"@
            &&& p.pipeline > 1 ==> c[if p.tensor > 1 {
                1
            } else {
                0
            }] == "point-to-point activation handoff between stages"@
            &&& routed ==> c.last() == "all-to-all dispatch and combine around the experts"@
            &&& p.tensor > 1 || p.pipeline > 1 || routed ==> c.len() == (if p.tensor > 1 {
                1int
            } else {
                0
            }) + (if p.pipeline > 1 {
                1int
            } else {
                0
            }) + (if routed {
                1int
            } else {
                0
            })
        }),
{
    let none = Seq::<Seq<char>>::empty();
    assert(none + none + none =~= none);
}

/// A kernel may be off by a part in a million in full precision, by a part in a
/// thousand in half, by eight in its brief form, by six hundredths in eight bits,
/// and by fifteen in four.
pub proof fn law_tolerances_grow_as_bits_shrink(d: DType)
    ensures
        d.tolerance().whole > 0,
        d is F32 ==> d.tolerance().part * 1_000_000 == d.tolerance().whole,
        d is F16 ==> d.tolerance().part * 1_000 == d.tolerance().whole,
        d is BF16 ==> d.tolerance().part * 1_000 == 8 * d.tolerance().whole,
        d.width() == 8 ==> d.tolerance().part * 100 == 6 * d.tolerance().whole,
        d.width() == 4 ==> d.tolerance().part * 100 == 15 * d.tolerance().whole,
{
}

/// A plan puts on the card as many blocks as fit beside the weights and the reserve,
/// and not one fewer; the reserve is the share of what the weights leave, rounded
/// down. It is refused exactly where the model cannot be split, the weights fill the
/// card, or not one block fits.
pub proof fn law_a_plan_uses_the_whole_card(
    m: ModelView,
    p: ParallelConfig,
    g: GpuView,
    block_size: nat,
    activations: Fraction,
    reserve: nat,
)
    requires
        block_size > 0,
        activations.num < activations.den,
        p.rank_weight_bytes(m) < g.memory_bytes ==> reserve * activations.den <= (g.memory_bytes
            - p.rank_weight_bytes(m)) * activations.num,
        p.rank_weight_bytes(m) < g.memory_bytes ==> (g.memory_bytes - p.rank_weight_bytes(m))
            * activations.num < (reserve + 1) * activations.den,
    ensures
        ({
            let plan = plan_spec(m, p, g, block_size, activations);
            let weights = p.rank_weight_bytes(m);
            let left = g.memory_bytes - weights - reserve;
            let cost = if p.rank_kv_bytes(m) == 0 {
                1
            } else {
                p.rank_kv_bytes(m)
            };
            &&& plan is Ok <==> p.fault(m) is None && weights < g.memory_bytes && left >= cost
                * block_size
            &&& plan matches Ok(got) ==> {
                &&& got.model == m.name
                &&& got.gpu == g.name
                &&& got.parallel == p
                &&& got.block_size == block_size
                &&& got.weight_bytes_per_rank == weights
                &&& got.activation_reserve_bytes == reserve
                &&& got.kv_bytes_per_rank == left
                &&& got.kv_bytes_per_token_per_rank == cost
                &&& got.num_blocks * (cost * block_size) <= left
                &&& (got.num_blocks + 1) * (cost * block_size) > left
                &&& got.total_kv_tokens == got.num_blocks * block_size
            }
            &&& p.fault(m) is Some ==> plan == Err::<PlanView, PlanErrorView>(
                PlanErrorView::Parallel(p.fault(m)->0),
            )
            &&& p.fault(m) is None && weights >= g.memory_bytes ==> {
                &&& plan is Err && plan->Err_0 is WeightsDoNotFit
                &&& plan->Err_0->WeightsDoNotFit_model == m.name
                &&& plan->Err_0->gpu == g.name
                &&& weights <= u64::MAX ==> plan->Err_0->weight_gib.part == weights
                &&& plan->Err_0->weight_gib.whole == 1024 * 1024 * 1024
                &&& plan->Err_0->capacity_gib.part == g.memory_bytes
                &&& plan->Err_0->capacity_gib.whole == 1024 * 1024 * 1024
            }
            &&& p.fault(m) is None && weights < g.memory_bytes && plan is Err ==> {
                &&& plan->Err_0 is NoRoomForContext
                &&& plan->Err_0->NoRoomForContext_model == m.name
                &&& plan->Err_0->leftover_gib.part == left
                &&& plan->Err_0->leftover_gib.whole == 1024 * 1024 * 1024
                &&& cost * block_size <= u64::MAX ==> plan->Err_0->needed_gib.part == cost
                    * block_size
                &&& plan->Err_0->needed_gib.whole == 1024 * 1024 * 1024
                &&& block_size <= usize::MAX ==> plan->Err_0->context == block_size
            }
        }),
{
    let weights = p.rank_weight_bytes(m);
    if p.fault(m) is None && weights < g.memory_bytes {
        let after = (g.memory_bytes - weights) as nat;
        law_shares_are_rounded_to_the_nearest_side(activations, after);
        let share = activations.of_rounded_down(after);
        assert(reserve == share) by (nonlinear_arith)
            requires
                share * activations.den <= after * activations.num,
                after * activations.num < (share + 1) * activations.den,
                reserve * activations.den <= after * activations.num,
                after * activations.num < (reserve + 1) * activations.den,
        ;
        assert(reserve <= after) by (nonlinear_arith)
            requires
                reserve * activations.den <= after * activations.num,
                activations.num < activations.den,
                after >= 0,
        ;
        let room = (after - reserve) as nat;
        let cost = token_cost(m, p);
        let per_block = cost * block_size;
        assert(per_block > 0) by (nonlinear_arith)
            requires
                per_block == cost * block_size,
                cost >= 1,
                block_size > 0,
        ;
        lemma_fundamental_div_mod(room as int, per_block as int);
        lemma_mod_bound(room as int, per_block as int);
        let n = room / per_block;
        assert(n * per_block <= room && (n + 1) * per_block > room) by (nonlinear_arith)
            requires
                room == per_block * n + room as int % per_block as int,
                0 <= (room as int % per_block as int) && (room as int % per_block as int)
                    < per_block,
        ;
        if n == 0 {
            assert((n + 1) * per_block == per_block) by (nonlinear_arith)
                requires
                    n == 0,
            ;
        } else {
            assert(n * per_block >= per_block) by (nonlinear_arith)
                requires
                    n >= 1,
                    per_block >= 0,
            ;
        }
    }
}

/// As many sequences of a context fit at once as there are blocks for: each takes
/// the blocks that its context fills, and one more would not fit.
pub proof fn law_as_many_sequences_as_their_blocks_allow(plan: PlanView, context: nat, each: nat)
    requires
        plan.block_size > 0,
        context > 0,
        each * plan.block_size >= context,
        each * plan.block_size < context + plan.block_size,
    ensures
        plan.concurrent(context) * each <= plan.num_blocks,
        plan.num_blocks < (plan.concurrent(context) + 1) * each,
        plan.concurrent(0) == 0,
{
    let size = plan.block_size;
    law_a_quotient_rounded_up_is_enough(context, size);
    let blocks = ceil_div(context, size);
    assert(blocks == each) by (nonlinear_arith)
        requires
            blocks * size >= context,
            blocks * size < context + size,
            each * size >= context,
            each * size < context + size,
            size > 0,
    ;
    lemma_fundamental_div_mod(plan.num_blocks as int, each as int);
    lemma_mod_bound(plan.num_blocks as int, each as int);
    let n = plan.num_blocks as int / each as int;
    assert(n * each <= plan.num_blocks && plan.num_blocks < (n + 1) * each) by (nonlinear_arith)
        requires
            plan.num_blocks == each * n + plan.num_blocks as int % each as int,
            0 <= (plan.num_blocks as int % each as int) && (plan.num_blocks as int % each as int) < each,
    ;
}

/// The rate that decoding cannot exceed is the bandwidth of all ranks over the
/// bytes of the weights that a token touches.
pub proof fn law_the_ceiling_is_bandwidth_over_bytes(m: ModelView, p: ParallelConfig, g: GpuView)
    requires
        m.weights.size_of(m.active()) <= u64::MAX,
        p.tensor as int * p.pipeline as int <= u32::MAX,
    ensures
        m.weights.size_of(m.active()) > 0 ==> decode_ceiling(m, p, g).part
            == g.hbm_bandwidth_bytes_per_s * (p.tensor as int * p.pipeline as int) && decode_ceiling(
            m,
            p,
            g,
        ).whole == m.weights.size_of(m.active()),
{
    let ranks = p.tensor as int * p.pipeline as int;
    assert(0 <= g.hbm_bandwidth_bytes_per_s * ranks <= u64::MAX as int * u32::MAX as int)
        by (nonlinear_arith)
        requires
            0 <= g.hbm_bandwidth_bytes_per_s <= u64::MAX,
            0 <= ranks <= u32::MAX,
    ;
}

/// What is read of a checkpoint is what its members say. The heads of keys and
/// values, and the width of a head, may be left out: then they follow from the
/// query heads. So may the name, the length of the context, and whether the
/// embeddings are shared.
pub proof fn law_a_checkpoint_is_read_member_by_member(
    doc: Members,
    weights: WeightFormat,
    kv_dtype: DType,
)
    requires
        usize::BITS == 64,
        hf_model(doc, weights, kv_dtype) is Ok,
    ensures
        ({
            let m = hf_model(doc, weights, kv_dtype)->Ok_0;
            let heads = uint_of(doc, "num_attention_heads"@)->0;
            &&& m.hidden_size == uint_of(doc, "hidden_size"@)->0
            &&& m.num_layers == uint_of(doc, "num_hidden_layers"@)->0
            &&& m.vocab_size == uint_of(doc, "vocab_size"@)->0
            &&& m.attention.num_q_heads == heads
            &&& uint_of(doc, "num_key_value_heads"@) is Some ==> m.attention.num_kv_heads
                == uint_of(doc, "num_key_value_heads"@)->0
            &&& uint_of(doc, "num_key_value_heads"@) is None ==> m.attention.num_kv_heads == heads
            &&& uint_of(doc, "head_dim"@) is Some ==> m.attention.head_dim == uint_of(
                doc,
                "head_dim"@,
            )->0
            &&& uint_of(doc, "head_dim"@) is None ==> m.attention.head_dim == m.hidden_size as int
                / heads as int
            &&& m.tie_word_embeddings <==> flag_of(doc, "tie_word_embeddings"@) == Some(true)
            &&& uint_of(doc, "max_position_embeddings"@) is Some ==> m.max_position_embeddings
                == uint_of(doc, "max_position_embeddings"@)->0
            &&& uint_of(doc, "max_position_embeddings"@) is None ==> m.max_position_embeddings
                == 4096
            &&& text_of(doc, "_name_or_path"@) is Some ==> m.name == text_of(
                doc,
                "_name_or_path"@,
            )->0
            &&& text_of(doc, "_name_or_path"@) is None ==> m.name == "unnamed"@
            &&& m.weights == weights
            &&& m.kv_dtype == kv_dtype
            &&& m.ffn matches FeedForward::Dense { intermediate_size } ==> intermediate_size
                == uint_of(doc, "intermediate_size"@)->0
        }),
{
    let m = hf_model(doc, weights, kv_dtype)->Ok_0;
    assert(m.fault() is None);
    assert(m.attention.num_q_heads >= 1);
    let h = m.hidden_size as int;
    let heads = m.attention.num_q_heads as int;
    assert(0 <= h / heads <= h) by (nonlinear_arith)
        requires
            h >= 0,
            heads >= 1,
    ;
}

/// A checkpoint is routed exactly where it has more than one expert and says how
/// many each token takes.
pub proof fn law_a_checkpoint_with_experts_is_routed(
    doc: Members,
    weights: WeightFormat,
    kv_dtype: DType,
)
    requires
        usize::BITS == 64,
        hf_model(doc, weights, kv_dtype) is Ok,
    ensures
        ({
            let m = hf_model(doc, weights, kv_dtype)->Ok_0;
            let (e1, e2, e3) = (
                uint_of(doc, "num_local_experts"@),
                uint_of(doc, "num_experts"@),
                uint_of(doc, "n_routed_experts"@),
            );
            let experts = if e1 is Some {
                e1
            } else if e2 is Some {
                e2
            } else {
                e3
            };
            let (r1, r2, r3) = (
                uint_of(doc, "num_experts_per_tok"@),
                uint_of(doc, "num_experts_per_token"@),
                uint_of(doc, "topk"@),
            );
            let routed = if r1 is Some {
                r1
            } else if r2 is Some {
                r2
            } else {
                r3
            };
            &&& m.ffn is Moe <==> experts is Some && experts->0 > 1 && routed is Some
            &&& m.ffn is Moe ==> m.ffn->num_experts == experts->0 && m.ffn->experts_per_token
                == routed->0
            &&& m.ffn is Moe && uint_of(doc, "moe_intermediate_size"@) is Some
                ==> m.ffn->expert_intermediate_size == uint_of(doc, "moe_intermediate_size"@)->0
            &&& m.ffn is Moe && uint_of(doc, "moe_intermediate_size"@) is None
                ==> m.ffn->expert_intermediate_size == uint_of(doc, "intermediate_size"@)->0
            &&& m.ffn is Moe && uint_of(doc, "n_shared_experts"@) is Some
                ==> m.ffn->shared_experts == uint_of(doc, "n_shared_experts"@)->0
            &&& m.ffn is Moe && uint_of(doc, "n_shared_experts"@) is None
                ==> m.ffn->shared_experts == 0
        }),
{
}

/// The dense shapes have heads of 128, share each key head among the query heads
/// evenly, and take contexts of 128 Ki tokens; the routed ones send each token to
/// two of eight experts, have eight key heads, and take 64 Ki. Weights and cache are
/// in 16 bits, and the output has a matrix of its own.
pub proof fn law_shapes_differ_only_in_what_they_are_given(
    name: Seq<char>,
    layers: usize,
    hidden: usize,
    q_heads: usize,
    kv_heads: usize,
    intermediate: usize,
)
    ensures
        ({
            let m = llama_shape(name, layers, hidden, q_heads, kv_heads, intermediate);
            &&& m.name == name && m.num_layers == layers && m.hidden_size == hidden
            &&& m.attention.num_q_heads == q_heads && m.attention.num_kv_heads == kv_heads
            &&& m.attention.head_dim == 128
            &&& m.ffn == FeedForward::Dense { intermediate_size: intermediate }
            &&& m.vocab_size == 128_256
            &&& m.max_position_embeddings == 128 * 1024
            &&& !m.tie_word_embeddings
            &&& m.weights.dtype is BF16 && m.weights.group_size is None && m.kv_dtype is BF16
        }),
        ({
            let m = mixtral_shape(name, layers, hidden, q_heads, intermediate);
            &&& m.name == name && m.num_layers == layers && m.hidden_size == hidden
            &&& m.attention.num_q_heads == q_heads && m.attention.num_kv_heads == 8
            &&& m.attention.head_dim == 128
            &&& m.ffn is Moe
            &&& m.ffn->num_experts == 8 && m.ffn->experts_per_token == 2
            &&& m.ffn->shared_experts == 0 && m.ffn->expert_intermediate_size == intermediate
            &&& m.vocab_size == 32_000
            &&& m.max_position_embeddings == 64 * 1024
            &&& !m.tie_word_embeddings
            &&& m.weights.dtype is BF16 && m.weights.group_size is None && m.kv_dtype is BF16
        }),
{
}

/// Whatever has no more than `2^64 - 1` weights can be counted.
pub proof fn law_what_fits_64_bits_is_counted(m: ModelView)
    requires
        usize::BITS == 64,
        m.num_layers >= 1,
        m.hidden_size >= 1,
        m.total() <= u64::MAX,
        m.ffn is Moe ==> m.ffn->num_experts + m.ffn->shared_experts <= usize::MAX,
        m.ffn is Moe ==> m.ffn->num_experts >= 1,
    ensures
        m.total_fits(),
{
    let (h, layers) = (m.hidden() as int, m.num_layers as int);
    let layer = m.layer_params() as int;
    assert(layer <= layer * layers) by (nonlinear_arith)
        requires
            layer >= 0,
            layers >= 1,
    ;
    assert(layer <= m.total());
    let (q, kv) = (m.attention.q_width() as int, m.attention.kv_width() as int);
    assert(q <= h * q && kv <= h * kv) by (nonlinear_arith)
        requires
            h >= 1,
            q >= 0,
            kv >= 0,
    ;
    assert(m.attention_params() <= layer);
    if let FeedForward::Moe {
        num_experts,
        experts_per_token,
        expert_intermediate_size,
        shared_experts,
    } = m.ffn {
        let expert = gated(m.hidden(), expert_intermediate_size as nat) as int;
        let held = num_experts + shared_experts;
        assert(expert <= expert * held) by (nonlinear_arith)
            requires
                expert >= 0,
                held >= 1,
        ;
        assert(0 <= h * num_experts) by (nonlinear_arith)
            requires
                h >= 1,
                num_experts >= 0,
        ;
        assert(m.ffn.params_spec(m.hidden()) == expert * held + h * num_experts);
    }
}

/// A refused plan says why, with the sizes in gibibytes.
pub proof fn law_a_refusal_says_why(
    why: Seq<char>,
    model: Seq<char>,
    gpu: Seq<char>,
    a: Ratio,
    b: Ratio,
    context: usize,
)
    ensures
        PlanErrorView::Parallel(why).message() == "invalid parallelism plan: "@ + why,
        (PlanErrorView::WeightsDoNotFit { model, gpu, weight_gib: a, capacity_gib: b }).message()
            == model + ": weights need "@ + one_decimal(a.part as nat, 1_073_741_824)
            + " GiB per rank but "@ + gpu + " has "@ + one_decimal(b.part as nat, 1_073_741_824)
            + " GiB. Raise tensor or pipeline parallelism, or quantize the weights"@,
        (PlanErrorView::NoRoomForContext {
            model,
            leftover_gib: a,
            needed_gib: b,
            context,
        }).message() == model + ": "@ + one_decimal(a.part as nat, 1_073_741_824)
            + " GiB left for KV after weights and activations, under the "@ + one_decimal(
            b.part as nat,
            1_073_741_824,
        ) + " GiB one sequence of "@ + decimal(context as nat) + " tokens requires"@,
{
}

/// Of several things that are wrong with a geometry the first is named: heads that
/// are not there, heads that do not divide, and experts that cannot be picked.
pub proof fn law_the_first_fault_of_a_geometry_is_named(m: ModelView)
    ensures
        ({
            let (q, kv) = (m.attention.num_q_heads, m.attention.num_kv_heads);
            &&& q == 0 || kv == 0 ==> m.fault() == Some(
                "attention must have at least one query and KV head"@,
            )
            &&& q > 0 && kv > 0 && q as int % kv as int != 0 ==> m.fault() == Some(
                m.name + ": "@ + decimal(q as nat) + " query heads do not divide evenly into "@
                    + decimal(kv as nat) + " KV heads"@,
            )
            &&& q > 0 && kv > 0 && q as int % kv as int == 0 && m.ffn is Moe && (
            m.ffn->experts_per_token == 0 || m.ffn->experts_per_token > m.ffn->num_experts)
                ==> m.fault() == Some(
                m.name + ": routes "@ + decimal(m.ffn->experts_per_token as nat) + " of "@
                    + decimal(m.ffn->num_experts as nat) + " experts"@,
            )
        }),
{
}

/// Of several reasons why a model cannot be split the first is named: a degree of
/// zero, query heads, key heads, layers and experts that do not divide, more expert
/// ranks than ranks, and experts that are not there.
pub proof fn law_the_first_fault_of_a_split_is_named(p: ParallelConfig, m: ModelView)
    ensures
        ({
            let degrees = p.tensor > 0 && p.pipeline > 0 && p.expert > 0;
            let q = m.attention.num_q_heads as int % p.tensor as int == 0;
            let kv = m.attention.num_kv_heads as int % p.tensor as int == 0;
            let stages = m.num_layers as int % p.pipeline as int == 0;
            &&& !degrees ==> p.fault(m) == Some("parallel degrees must be at least 1"@)
            &&& degrees && !q ==> p.fault(m) == Some(
                "tp="@ + decimal(p.tensor as nat) + ": "@ + decimal(
                    m.attention.num_q_heads as nat,
                ) + " query heads do not divide evenly"@,
            )
            &&& degrees && q && !kv ==> p.fault(m) == Some(
                "tp="@ + decimal(p.tensor as nat) + ": "@ + decimal(
                    m.attention.num_kv_heads as nat,
                )
                    + " KV heads do not divide evenly. Either lower tp, or replicate KV heads and accept the duplicated cache"@,
            )
            &&& degrees && q && kv && !stages ==> p.fault(m) == Some(
                "pp="@ + decimal(p.pipeline as nat) + ": "@ + decimal(m.num_layers as nat)
                    + " layers do not divide evenly"@,
            )
            &&& degrees && q && kv && stages && m.ffn is Dense && p.expert > 1 ==> p.fault(m)
                == Some("expert parallelism requires an MoE model"@)
            &&& degrees && q && kv && stages && m.ffn is Moe && m.ffn->num_experts as int
                % p.expert as int != 0 ==> p.fault(m) == Some(
                "ep="@ + decimal(p.expert as nat) + ": "@ + decimal(m.ffn->num_experts as nat)
                    + " experts do not divide evenly"@,
            )
            &&& degrees && q && kv && stages && m.ffn is Moe && m.ffn->num_experts as int
                % p.expert as int == 0 && p.expert > p.tensor as int * p.pipeline as int
                ==> p.fault(m) == Some(
                "ep="@ + decimal(p.expert as nat) + " exceeds the world size of "@ + decimal(
                    p.tensor as nat * p.pipeline as nat,
                ),
            )
        }),
{
}

/// Of several members that a checkpoint leaves out, the first is named: the hidden
/// size, the heads, what the feed-forward block needs, the layers, the vocabulary.
pub proof fn law_the_first_missing_member_of_a_checkpoint_is_named(
    doc: Members,
    weights: WeightFormat,
    kv_dtype: DType,
)
    ensures
        ({
            let there = |name: Seq<char>| uint_of(doc, name) is Some;
            let lacks = |name: Seq<char>|
                Err::<ModelView, Seq<char>>("config.json is missing `"@ + name + "`"@);
            let read = hf_model(doc, weights, kv_dtype);
            &&& !there("hidden_size"@) ==> read == lacks("hidden_size"@)
            &&& there("hidden_size"@) && !there("num_attention_heads"@) ==> read == lacks(
                "num_attention_heads"@,
            )
            &&& there("hidden_size"@) && there("num_attention_heads"@) && !there("num_local_experts"@)
                && !there("num_experts"@) && !there("n_routed_experts"@) && !there("intermediate_size"@)
                ==> read == lacks("intermediate_size"@)
            &&& there("hidden_size"@) && there("num_attention_heads"@) && there("intermediate_size"@)
                && !there("num_hidden_layers"@) ==> read == lacks("num_hidden_layers"@)
            &&& there("hidden_size"@) && there("num_attention_heads"@) && there("intermediate_size"@)
                && there("num_hidden_layers"@) && !there("vocab_size"@) ==> read == lacks(
                "vocab_size"@,
            )
        }),
{
}

} // verus!
