//! Capacity planning: what fits on a rank, and how much context is left over.
//!
//! Serving a large model is mostly an arithmetic problem before it is a
//! performance problem. Weights, activation working set and KV cache compete
//! for the same HBM, and the KV cache is whatever survives the other two. This
//! module does that subtraction explicitly so a deployment fails at planning
//! time rather than with an out-of-memory error mid-request.
use vstd::prelude::*;

use super::config::{ModelConfig, ModelView};
use super::dtype::{ceil_div, div_ceil};
use super::parallel::ParallelConfig;
use super::presets::{GpuProfile, GpuView};
use crate::number::{lemma_product_fits, Fraction, Ratio};
use crate::text::{decimal, one_decimal, push_decimal, push_one_decimal};

verus! {

/// Bytes in a gibibyte.
pub const GIB: u64 = 1_073_741_824;

/// A number of bytes in gibibytes.
pub open spec fn gib(bytes: nat) -> Ratio {
    Ratio { part: bytes as u128, whole: 1_073_741_824 }
}

fn in_gib(bytes: u64) -> (r: Ratio)
    ensures
        r == gib(bytes as nat),
{
    Ratio { part: bytes as u128, whole: 1_073_741_824 }
}

/// Why a deployment is refused.
#[derive(Debug)]
pub enum PlanError {
    WeightsDoNotFit {
        model: String,
        gpu: &'static str,
        weight_gib: Ratio,
        capacity_gib: Ratio,
    },
    NoRoomForContext {
        model: String,
        leftover_gib: Ratio,
        needed_gib: Ratio,
        context: usize,
    },
    Parallel(String),
}

/// Why a deployment is refused, as values.
#[verifier::ext_equal]
pub enum PlanErrorView {
    WeightsDoNotFit {
        model: Seq<char>,
        gpu: Seq<char>,
        weight_gib: Ratio,
        capacity_gib: Ratio,
    },
    NoRoomForContext {
        model: Seq<char>,
        leftover_gib: Ratio,
        needed_gib: Ratio,
        context: usize,
    },
    Parallel(Seq<char>),
}

impl View for PlanError {
    type V = PlanErrorView;

    open spec fn view(&self) -> PlanErrorView {
        match self {
            PlanError::WeightsDoNotFit { model, gpu, weight_gib, capacity_gib } =>
                PlanErrorView::WeightsDoNotFit {
                model: model@,
                gpu: gpu@,
                weight_gib: *weight_gib,
                capacity_gib: *capacity_gib,
            },
            PlanError::NoRoomForContext { model, leftover_gib, needed_gib, context } =>
                PlanErrorView::NoRoomForContext {
                model: model@,
                leftover_gib: *leftover_gib,
                needed_gib: *needed_gib,
                context: *context,
            },
            PlanError::Parallel(why) => PlanErrorView::Parallel(why@),
        }
    }
}

impl PlanErrorView {
    /// The sizes in it are numbers of bytes over a gibibyte.
    pub open spec fn wf(self) -> bool {
        match self {
            PlanErrorView::WeightsDoNotFit { weight_gib, capacity_gib, .. } => {
                &&& weight_gib.part <= u64::MAX && weight_gib.whole == GIB
                &&& capacity_gib.part <= u64::MAX && capacity_gib.whole == GIB
            },
            PlanErrorView::NoRoomForContext { leftover_gib, needed_gib, .. } => {
                &&& leftover_gib.part <= u64::MAX && leftover_gib.whole == GIB
                &&& needed_gib.part <= u64::MAX && needed_gib.whole == GIB
            },
            PlanErrorView::Parallel(_) => true,
        }
    }

    /// The wording of the refusal.
    pub open spec fn message(self) -> Seq<char> {
        match self {
            PlanErrorView::WeightsDoNotFit { model, gpu, weight_gib, capacity_gib } => model
                + ": weights need "@ + one_decimal(weight_gib.part as nat, GIB as nat)
                + " GiB per rank but "@ + gpu + " has "@ + one_decimal(
                capacity_gib.part as nat,
                GIB as nat,
            )
                + " GiB. Raise tensor or pipeline parallelism, or quantize the weights"@,
            PlanErrorView::NoRoomForContext { model, leftover_gib, needed_gib, context } => model
                + ": "@ + one_decimal(leftover_gib.part as nat, GIB as nat)
                + " GiB left for KV after weights and activations, under the "@ + one_decimal(
                needed_gib.part as nat,
                GIB as nat,
            ) + " GiB one sequence of "@ + decimal(context as nat) + " tokens requires"@,
            PlanErrorView::Parallel(why) => "invalid parallelism plan: "@ + why,
        }
    }
}

impl PlanError {
    pub fn message(&self) -> (r: String)
        requires
            self@.wf(),
        ensures
            r@ == self@.message(),
    {
        match self {
            PlanError::WeightsDoNotFit { model, gpu, weight_gib, capacity_gib } => {
                let mut out = model.clone();
                out.append(": weights need ");
                push_one_decimal(&mut out, weight_gib.part as u64, GIB);
                out.append(" GiB per rank but ");
                out.append(gpu);
                out.append(" has ");
                push_one_decimal(&mut out, capacity_gib.part as u64, GIB);
                out.append(
                    " GiB. Raise tensor or pipeline parallelism, or quantize the weights",
                );
                out
            },
            PlanError::NoRoomForContext { model, leftover_gib, needed_gib, context } => {
                let mut out = model.clone();
                out.append(": ");
                push_one_decimal(&mut out, leftover_gib.part as u64, GIB);
                out.append(" GiB left for KV after weights and activations, under the ");
                push_one_decimal(&mut out, needed_gib.part as u64, GIB);
                out.append(" GiB one sequence of ");
                push_decimal(&mut out, *context as u64);
                out.append(" tokens requires");
                out
            },
            PlanError::Parallel(why) => {
                let mut out = String::from_str("invalid parallelism plan: ");
                out.append(why.as_str());
                out
            },
        }
    }
}

#[derive(Debug, Clone, PartialEq)]
pub struct MemoryPlan {
    pub model: String,
    pub gpu: &'static str,
    pub parallel: ParallelConfig,
    pub block_size: usize,
    pub weight_bytes_per_rank: u64,
    pub activation_reserve_bytes: u64,
    pub kv_bytes_per_rank: u64,
    pub kv_bytes_per_token_per_rank: u64,
    /// KV blocks that fit on one rank.
    pub num_blocks: usize,
    /// Total tokens of KV those blocks hold.
    pub total_kv_tokens: usize,
}

/// A capacity plan, as values.
#[verifier::ext_equal]
pub struct PlanView {
    pub model: Seq<char>,
    pub gpu: Seq<char>,
    pub parallel: ParallelConfig,
    pub block_size: nat,
    pub weight_bytes_per_rank: nat,
    pub activation_reserve_bytes: nat,
    pub kv_bytes_per_rank: nat,
    pub kv_bytes_per_token_per_rank: nat,
    pub num_blocks: nat,
    pub total_kv_tokens: nat,
}

impl View for MemoryPlan {
    type V = PlanView;

    open spec fn view(&self) -> PlanView {
        PlanView {
            model: self.model@,
            gpu: self.gpu@,
            parallel: self.parallel,
            block_size: self.block_size as nat,
            weight_bytes_per_rank: self.weight_bytes_per_rank as nat,
            activation_reserve_bytes: self.activation_reserve_bytes as nat,
            kv_bytes_per_rank: self.kv_bytes_per_rank as nat,
            kv_bytes_per_token_per_rank: self.kv_bytes_per_token_per_rank as nat,
            num_blocks: self.num_blocks as nat,
            total_kv_tokens: self.total_kv_tokens as nat,
        }
    }
}

/// KV-cache bytes a token costs a rank, and one byte where it would cost none.
pub open spec fn token_cost(m: ModelView, p: ParallelConfig) -> nat {
    if p.rank_kv_bytes(m) >= 1 {
        p.rank_kv_bytes(m)
    } else {
        1
    }
}

/// What is left of a card of `memory` bytes for the KV cache.
pub open spec fn kv_room(memory: nat, weights: nat, activations: Fraction) -> nat {
    let after = (memory - weights) as nat;
    (after - activations.of_rounded_down(after)) as nat
}

/// What fits on a rank, or why nothing does.
pub open spec fn plan_spec(
    m: ModelView,
    p: ParallelConfig,
    g: GpuView,
    block_size: nat,
    activations: Fraction,
) -> std::result::Result<PlanView, PlanErrorView> {
    let weights = p.rank_weight_bytes(m);
    let memory = g.memory_bytes as nat;
    let room = kv_room(memory, weights, activations);
    let per_block = token_cost(m, p) * block_size;
    if p.fault(m) is Some {
        Err(PlanErrorView::Parallel(p.fault(m)->0))
    } else if weights >= memory {
        Err(
            PlanErrorView::WeightsDoNotFit {
                model: m.name,
                gpu: g.name,
                weight_gib: gib(weights),
                capacity_gib: gib(memory),
            },
        )
    } else if room / per_block == 0 {
        Err(
            PlanErrorView::NoRoomForContext {
                model: m.name,
                leftover_gib: gib(room),
                needed_gib: gib(per_block),
                context: block_size as usize,
            },
        )
    } else {
        Ok(
            PlanView {
                model: m.name,
                gpu: g.name,
                parallel: p,
                block_size,
                weight_bytes_per_rank: weights,
                activation_reserve_bytes: activations.of_rounded_down((memory - weights) as nat),
                kv_bytes_per_rank: room,
                kv_bytes_per_token_per_rank: token_cost(m, p),
                num_blocks: room / per_block,
                total_kv_tokens: (room / per_block) * block_size,
            },
        )
    }
}

/// The numbers of a plan fit the machine: as many of them as it takes to accept
/// or refuse it.
pub open spec fn plannable(
    m: ModelView,
    p: ParallelConfig,
    g: GpuView,
    block_size: nat,
) -> bool {
    p.fault(m) is None ==> {
        &&& p.rank_sizeable(m)
        &&& p.rank_weight_bytes(m) < g.memory_bytes ==> {
            &&& m.kv_sizeable()
            &&& p.world() <= usize::MAX
            &&& token_cost(m, p) * block_size <= u64::MAX
            &&& g.memory_bytes <= usize::MAX
        }
    }
}

proof fn lemma_reserve_is_a_part(after: nat, f: Fraction)
    requires
        f.num < f.den,
    ensures
        f.of_rounded_down(after) <= after,
{
    assert((after * f.num) / f.den as int <= after) by (nonlinear_arith)
        requires
            f.num < f.den,
            after >= 0,
    ;
}

proof fn lemma_blocks_hold_their_tokens(room: nat, cost: nat, size: nat)
    requires
        cost >= 1,
        size > 0,
    ensures
        cost * size > 0,
        (room / (cost * size)) * size <= room,
        room / (cost * size) <= room,
{
    let per_block = cost * size;
    assert(per_block >= size) by (nonlinear_arith)
        requires
            per_block == cost * size,
            cost >= 1,
            size > 0,
    ;
    let n = room / per_block;
    assert(n * per_block <= room && n <= room) by (nonlinear_arith)
        requires
            n == room / per_block,
            per_block > 0,
            room >= 0,
    ;
    assert(n * size <= n * per_block) by (nonlinear_arith)
        requires
            size <= per_block,
            n >= 0,
    ;
}

proof fn lemma_world_is_positive(p: ParallelConfig, m: ModelView)
    requires
        p.fault(m) is None,
    ensures
        p.world() > 0,
{
    assert(p.world() > 0) by (nonlinear_arith)
        requires
            p.world() == p.tensor as nat * p.pipeline as nat,
            p.tensor > 0,
            p.pipeline > 0,
    ;
}

impl MemoryPlan {
    /// Work out how much KV cache is left once weights and activations are paid
    /// for.
    ///
    /// `activation_fraction` reserves a share of what remains after weights for
    /// activations, workspace and fragmentation. It is a headroom knob, not a
    /// measurement — profile a real deployment and set it from what you see.
    pub fn new(
        model: &ModelConfig,
        parallel: ParallelConfig,
        gpu: GpuProfile,
        block_size: usize,
        activation_fraction: Fraction,
    ) -> (r: std::result::Result<Self, PlanError>)
        requires
            block_size > 0,
            activation_fraction.num < activation_fraction.den,
            plannable(model@, parallel, gpu@, block_size as nat),
        ensures
            ({
                let plan = plan_spec(
                    model@,
                    parallel,
                    gpu@,
                    block_size as nat,
                    activation_fraction,
                );
                match r {
                    Ok(p) => plan == Ok::<PlanView, PlanErrorView>(p@) && p@.wf(),
                    Err(e) => plan == Err::<PlanView, PlanErrorView>(e@) && e@.wf(),
                }
            }),
    {
        if let Err(why) = parallel.validate(model) {
            return Err(PlanError::Parallel(why));
        }
        let weight_bytes: u64 = parallel.weight_bytes_per_rank(model);
        if weight_bytes >= gpu.memory_bytes {
            return Err(
                PlanError::WeightsDoNotFit {
                    model: model.name.clone(),
                    gpu: gpu.name,
                    weight_gib: in_gib(weight_bytes),
                    capacity_gib: in_gib(gpu.memory_bytes),
                },
            );
        }
        let after_weights: u64 = gpu.memory_bytes - weight_bytes;
        proof {
            lemma_reserve_is_a_part(after_weights as nat, activation_fraction);
            lemma_world_is_positive(parallel, model@);
        }
        let activation_reserve: u64 = activation_fraction.round_down(after_weights) as u64;
        let kv_bytes: u64 = after_weights - activation_reserve;
        let cost: u64 = parallel.kv_bytes_per_token_per_rank(model);
        let per_token: u64 = if cost >= 1 {
            cost
        } else {
            1
        };
        proof {
            lemma_blocks_hold_their_tokens(kv_bytes as nat, per_token as nat, block_size as nat);
        }
        let bytes_per_block: u64 = per_token * block_size as u64;
        let num_blocks: usize = (kv_bytes / bytes_per_block) as usize;
        if num_blocks == 0 {
            return Err(
                PlanError::NoRoomForContext {
                    model: model.name.clone(),
                    leftover_gib: in_gib(kv_bytes),
                    needed_gib: in_gib(bytes_per_block),
                    context: block_size,
                },
            );
        }
        Ok(
            MemoryPlan {
                model: model.name.clone(),
                gpu: gpu.name,
                parallel,
                block_size,
                weight_bytes_per_rank: weight_bytes,
                activation_reserve_bytes: activation_reserve,
                kv_bytes_per_rank: kv_bytes,
                kv_bytes_per_token_per_rank: per_token,
                num_blocks,
                total_kv_tokens: num_blocks * block_size,
            },
        )
    }

    /// Whether the numbers of a plan fit the machine, so that it can be worked
    /// out.
    pub fn can_be_planned(
        model: &ModelConfig,
        parallel: ParallelConfig,
        gpu: GpuProfile,
        block_size: usize,
    ) -> (r: bool)
        requires
            block_size > 0,
        ensures
            r == plannable(model@, parallel, gpu@, block_size as nat),
    {
        if parallel.validate(model).is_err() {
            return true;
        }
        if let Some(group) = model.weights.group_size {
            if group == 0 {
                return false;
            }
        }
        if !parallel.is_rank_sizeable(model) {
            return false;
        }
        if parallel.weight_bytes_per_rank(model) >= gpu.memory_bytes {
            return true;
        }
        if !model.is_kv_sizeable() || gpu.memory_bytes > usize::MAX as u64 {
            return false;
        }
        if parallel.tensor.checked_mul(parallel.pipeline).is_none() {
            return false;
        }
        proof {
            lemma_world_is_positive(parallel, model@);
        }
        let cost: u64 = parallel.kv_bytes_per_token_per_rank(model);
        let per_token: u64 = if cost >= 1 {
            cost
        } else {
            1
        };
        per_token.checked_mul(block_size as u64).is_some()
    }

    /// Sequences of `context` tokens that fit concurrently, ignoring sharing.
    ///
    /// This is the pessimistic figure. Prefix reuse raises it whenever requests
    /// share a system prompt, which is exactly the case the cache exists for.
    pub fn concurrent_sequences(&self, context: usize) -> (r: usize)
        requires
            self.block_size > 0,
        ensures
            r == self@.concurrent(context as nat),
    {
        if context == 0 {
            return 0;
        }
        let blocks_each: usize = div_ceil(context, self.block_size);
        proof {
            lemma_some_block_each(context as nat, self.block_size as nat);
        }
        self.num_blocks / blocks_each
    }

    /// Longest single sequence the cache can hold.
    pub fn max_context(&self) -> (r: usize)
        ensures
            r == self@.total_kv_tokens,
    {
        self.total_kv_tokens
    }

    pub fn weight_gib(&self) -> (r: Ratio)
        ensures
            r == gib(self@.weight_bytes_per_rank),
    {
        in_gib(self.weight_bytes_per_rank)
    }

    pub fn kv_gib(&self) -> (r: Ratio)
        ensures
            r == gib(self@.kv_bytes_per_rank),
    {
        in_gib(self.kv_bytes_per_rank)
    }

    /// A human-readable summary, for startup logs and capacity reviews.
    pub fn summary(&self) -> (r: String)
        requires
            self@.wf(),
        ensures
            r@ == self@.summary(),
    {
        let mut out = self.model.clone();
        out.append(" on ");
        push_decimal(&mut out, self.parallel.world_size() as u64);
        out.append("x ");
        out.append(self.gpu);
        out.append(" (tp=");
        push_decimal(&mut out, self.parallel.tensor as u64);
        out.append(" pp=");
        push_decimal(&mut out, self.parallel.pipeline as u64);
        out.append(" ep=");
        push_decimal(&mut out, self.parallel.expert as u64);
        out.append(")\n  weights ");
        push_one_decimal(&mut out, self.weight_bytes_per_rank, GIB);
        out.append(" GiB/rank | activations ");
        push_one_decimal(&mut out, self.activation_reserve_bytes, GIB);
        out.append(" GiB/rank | KV ");
        push_one_decimal(&mut out, self.kv_bytes_per_rank, GIB);
        out.append(" GiB/rank\n  ");
        push_decimal(&mut out, self.num_blocks as u64);
        out.append(" blocks of ");
        push_decimal(&mut out, self.block_size as u64);
        out.append(" tokens = ");
        push_decimal(&mut out, self.total_kv_tokens as u64);
        out.append(" tokens of KV per rank\n  ");
        push_decimal(&mut out, self.concurrent_sequences(4096) as u64);
        out.append(" concurrent sequences at 4k context, ");
        push_decimal(&mut out, self.concurrent_sequences(32_768) as u64);
        out.append(" at 32k");
        out
    }
}

proof fn lemma_some_block_each(context: nat, size: nat)
    requires
        context > 0,
        size > 0,
    ensures
        ceil_div(context, size) > 0,
{
    if context % size == 0 {
        assert(context / size > 0) by (nonlinear_arith)
            requires
                context > 0,
                size > 0,
                context % size == 0,
        ;
    }
}

impl PlanView {
    /// A plan has blocks of some size, and its world can be counted.
    pub open spec fn wf(self) -> bool {
        self.block_size > 0 && self.parallel.world() <= usize::MAX
    }

    /// Sequences of `context` tokens that fit at once.
    pub open spec fn concurrent(self, context: nat) -> nat {
        if context == 0 {
            0
        } else {
            self.num_blocks / ceil_div(context, self.block_size)
        }
    }

    pub open spec fn summary(self) -> Seq<char> {
        self.model + " on "@ + decimal(self.parallel.world()) + "x "@ + self.gpu + " (tp="@
            + decimal(self.parallel.tensor as nat) + " pp="@ + decimal(
            self.parallel.pipeline as nat,
        ) + " ep="@ + decimal(self.parallel.expert as nat) + ")\n  weights "@ + one_decimal(
            self.weight_bytes_per_rank,
            GIB as nat,
        ) + " GiB/rank | activations "@ + one_decimal(self.activation_reserve_bytes, GIB as nat)
            + " GiB/rank | KV "@ + one_decimal(self.kv_bytes_per_rank, GIB as nat)
            + " GiB/rank\n  "@ + decimal(self.num_blocks) + " blocks of "@ + decimal(
            self.block_size,
        ) + " tokens = "@ + decimal(self.total_kv_tokens) + " tokens of KV per rank\n  "@
            + decimal(self.concurrent(4096)) + " concurrent sequences at 4k context, "@ + decimal(
            self.concurrent(32_768),
        ) + " at 32k"@
    }
}

/// Tokens per second that one sequence could decode at best: every active
/// weight is read once per token, so the bandwidth of all ranks over the bytes
/// of the active weights.
pub open spec fn decode_ceiling(model: ModelView, parallel: ParallelConfig, gpu: GpuView) -> Ratio {
    Ratio::share_spec(
        (gpu.hbm_bandwidth_bytes_per_s * parallel.world()) as nat,
        model.weights.size_of(model.active()),
    )
}

/// Decode is bandwidth-bound: every generated token reads the active weights
/// from HBM once. This is the ceiling that ratio implies, before any batching,
/// kernel efficiency or cache traffic is accounted for.
///
/// It is an upper bound derived from published peak bandwidth, not a
/// prediction. A real deployment lands below it.
pub fn decode_bandwidth_ceiling_tokens_per_s(
    model: &ModelConfig,
    parallel: ParallelConfig,
    gpu: GpuProfile,
) -> (r: Ratio)
    requires
        model@.active_fits(),
        model.weights.wf(),
        model@.active() <= usize::MAX,
        model.weights.sizeable(model@.active()),
        parallel.world() <= usize::MAX,
    ensures
        r == decode_ceiling(model@, parallel, gpu@),
        r.wf(),
{
    let active: usize = model.weights.bytes_for(model.active_params() as usize);
    let ranks: usize = parallel.world_size();
    proof {
        lemma_product_fits(gpu.hbm_bandwidth_bytes_per_s as int, ranks as int);
    }
    Ratio::share(gpu.hbm_bandwidth_bytes_per_s as u128 * ranks as u128, active as u128)
}

/// Weights, activations and KV cache share the card and nothing else: an
/// approved plan accounts for every byte, and its blocks fit the KV share.
pub proof fn law_a_plan_spends_the_card_once(
    m: ModelView,
    p: ParallelConfig,
    g: GpuView,
    block_size: nat,
    activations: Fraction,
)
    requires
        block_size > 0,
        activations.num < activations.den,
        plan_spec(m, p, g, block_size, activations) is Ok,
    ensures
        ({
            let plan = plan_spec(m, p, g, block_size, activations)->Ok_0;
            &&& plan.weight_bytes_per_rank + plan.activation_reserve_bytes
                + plan.kv_bytes_per_rank == g.memory_bytes
            &&& plan.num_blocks > 0
            &&& plan.num_blocks * (plan.kv_bytes_per_token_per_rank * block_size)
                <= plan.kv_bytes_per_rank
            &&& plan.total_kv_tokens == plan.num_blocks * block_size
        }),
{
    let weights = p.rank_weight_bytes(m);
    let after = (g.memory_bytes - weights) as nat;
    lemma_reserve_is_a_part(after, activations);
    let room = kv_room(g.memory_bytes as nat, weights, activations);
    let per_block = token_cost(m, p) * block_size;
    lemma_blocks_hold_their_tokens(room, token_cost(m, p), block_size);
    let n = room / per_block;
    assert(n * per_block <= room) by (nonlinear_arith)
        requires
            n == room / per_block,
            per_block > 0,
            room >= 0,
    ;
}

/// A model whose weights do not fit the card is refused, whatever else holds.
pub proof fn law_weights_that_do_not_fit_are_refused(
    m: ModelView,
    p: ParallelConfig,
    g: GpuView,
    block_size: nat,
    activations: Fraction,
)
    requires
        p.rank_weight_bytes(m) >= g.memory_bytes,
    ensures
        plan_spec(m, p, g, block_size, activations) is Err,
{
}

/// Longer contexts never raise the number of sequences that fit.
pub proof fn law_longer_contexts_reduce_concurrency(plan: PlanView, short: nat, long: nat)
    requires
        plan.block_size > 0,
        0 < short <= long,
    ensures
        plan.concurrent(long) <= plan.concurrent(short),
{
    let size = plan.block_size;
    let a = ceil_div(short, size);
    let b = ceil_div(long, size);
    lemma_some_block_each(short, size);
    assert(a <= b) by {
        vstd::arithmetic::div_mod::lemma_div_is_ordered(short as int, long as int, size as int);
        if short / size == long / size && short % size > 0 && long % size == 0 {
            vstd::arithmetic::div_mod::lemma_fundamental_div_mod(short as int, size as int);
            vstd::arithmetic::div_mod::lemma_fundamental_div_mod(long as int, size as int);
        }
    }
    vstd::arithmetic::div_mod::lemma_div_is_ordered_by_denominator(
        plan.num_blocks as int,
        a as int,
        b as int,
    );
}

} // verus!
