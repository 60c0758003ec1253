//! Checks the geometry arithmetic against independently known quantities.
//!
//! Every capacity decision the runtime makes is derived from these formulas. A
//! self-consistent but wrong parameter count would mis-size the KV cache on
//! every deployment, so each preset is checked against its published parameter
//! count rather than against another part of this crate.

use stride::model::config::FeedForward;
use stride::model::memory::decode_bandwidth_ceiling_tokens_per_s;
use stride::model::{
    presets, AttentionConfig, DType, MemoryPlan, ModelConfig, ParallelConfig, PlanError,
    WeightFormat,
};
use stride::number::{Fraction, Ratio};

const TENTH: Fraction = Fraction { num: 1, den: 10 };

fn value(r: Ratio) -> f64 {
    r.part as f64 / r.whole as f64
}

/// Assert `got` is within `pct` percent of `want`.
fn near(got: u64, want: f64, pct: f64, what: &str) {
    let got = got as f64;
    let err = (got - want).abs() / want * 100.0;
    assert!(
        err <= pct,
        "{what}: got {:.3}B, expected {:.3}B ({err:.2}% off, tolerance {pct}%)",
        got / 1e9,
        want / 1e9
    );
}

#[test]
fn dense_parameter_counts_match_published_sizes() {
    near(presets::llama3_8b().total_params(), 8.03e9, 1.0, "llama-3.1-8b");
    near(presets::llama3_70b().total_params(), 70.6e9, 1.0, "llama-3.1-70b");
    near(presets::llama3_405b().total_params(), 405.8e9, 1.0, "llama-3.1-405b");
}

#[test]
fn moe_total_and_active_counts_match_published_sizes() {
    let m = presets::mixtral_8x7b();
    near(m.total_params(), 46.7e9, 1.0, "mixtral-8x7b total");
    near(m.active_params(), 12.9e9, 2.0, "mixtral-8x7b active");

    let m = presets::mixtral_8x22b();
    near(m.total_params(), 141.0e9, 1.0, "mixtral-8x22b total");
    near(m.active_params(), 39.0e9, 2.0, "mixtral-8x22b active");
}

#[test]
fn dense_models_activate_every_parameter() {
    for m in [presets::llama3_8b(), presets::llama3_70b()] {
        assert_eq!(
            m.total_params(),
            m.active_params(),
            "{}: a dense model has no inactive weights",
            m.name
        );
    }
}

#[test]
fn moe_separates_memory_cost_from_compute_cost() {
    let m = presets::mixtral_8x22b();
    let ratio = m.total_params() as f64 / m.active_params() as f64;
    assert!(
        ratio > 3.0,
        "8 experts routing 2 should activate roughly a quarter of the FFN, got {ratio:.2}x"
    );
    assert!(m.ffn.is_moe());
}

#[test]
fn kv_bytes_per_token_matches_hand_calculation() {
    // 2 tensors (K and V) x layers x kv_heads x head_dim x 2 bytes for BF16.
    let cases = [
        (presets::llama3_8b(), 2 * 32 * 8 * 128 * 2),
        (presets::llama3_70b(), 2 * 80 * 8 * 128 * 2),
        (presets::llama3_405b(), 2 * 126 * 8 * 128 * 2),
    ];
    for (m, want) in cases {
        assert_eq!(m.kv_bytes_per_token(), want as u64, "{}", m.name);
    }
    // 70B: 320 KiB per token. A single 128k-token sequence is 40 GiB of KV.
    assert_eq!(presets::llama3_70b().kv_bytes_per_token(), 320 * 1024);
}

#[test]
fn quantizing_the_kv_cache_scales_its_cost_directly() {
    let mut m = presets::llama3_70b();
    let bf16: u64 = m.kv_bytes_per_token();
    m.kv_dtype = DType::F8E4M3;
    assert_eq!(m.kv_bytes_per_token(), bf16 / 2, "FP8 KV halves the cost");
}

#[test]
fn tensor_parallelism_divides_the_kv_cost_per_rank() {
    let m = presets::llama3_70b();
    let whole: u64 = m.kv_bytes_per_token();
    for tp in [1, 2, 4, 8] {
        let p = ParallelConfig::tp(tp);
        assert_eq!(p.kv_bytes_per_token_per_rank(&m), whole / tp as u64);
    }
}

// --- parallelism validation -------------------------------------------------

#[test]
fn rejects_a_tensor_degree_the_kv_heads_cannot_divide() {
    let m = presets::llama3_70b(); // 8 KV heads
    assert!(ParallelConfig::tp(8).validate(&m).is_ok());
    let err = ParallelConfig::tp(16).validate(&m).unwrap_err();
    assert!(err.contains("KV heads"), "unhelpful error: {err}");
}

#[test]
fn rejects_a_pipeline_degree_the_layers_cannot_divide() {
    let m = presets::llama3_70b(); // 80 layers
    assert!(ParallelConfig::tp(2).with_pipeline(4).validate(&m).is_ok());
    let err = ParallelConfig::tp(2)
        .with_pipeline(3)
        .validate(&m)
        .unwrap_err();
    assert!(err.contains("layers"), "unhelpful error: {err}");
}

#[test]
fn rejects_expert_parallelism_on_a_dense_model() {
    let m = presets::llama3_70b();
    assert!(ParallelConfig::tp(4).with_expert(2).validate(&m).is_err());

    let m = presets::mixtral_8x22b();
    assert!(ParallelConfig::tp(8).with_expert(8).validate(&m).is_ok());
    assert!(
        ParallelConfig::tp(8).with_expert(3).validate(&m).is_err(),
        "8 experts do not divide by 3"
    );
}

#[test]
fn expert_parallelism_shards_expert_weights_off_each_rank() {
    let m = presets::mixtral_8x22b();
    let tp_only: u64 = ParallelConfig::tp(8).weight_bytes_per_rank(&m);
    let tp_and_ep: u64 = ParallelConfig::tp(8).with_expert(8).weight_bytes_per_rank(&m);
    assert!(
        tp_and_ep < tp_only,
        "ep=8 must move expert weights off each rank: {tp_and_ep} vs {tp_only}"
    );
}

#[test]
fn collectives_are_reported_for_each_plan_dimension() {
    let m = presets::mixtral_8x22b();
    let ops = ParallelConfig::tp(4).with_pipeline(2).with_expert(8).describe_collectives(&m);
    assert_eq!(ops.len(), 3, "tp, pp and ep each add traffic: {ops:?}");
    assert!(ParallelConfig::default().describe_collectives(&m)[0].contains("single-rank"));
}

// --- capacity planning ------------------------------------------------------

#[test]
fn seventy_b_fits_on_four_h100s_with_room_for_context() {
    let m = presets::llama3_70b();
    let plan =
        MemoryPlan::new(&m, ParallelConfig::tp(4), presets::H100_80GB(), 16, TENTH).unwrap();

    // 70.6B params in BF16, quartered: roughly 33 GiB of weights per rank.
    let gib = value(plan.weight_gib());
    assert!(
        (30.0..40.0).contains(&gib),
        "unexpected weight footprint: {gib:.1} GiB"
    );
    assert!(plan.max_context() > 100_000, "should hold a long context");
    assert!(plan.concurrent_sequences(4096) > 8);
    assert!(
        plan.concurrent_sequences(4096) > plan.concurrent_sequences(32_768),
        "longer contexts must reduce concurrency"
    );
}

/// The planner has to *refuse* the impossible, not just approve the possible.
/// 405B in BF16 is roughly 756 GiB of weights; eight 80 GiB cards hold 640 GiB.
#[test]
fn negative_control_405b_in_bf16_does_not_fit_on_eight_h100s() {
    let m = presets::llama3_405b();
    let err =
        MemoryPlan::new(&m, ParallelConfig::tp(8), presets::H100_80GB(), 16, TENTH).unwrap_err();
    match err {
        PlanError::WeightsDoNotFit { weight_gib, .. } => {
            let weight_gib = value(weight_gib);
            assert!(
                weight_gib > 80.0,
                "should report the per-rank overflow, got {weight_gib:.1} GiB"
            );
        }
        other => panic!("expected a capacity refusal, got {other:?}"),
    }
}

/// And the same model in FP8 must then fit — otherwise the refusal above could
/// be caused by anything, and quantization would look pointless.
#[test]
fn the_same_405b_fits_on_eight_h100s_once_weights_are_fp8() {
    let mut m = presets::llama3_405b();
    m.weights = WeightFormat::w8_per_tensor(DType::F8E4M3);

    let plan =
        MemoryPlan::new(&m, ParallelConfig::tp(8), presets::H100_80GB(), 16, TENTH).unwrap();
    let gib = value(plan.weight_gib());
    assert!(gib < 80.0, "FP8 weights must fit a rank: {gib:.1} GiB");
    assert!(
        plan.max_context() > 100_000,
        "and leave usable KV: {} tokens",
        plan.max_context()
    );
}

#[test]
fn four_bit_weights_cost_more_than_four_bits_once_scales_are_counted() {
    let mut m = presets::llama3_70b();
    m.weights = WeightFormat::w4_g128();
    let bits = value(m.weights.effective_bits(m.total_params() as usize));
    assert!(
        bits > 4.0,
        "group scales and zero points are not free, got {bits:.3} bits"
    );
    assert!(bits < 4.5, "but they should stay under 4.5 bits, got {bits:.3}");
}

// --- config.json parsing ----------------------------------------------------

#[test]
fn reads_geometry_from_a_hugging_face_config() {
    let json = r#"{
        "_name_or_path": "meta-llama/Meta-Llama-3.1-70B",
        "hidden_size": 8192,
        "intermediate_size": 28672,
        "num_hidden_layers": 80,
        "num_attention_heads": 64,
        "num_key_value_heads": 8,
        "vocab_size": 128256,
        "max_position_embeddings": 131072,
        "tie_word_embeddings": false
    }"#;
    let cfg = ModelConfig::from_hf_config(json, WeightFormat::dense(DType::BF16), DType::BF16)
        .expect("valid config");

    let preset = presets::llama3_70b();
    assert_eq!(
        cfg.total_params(),
        preset.total_params(),
        "the parsed checkpoint and the preset must agree"
    );
    assert_eq!(cfg.kv_bytes_per_token(), preset.kv_bytes_per_token());
    assert_eq!(cfg.name, "meta-llama/Meta-Llama-3.1-70B");
    assert_eq!(cfg.max_position_embeddings, 131_072);
}

#[test]
fn detects_a_mixture_of_experts_checkpoint() {
    let json = r#"{
        "hidden_size": 4096,
        "intermediate_size": 14336,
        "num_hidden_layers": 32,
        "num_attention_heads": 32,
        "num_key_value_heads": 8,
        "num_local_experts": 8,
        "num_experts_per_tok": 2,
        "vocab_size": 32000
    }"#;
    let cfg = ModelConfig::from_hf_config(json, WeightFormat::dense(DType::BF16), DType::BF16)
        .expect("valid config");
    assert!(cfg.ffn.is_moe());
    assert!(matches!(
        cfg.ffn,
        FeedForward::Moe { num_experts: 8, experts_per_token: 2, .. }
    ));
    assert!(cfg.total_params() > 3 * cfg.active_params());
}

#[test]
fn a_malformed_config_is_an_error_not_a_default() {
    let err = ModelConfig::from_hf_config(
        r#"{"hidden_size": 4096}"#,
        WeightFormat::dense(DType::BF16),
        DType::BF16,
    );
    assert!(err.is_err(), "missing fields must not silently default");
}

#[test]
fn every_preset_is_internally_consistent() {
    for m in presets::all() {
        m.validate().unwrap_or_else(|e| panic!("{}: {e}", m.name));
        assert!(m.active_params() <= m.total_params(), "{}", m.name);
        assert!(m.kv_bytes_per_token() > 0, "{}", m.name);
    }
}

// --- number formats ---------------------------------------------------------

#[test]
fn sub_byte_packing_rounds_up() {
    assert_eq!(DType::I4.bytes_for(2), 1);
    assert_eq!(DType::I4.bytes_for(3), 2, "an odd count still costs a byte");
    assert_eq!(DType::I4.bytes_for(1024), 512);
    assert_eq!(DType::BF16.bytes_for(1024), 2048);
}

#[test]
fn group_metadata_is_counted_against_the_compression_ratio() {
    let f = WeightFormat::w4_g128();
    // 128 weights: 64 bytes of payload, plus one FP16 scale and zero point.
    assert_eq!(f.bytes_for(128), 64 + 4);
    let bits = value(f.effective_bits(128));
    assert!(
        bits > 4.0 && bits < 4.5,
        "4-bit with g128 lands near 4.25 bits, got {bits}"
    );
}

#[test]
fn per_tensor_formats_carry_no_per_group_overhead() {
    let f = WeightFormat::w8_per_tensor(DType::F8E4M3);
    assert_eq!(f.bytes_for(1000), 1000);
    assert!((value(f.effective_bits(1000)) - 8.0).abs() < 1e-9);
}

#[test]
fn number_formats_have_their_width_and_tolerance() {
    let cases = [
        (DType::F32, 32, false, 1e-6),
        (DType::F16, 16, false, 1e-3),
        (DType::BF16, 16, false, 8e-3),
        (DType::F8E4M3, 8, true, 6e-2),
        (DType::F8E5M2, 8, true, 6e-2),
        (DType::I8, 8, true, 6e-2),
        (DType::I4, 4, true, 0.15),
    ];
    for (d, bits, quantized, rtol) in cases {
        assert_eq!(d.bits(), bits);
        assert_eq!(d.is_quantized(), quantized);
        assert_eq!(d.accumulator(), DType::F32);
        assert!((value(d.default_rtol()) - rtol).abs() < 1e-12, "{d:?}");
    }
}

// --- exact figures ----------------------------------------------------------

#[test]
fn parameter_counts_are_exact() {
    let m = presets::llama3_8b();
    assert_eq!(m.total_params(), 8_029_995_008);
    assert_eq!(m.weight_bytes(), 2 * 8_029_995_008);
    assert_eq!(m.decode_flops_per_token(), 2 * 8_029_995_008);
    assert_eq!(m.attention.gqa_ratio(), 4);
    assert_eq!(m.attention.q_dim(), 4096);
    assert_eq!(m.attention.kv_dim(), 1024);
    assert_eq!(FeedForward::Dense { intermediate_size: 3 }.params(2), 18);
    let moe = FeedForward::Moe {
        num_experts: 4,
        experts_per_token: 2,
        expert_intermediate_size: 3,
        shared_experts: 1,
    };
    assert_eq!(moe.params(2), 18 * 5 + 8);
    assert_eq!(moe.active_params(2), 18 * 3 + 8);
}

#[test]
fn a_plan_reports_the_published_figures() {
    let plan = MemoryPlan::new(
        &presets::llama3_70b(),
        ParallelConfig::tp(4),
        presets::H100_80GB(),
        16,
        TENTH,
    )
    .unwrap();
    assert_eq!(plan.num_blocks, 34_760);
    assert_eq!(plan.max_context(), 556_160);
    assert_eq!(plan.concurrent_sequences(4096), 135);
    assert_eq!(plan.concurrent_sequences(32_768), 16);
    assert!((value(plan.kv_gib()) - 42.4).abs() < 0.05);
    let text = plan.summary();
    assert!(text.contains("32.9 GiB"), "{text}");
    assert!(text.contains("42.4 GiB"), "{text}");
    assert!(text.contains("34760 blocks of 16 tokens"), "{text}");

    let mut m = presets::llama3_405b();
    m.weights = WeightFormat::w8_per_tensor(DType::F8E4M3);
    let plan =
        MemoryPlan::new(&m, ParallelConfig::tp(8), presets::H100_80GB(), 16, TENTH).unwrap();
    assert_eq!(plan.num_blocks, 30_664);
    assert_eq!(plan.concurrent_sequences(4096), 119);
    assert_eq!(plan.concurrent_sequences(32_768), 14);
}

#[test]
fn a_refused_plan_says_what_is_missing() {
    let err = MemoryPlan::new(
        &presets::llama3_405b(),
        ParallelConfig::tp(8),
        presets::H100_80GB(),
        16,
        TENTH,
    )
    .unwrap_err();
    let text = err.message();
    assert!(text.contains("weights need 94.5 GiB per rank"), "{text}");
    assert!(text.contains("H100-SXM-80GB has 80.0 GiB"), "{text}");

    let err = MemoryPlan::new(
        &presets::llama3_70b(),
        ParallelConfig::tp(3),
        presets::H100_80GB(),
        16,
        TENTH,
    )
    .unwrap_err();
    assert!(matches!(err, PlanError::Parallel(_)));
}

#[test]
fn an_invalid_geometry_is_refused() {
    let mut m = presets::llama3_8b();
    m.attention = AttentionConfig { num_q_heads: 0, num_kv_heads: 8, head_dim: 128 };
    assert!(m.validate().unwrap_err().contains("at least one query and KV head"));

    let mut m = presets::llama3_8b();
    m.attention.num_kv_heads = 5;
    assert_eq!(
        m.validate().unwrap_err(),
        "llama-3.1-8b: 32 query heads do not divide evenly into 5 KV heads"
    );

    let mut m = presets::mixtral_8x7b();
    m.ffn = FeedForward::Moe {
        num_experts: 8,
        experts_per_token: 9,
        expert_intermediate_size: 14_336,
        shared_experts: 0,
    };
    assert_eq!(m.validate().unwrap_err(), "mixtral-8x7b: routes 9 of 8 experts");
}

#[test]
fn what_is_no_json_is_an_error() {
    let bf16 = WeightFormat::dense(DType::BF16);
    let broken = ModelConfig::from_hf_config("{", bf16, DType::BF16).unwrap_err();
    assert!(broken.contains("EOF"), "{broken}");
    // A document that is no object has no members.
    let list = ModelConfig::from_hf_config("[1]", bf16, DType::BF16).unwrap_err();
    assert!(list.contains("hidden_size"), "{list}");
    // A number that is no non-negative integer is not one to read.
    let negative = ModelConfig::from_hf_config(
        r#"{"hidden_size": -1}"#,
        bf16,
        DType::BF16,
    )
    .unwrap_err();
    assert!(negative.contains("hidden_size"), "{negative}");
}

#[test]
fn members_that_are_missing_have_their_defaults() {
    let json = r#"{
        "hidden_size": 64,
        "intermediate_size": 128,
        "num_hidden_layers": 2,
        "num_attention_heads": 4,
        "vocab_size": 100
    }"#;
    let cfg = ModelConfig::from_hf_config(json, WeightFormat::dense(DType::F32), DType::F16)
        .expect("valid config");
    assert_eq!(cfg.name, "unnamed");
    assert_eq!(cfg.attention.num_kv_heads, 4);
    assert_eq!(cfg.attention.head_dim, 16);
    assert_eq!(cfg.max_position_embeddings, 4096);
    assert!(!cfg.tie_word_embeddings);
    assert_eq!(cfg.kv_dtype, DType::F16);
}

#[test]
fn a_plan_can_be_checked_before_it_is_made() {
    let m = presets::llama3_70b();
    assert!(MemoryPlan::can_be_planned(&m, ParallelConfig::tp(4), presets::A100_80GB(), 16));
    assert!(m.does_total_fit());
    assert!(m.does_active_fit());
    assert!(m.is_kv_sizeable());
    let mut huge = presets::llama3_8b();
    huge.hidden_size = usize::MAX;
    assert!(!huge.does_total_fit());
    assert!(!huge.does_active_fit());
}

#[test]
fn weights_are_counted_whatever_a_token_touches() {
    let ffn = FeedForward::Moe {
        num_experts: 4,
        experts_per_token: usize::MAX,
        expert_intermediate_size: 8,
        shared_experts: 1,
    };
    assert!(ffn.do_params_fit(16));
    assert!(!ffn.do_active_fit(16));
    assert_eq!(ffn.params(16), 3 * 16 * 8 * 5 + 16 * 4);
    let mut m = presets::llama3_8b();
    m.ffn = ffn;
    assert!(m.does_total_fit());
    assert!(!m.does_active_fit());
    assert!(m.total_params() > m.params_per_layer());
}

#[test]
fn accelerators_are_as_published() {
    assert_eq!(presets::A100_80GB().hbm_bandwidth_bytes_per_s, 2_039_000_000_000);
    assert_eq!(presets::H200_141GB().memory_bytes, 141_000_000_000);
    assert!(!presets::L40S_48GB().nvlink);
    assert_eq!(presets::all().len(), 5);
}

#[test]
fn decode_cannot_outrun_the_memory() {
    // 8.03B weights of two bytes each, read once per token by every rank.
    let m = presets::llama3_8b();
    let one = decode_bandwidth_ceiling_tokens_per_s(
        &m,
        ParallelConfig::tp(1),
        presets::H100_80GB(),
    );
    let want = 3_350_000_000_000.0 / (2.0 * 8_029_995_008.0);
    assert!((value(one) - want).abs() < 1e-9);
    let two = decode_bandwidth_ceiling_tokens_per_s(
        &m,
        ParallelConfig::tp(2),
        presets::H100_80GB(),
    );
    assert!((value(two) - 2.0 * want).abs() < 1e-9);
}

#[test]
fn a_rank_holds_a_part_of_the_model() {
    let m = presets::llama3_70b();
    let whole: u64 = m.weight_bytes();
    assert_eq!(ParallelConfig::tp(1).weight_bytes_per_rank(&m), whole);
    assert_eq!(ParallelConfig::tp(4).weight_bytes_per_rank(&m), whole / 4);
    assert!(ParallelConfig::tp(2).with_pipeline(2).weight_bytes_per_rank(&m) < whole / 2);
}

#[test]
fn a_plan_spends_the_card_once() {
    let gpu = presets::H200_141GB();
    let plan =
        MemoryPlan::new(&presets::llama3_70b(), ParallelConfig::tp(4), gpu, 16, TENTH).unwrap();
    assert_eq!(
        plan.weight_bytes_per_rank + plan.activation_reserve_bytes + plan.kv_bytes_per_rank,
        gpu.memory_bytes
    );
    assert!(
        plan.num_blocks as u64 * 16 * plan.kv_bytes_per_token_per_rank <= plan.kv_bytes_per_rank
    );
}

#[test]
fn one_rank_holds_the_whole_model() {
    for m in [presets::llama3_8b(), presets::llama3_70b(), presets::mixtral_8x7b()] {
        let one = ParallelConfig::default();
        assert_eq!(one.weight_bytes_per_rank(&m), m.weight_bytes());
        assert_eq!(one.kv_bytes_per_token_per_rank(&m), m.kv_bytes_per_token());
    }
}

#[test]
fn ranks_share_the_cache_evenly() {
    let m = presets::llama3_70b();
    let plan = ParallelConfig { tensor: 4, pipeline: 2, expert: 1 };
    assert!(plan.validate(&m).is_ok());
    let share = plan.kv_bytes_per_token_per_rank(&m);
    assert_eq!(share * 8, m.kv_bytes_per_token());
    let experts = ParallelConfig { expert: 3, ..plan };
    assert_eq!(experts.kv_bytes_per_token_per_rank(&m), share);
}
