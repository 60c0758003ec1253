//! Choosing a token from a distribution.

use stride::backend::sampler::{argmax, is_degenerate, land, rank};
use stride::backend::{Rng, Sampler};
use stride::number::F32;
use stride::sampling::SamplingParams;
use stride::TokenId;

const EOS: TokenId = 256;

fn f(x: f32) -> F32 {
    F32 { bits: x.to_bits() }
}

fn floats(xs: &[f32]) -> Vec<F32> {
    xs.iter().map(|x| f(*x)).collect()
}

fn softmax(logits: &[f32]) -> Vec<f32> {
    let max = logits.iter().copied().fold(f32::NEG_INFINITY, f32::max);
    if !max.is_finite() {
        return vec![1.0 / logits.len() as f32; logits.len()];
    }
    let mut out: Vec<f32> = logits.iter().map(|&l| (l - max).exp()).collect();
    let sum: f32 = out.iter().sum();
    if sum > 0.0 {
        for p in &mut out {
            *p /= sum;
        }
    }
    out
}

/// Draw one token, doing the floating point arithmetic between the sampler's
/// decisions.
fn sample(s: &mut Sampler, logits: &[f32], generated: usize) -> TokenId {
    let masked = s.mask(&floats(logits), generated);
    if let Some(token) = s.greedy_token(&masked) {
        return token;
    }
    let mut work: Vec<f32> = masked.iter().map(|x| f32::from_bits(x.bits)).collect();
    if let Some(t) = s.scaling() {
        for l in &mut work {
            *l /= f32::from_bits(t.bits);
        }
    }
    let probs = softmax(&work);
    let order = rank(&floats(&probs));
    let mut cumulative: Vec<f32> = Vec::new();
    let mut sum = 0.0f32;
    for &idx in &order {
        sum += probs[idx as usize];
        cumulative.push(sum);
    }
    let keep: usize = s.keep(order.len(), &floats(&cumulative));
    let total: f32 = order[..keep].iter().map(|&i| probs[i as usize]).sum();
    if is_degenerate(f(total)) {
        return order[0];
    }
    let mut target = f32::from_bits(s.draw().bits) * total;
    let mut left: Vec<f32> = Vec::new();
    for &idx in &order[..keep] {
        target -= probs[idx as usize];
        left.push(target);
    }
    land(&order, keep, &floats(&left))
}

fn params(change: impl FnOnce(&mut SamplingParams)) -> SamplingParams {
    let mut p = SamplingParams {
        seed: Some(42),
        ..Default::default()
    };
    change(&mut p);
    p
}

#[test]
fn greedy_always_takes_the_argmax() {
    let logits = vec![0.1, 5.0, 0.3, 4.9];
    let mut s = Sampler::new(SamplingParams::greedy(16), EOS, 0);
    for _ in 0..20 {
        assert_eq!(sample(&mut s, &logits, 0), 1);
    }
}

#[test]
fn top_k_of_one_is_greedy() {
    let logits = vec![0.1, 5.0, 0.3, 4.9];
    let mut s = Sampler::new(params(|p| p.top_k = Some(1)), EOS, 0);
    for _ in 0..20 {
        assert_eq!(sample(&mut s, &logits, 0), 1);
    }
}

#[test]
fn top_k_never_draws_outside_the_top_k() {
    // Ranks: 1 (5.0), 3 (4.0), then 0 and 2.
    let logits = vec![1.0, 5.0, 0.5, 4.0];
    let mut s = Sampler::new(
        params(|p| {
            p.top_k = Some(2);
            p.temperature = f(2.0);
        }),
        EOS,
        0,
    );
    for _ in 0..500 {
        let t: TokenId = sample(&mut s, &logits, 0);
        assert!(t == 1 || t == 3, "sampled {t}, which is outside the top 2");
    }
}

#[test]
fn nucleus_sampling_restricts_the_support() {
    // One token holds almost all the mass.
    let logits = vec![10.0, 0.0, 0.0, 0.0];
    let mut s = Sampler::new(params(|p| p.top_p = f(0.5)), EOS, 0);
    for _ in 0..500 {
        assert_eq!(sample(&mut s, &logits, 0), 0, "top_p=0.5 leaves only the peak");
    }
}

#[test]
fn top_p_always_keeps_at_least_one_token() {
    let logits = vec![1.0, 1.0, 1.0, 1.0];
    let mut s = Sampler::new(params(|p| p.top_p = f(0.01)), EOS, 0);
    let t: TokenId = sample(&mut s, &logits, 0);
    assert!((t as usize) < 4, "must still return a valid token, got {t}");
}

#[test]
fn the_same_seed_reproduces_the_same_draws() {
    let logits = vec![1.0, 1.2, 0.9, 1.1, 1.05];
    let draw = |seed: u64| {
        let mut s = Sampler::new(
            params(|p| {
                p.seed = Some(seed);
                p.temperature = f(1.5);
            }),
            EOS,
            0,
        );
        (0..64).map(|_| sample(&mut s, &logits, 0)).collect::<Vec<TokenId>>()
    };
    assert_eq!(draw(7), draw(7), "a seeded run must be reproducible");
    assert_ne!(draw(7), draw(8), "different seeds must diverge");
}

#[test]
fn sampling_follows_the_distribution() {
    // Token 0 should win roughly e^2 : 1 against each of the others.
    let logits = vec![2.0, 0.0, 0.0, 0.0];
    let mut s = Sampler::new(params(|p| p.seed = Some(1)), EOS, 0);
    let n: usize = 20_000;
    let hits: usize = (0..n).filter(|_| sample(&mut s, &logits, 0) == 0).count();
    let want = 2.0f64.exp() / (2.0f64.exp() + 3.0);
    let got = hits as f64 / n as f64;
    assert!(
        (got - want).abs() < 0.02,
        "expected token 0 about {want:.3} of the time, saw {got:.3}"
    );
}

#[test]
fn min_tokens_suppresses_early_stopping() {
    // EOS is by far the most likely token.
    let mut logits = vec![0.0; 300];
    logits[EOS as usize] = 20.0;

    let mut s = Sampler::new(
        params(|p| {
            p.min_tokens = 5;
            p.temperature = f(0.0);
        }),
        EOS,
        0,
    );
    for generated in 0..5 {
        assert_ne!(
            sample(&mut s, &logits, generated),
            EOS,
            "EOS must be forbidden before min_tokens"
        );
    }
    assert_eq!(
        sample(&mut s, &logits, 5),
        EOS,
        "and allowed once the floor is met"
    );
}

#[test]
fn an_all_forbidden_distribution_still_returns_a_token() {
    let logits = vec![f32::NEG_INFINITY; 8];
    let mut s = Sampler::new(params(|p| p.temperature = f(1.0)), EOS, 0);
    let t: TokenId = sample(&mut s, &logits, 0);
    assert!((t as usize) < 8, "must not panic or return garbage");
}

#[test]
fn stop_tokens_are_recognised() {
    let s = Sampler::new(params(|p| p.stop_tokens = vec![13, 99]), EOS, 0);
    assert!(s.is_stop(EOS));
    assert!(s.is_stop(13));
    assert!(s.is_stop(99));
    assert!(!s.is_stop(5));

    let s = Sampler::new(params(|p| p.ignore_eos = true), EOS, 0);
    assert!(!s.is_stop(EOS), "ignore_eos must let generation continue");
}

#[test]
fn the_seed_in_use_is_reported() {
    let s = Sampler::new(params(|p| p.seed = None), EOS, 77);
    assert_eq!(s.effective_seed(), 77);
    let s = Sampler::new(params(|p| p.seed = Some(5)), EOS, 77);
    assert_eq!(s.effective_seed(), 5);
}

#[test]
fn the_generator_is_xorshift_with_a_multiplier() {
    // The published algorithm, computed here step by step.
    let mut rng = Rng::seed(1);
    let mut x: u64 = 1u64.wrapping_add(0x9E37_79B9_7F4A_7C15);
    x = (x ^ (x >> 30)).wrapping_mul(0xBF58_476D_1CE4_E5B9);
    x = (x ^ (x >> 27)).wrapping_mul(0x94D0_49BB_1331_11EB);
    x ^= x >> 31;
    for _ in 0..4 {
        let drawn: u64 = rng.next_u64();
        x ^= x >> 12;
        x ^= x << 25;
        x ^= x >> 27;
        assert_eq!(drawn, x.wrapping_mul(0x2545_F491_4F6C_DD1D));
    }
}

#[test]
fn draws_lie_below_one() {
    let mut a = Rng::seed(9);
    let mut b = Rng::seed(9);
    for _ in 0..200 {
        let x = f32::from_bits(a.next_f32().bits);
        let want = (b.next_u64() >> 40) as f32 / (1u64 << 24) as f32;
        assert_eq!(x, want);
        assert!((0.0..1.0).contains(&x));
    }
}

#[test]
fn the_first_of_equal_peaks_wins() {
    assert_eq!(argmax(&floats(&[1.0, 3.0, 3.0, 2.0])), 1);
    assert_eq!(argmax(&floats(&[f32::NEG_INFINITY, -1.0])), 1);
    assert_eq!(argmax(&floats(&[2.0, f32::NAN, 1.0])), 0);
}

#[test]
fn candidates_are_ranked_by_probability() {
    assert_eq!(rank(&floats(&[0.1, 0.4, 0.2, 0.3])), vec![1, 3, 2, 0]);
}

#[test]
fn a_draw_lands_on_the_first_candidate_it_does_not_exceed() {
    assert_eq!(land(&[7, 8, 9], 3, &floats(&[0.5, 0.0, -0.1])), 8);
    assert_eq!(land(&[7, 8, 9], 3, &floats(&[0.5, 0.2, 0.1])), 9);
    assert!(is_degenerate(f(0.0)));
    assert!(is_degenerate(f(f32::INFINITY)));
    assert!(is_degenerate(f(f32::NAN)));
    assert!(!is_degenerate(f(0.25)));
}
