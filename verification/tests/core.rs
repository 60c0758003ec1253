//! Requests, sequences, parameters, errors and numbers.

use stride::error::{Error, SamplingFault};
use stride::ids::{IdCounter, RequestId, SequenceId};
use stride::number::{Fraction, Ratio, F32};
use stride::request::{slack, Request, ServiceClass};
use stride::sampling::SamplingParams;
use stride::sequence::{FinishReason, Sequence, SequenceState};
use stride::text::{decimal_text, push_one_decimal};

fn f(x: f32) -> F32 {
    F32 { bits: x.to_bits() }
}

#[test]
fn ids_are_handed_out_in_order() {
    let mut counter = IdCounter::new();
    assert_eq!(RequestId::next(&mut counter), RequestId(1));
    assert_eq!(RequestId::next(&mut counter), RequestId(2));
    let mut counter = IdCounter::new();
    assert_eq!(SequenceId::next(&mut counter).raw(), 1);
    assert_eq!(RequestId(7).text(), "RequestId-7");
    assert_eq!(SequenceId(12).text(), "SequenceId-12");
}

fn fault(change: impl FnOnce(&mut SamplingParams)) -> Error {
    let mut p = SamplingParams::default();
    change(&mut p);
    p.validate().unwrap_err()
}

#[test]
fn each_fault_of_the_parameters_is_named() {
    assert!(SamplingParams::default().validate().is_ok());
    let cases = [
        (
            fault(|p| p.temperature = f(-1.0)),
            "-1",
            "temperature must be in [0, 2], got -1",
        ),
        (
            fault(|p| p.temperature = f(f32::NAN)),
            "NaN",
            "temperature must be in [0, 2], got NaN",
        ),
        (fault(|p| p.top_p = f(1.5)), "1.5", "top_p must be in (0, 1], got 1.5"),
        (fault(|p| p.top_p = f(0.0)), "", "top_p must be > 0"),
        (fault(|p| p.top_k = Some(0)), "", "top_k must be >= 1, or None to disable"),
        (fault(|p| p.max_tokens = 0), "", "max_tokens must be >= 1"),
        (
            fault(|p| p.min_tokens = 200),
            "",
            "min_tokens (200) exceeds max_tokens (128)",
        ),
    ];
    for (error, number, text) in cases {
        assert_eq!(
            error.message(number),
            format!("invalid sampling parameters: {text}")
        );
    }
}

#[test]
fn the_edges_of_the_ranges_are_valid() {
    let mut p = SamplingParams::default();
    p.temperature = f(2.0);
    p.top_p = f(1.0);
    p.min_tokens = 128;
    assert!(p.validate().is_ok());
    p.temperature = f(-0.0);
    assert!(p.validate().is_ok());
    assert!(p.is_greedy());
    p.temperature = f(0.5);
    assert!(!p.is_greedy());
    p.top_k = Some(1);
    assert!(p.is_greedy());
    let g = SamplingParams::greedy(9);
    assert_eq!(g.max_tokens, 9);
    assert!(g.is_greedy());
}

#[test]
fn each_error_has_its_wording() {
    let cases = [
        (
            Error::OutOfBlocks { requested: 3, available: 1 },
            "no free KV blocks: 3 requested, 1 available",
        ),
        (Error::UnknownSequence(SequenceId(4)), "unknown sequence SequenceId(4)"),
        (Error::UnknownRequest(RequestId(5)), "unknown request RequestId(5)"),
        (Error::Cancelled(RequestId(6)), "request RequestId(6) was cancelled"),
        (
            Error::PromptTooLong { got: 9, max: 8 },
            "prompt of 9 tokens exceeds the model context of 8",
        ),
        (
            Error::InvalidSampling(SamplingFault::EmptyPrompt),
            "invalid sampling parameters: prompt must not be empty",
        ),
        (
            Error::InvalidSampling(SamplingFault::Choices),
            "invalid sampling parameters: only n = 1 is implemented",
        ),
        (Error::Backpressure { queued: 10 }, "the request queue is full: 10 queued"),
        (Error::EngineStopped, "the engine has stopped"),
    ];
    for (error, text) in cases {
        assert_eq!(error.message(""), text);
    }
}

#[test]
fn classes_have_their_budgets() {
    assert_eq!(ServiceClass::Interactive.ttft_budget_us(), 500_000);
    assert_eq!(ServiceClass::Batch.ttft_budget_us(), 10_000_000);
    assert_eq!(ServiceClass::Background.ttft_budget_us(), 120_000_000);
    assert_eq!(ServiceClass::Interactive.itl_budget_us(), 50_000);
    assert_eq!(ServiceClass::Batch.itl_budget_us(), 200_000);
    assert_eq!(ServiceClass::Background.itl_budget_us(), 1_000_000);
}

#[test]
fn slack_turns_negative_past_the_deadline() {
    let r = Request::new(RequestId(1), "acme".to_string(), vec![1, 2, 3], 1_000);
    assert_eq!(r.prompt_len(), 3);
    assert_eq!(r.ttft_deadline(), 501_000);
    assert_eq!(r.ttft_slack_us(1_000), 500_000);
    assert_eq!(r.ttft_slack_us(501_001), -1);
    let r = r.with_class(ServiceClass::Batch).with_params(SamplingParams::greedy(5));
    assert_eq!(r.ttft_deadline(), 10_001_000);
    assert_eq!(r.params.max_tokens, 5);
    assert_eq!(slack(5, 9), -4);
    // A deadline past the end of time stays there.
    let r = Request::new(RequestId(1), "acme".to_string(), vec![1], u64::MAX);
    assert_eq!(r.ttft_deadline(), u64::MAX);
}

fn sequence() -> Sequence {
    Sequence::new(
        SequenceId(1),
        RequestId(2),
        "acme".to_string(),
        ServiceClass::Interactive,
        vec![10, 11, 12],
        2,
        100,
    )
}

#[test]
fn a_sequence_tracks_what_is_computed() {
    let mut s = sequence();
    assert_eq!(s.state, SequenceState::Waiting);
    assert_eq!(s.prompt(), &[10, 11, 12]);
    assert!(s.output().is_empty());
    assert_eq!(s.uncomputed_len(), 3);
    s.advance_computed(2);
    assert_eq!(s.computed_len(), 2);
    s.advance_computed(100);
    assert_eq!(s.computed_len(), 3, "no more than there is");
    s.push_token(20, 150);
    assert_eq!(s.ttft_us(), Some(50));
    assert_eq!(s.mean_itl_us(), None, "one token has no gap");
    assert!(!s.is_at_limit());
    s.push_token(21, 180);
    assert!(s.is_at_limit());
    assert_eq!(s.output(), &[20, 21]);
    assert_eq!(s.total_len(), 5);
    let itl = s.mean_itl_us().unwrap();
    assert_eq!(itl.part as f64 / itl.whole as f64, 30.0);
    s.swap_out();
    assert_eq!(s.state, SequenceState::Swapped);
    assert_eq!(s.uncomputed_len(), 5, "everything is recomputed");
    assert_eq!(s.output(), &[20, 21], "nothing generated is lost");
    s.adopt_cached_prefix(2);
    assert_eq!(s.computed_len(), 2);
    s.finish(FinishReason::Length);
    assert!(s.state.is_finished());
    assert!(!s.state.is_active());
}

#[test]
fn states_that_hold_memory_are_active() {
    assert!(SequenceState::Prefilling.is_active());
    assert!(SequenceState::Decoding.is_active());
    assert!(!SequenceState::Waiting.is_active());
    assert!(!SequenceState::Swapped.is_active());
}

#[test]
fn numbers_are_written_in_decimal() {
    assert_eq!(decimal_text(0), "0");
    assert_eq!(decimal_text(u64::MAX), "18446744073709551615");
    assert_ne!(decimal_text(10), decimal_text(1));
    let mut out = String::new();
    push_one_decimal(&mut out, 5, 4);
    assert_eq!(out, "1.2", "one and a quarter rounds to even");
    out.clear();
    push_one_decimal(&mut out, 7, 4);
    assert_eq!(out, "1.8");
}

#[test]
fn single_precision_numbers_compare_by_their_bits() {
    let xs = [
        f32::NEG_INFINITY,
        -2.5,
        -1.0e-40,
        -0.0,
        0.0,
        1.0e-40,
        0.5,
        1.0,
        f32::INFINITY,
        f32::NAN,
    ];
    for a in xs {
        for b in xs {
            assert_eq!(f(a).is_below(f(b)), a < b, "{a} < {b}");
            assert_eq!(f(a).is_at_most(f(b)), a <= b, "{a} <= {b}");
            assert_eq!(f(a).is_same(f(b)), a == b, "{a} == {b}");
        }
    }
    for k in [0u32, 1, 2, 3, 0x80_0000, 0xff_ffff, 12_345] {
        assert_eq!(f32::from_bits(F32::of_24ths(k).bits), k as f32 / 16_777_216.0);
    }
}

#[test]
fn shares_are_rounded_as_asked() {
    let third = Fraction { num: 1, den: 3 };
    assert_eq!(third.round_up(10), 4);
    assert_eq!(third.round_down(10), 3);
    assert_eq!(Fraction { num: 1, den: 100 }.round_up(2048), 21);
    assert_eq!(Ratio::share(1, 0), Ratio { part: 0, whole: 1 });
    assert_eq!(Ratio::share(1, 4), Ratio { part: 1, whole: 4 });
}
