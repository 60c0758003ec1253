//! The serving loop, driven by hand.

use stride::backend::{ByteTokenizer, PassCost};
use stride::engine::serving::rejection;
use stride::engine::{
    Collected, Engine, EngineConfig, GenerationRequest, Notice, Outcome, StreamEvent, Turn, Usage,
};
use stride::error::{Error, SamplingFault};
use stride::ids::{RequestId, SequenceId};
use stride::kvcache::KvCacheConfig;
use stride::request::ServiceClass;
use stride::sampling::SamplingParams;
use stride::sequence::FinishReason;

const COST: PassCost = PassCost { duration_us: 250, estimated: true };

fn engine() -> Engine<ByteTokenizer> {
    Engine::new(
        EngineConfig {
            cache: KvCacheConfig { num_blocks: 64, block_size: 16 },
            ..Default::default()
        },
        ByteTokenizer,
    )
}

fn ask(prompt: &str, max_tokens: usize) -> GenerationRequest {
    GenerationRequest {
        tenant: "default".to_string(),
        prompt: prompt.to_string(),
        params: SamplingParams::greedy(max_tokens),
        class: ServiceClass::Interactive,
    }
}

/// Run a pass and settle the given token for every sequence that owes one.
fn pass(e: &mut Engine<ByteTokenizer>, token: u32) -> Vec<Notice> {
    let work = e.begin_step();
    let drawn: Vec<(SequenceId, u32)> = work
        .iter()
        .filter(|w| w.needs_logits)
        .map(|w| (w.seq, token))
        .collect();
    if work.is_empty() {
        return Vec::new();
    }
    e.finish_pass(COST);
    e.settle(&drawn)
}

#[test]
fn a_generation_streams_its_tokens_and_then_ends() {
    let mut e = engine();
    assert!(e.is_idle());
    let (request, seq) = e.accept(ask("hello", 2)).unwrap();
    assert_eq!(request, RequestId(1));
    assert!(!e.is_idle());

    let work = e.begin_step();
    assert_eq!(work.len(), 1);
    assert_eq!(work[0].seq, seq);
    assert_eq!(work[0].tokens, vec![104, 101, 108, 108, 111]);
    assert_eq!(work[0].position, 0);
    assert_eq!(work[0].blocks.len(), 1);
    assert!(work[0].needs_logits);
    e.finish_pass(COST);
    assert_eq!(e.now(), 250);
    assert_eq!(e.generated(seq), 0);
    let told = e.settle(&[(seq, 97)]);
    assert_eq!(told.len(), 1);
    assert_eq!(told[0].seq, seq);
    match &told[0].event {
        StreamEvent::Token { index, token, text } => {
            assert_eq!((*index, *token, text.as_str()), (0, 97, "a"));
        }
        other => panic!("expected a token, got {other:?}"),
    }

    let work = e.begin_step();
    assert_eq!(work[0].tokens, vec![97], "a decode runs the last token");
    assert_eq!(work[0].position, 5);
    e.finish_pass(COST);
    let told = e.settle(&[(seq, 98)]);
    assert_eq!(told.len(), 2, "the token, then the end");
    match &told[1].event {
        StreamEvent::Done { reason, trailing_text, usage } => {
            assert_eq!(*reason, FinishReason::Length);
            assert_eq!(trailing_text, "");
            assert_eq!(usage.prompt_tokens, 5);
            assert_eq!(usage.completion_tokens, 2);
            assert_eq!(usage.cached_prompt_tokens, 0);
            assert_eq!(usage.total_tokens(), 7);
        }
        other => panic!("expected the end, got {other:?}"),
    }
    assert!(e.is_idle());
    let m = e.metrics();
    assert_eq!(m.forward_passes, 2);
    assert_eq!(m.busy_us, 500);
    assert!(m.estimated);
    assert_eq!(m.kv_blocks_total, 64);
    assert_eq!(m.kv_blocks_live, 0);
    assert_eq!(m.scheduler.finished, 1);
}

#[test]
fn a_stop_token_ends_the_stream_without_being_sent() {
    let mut e = engine();
    let (_, seq) = e.accept(ask("hi", 50)).unwrap();
    assert_eq!(pass(&mut e, 97).len(), 1);
    let told = pass(&mut e, ByteTokenizer::EOS);
    assert_eq!(told.len(), 1);
    assert_eq!(told[0].seq, seq);
    match &told[0].event {
        StreamEvent::Done { reason, usage, .. } => {
            assert_eq!(*reason, FinishReason::Stop);
            assert_eq!(usage.completion_tokens, 1);
        }
        other => panic!("expected the end, got {other:?}"),
    }
    assert!(e.is_idle());
    assert!(e.sampler(seq).is_none(), "the sequence is no longer served");
    assert!(e.draw(seq).is_none());
}

#[test]
fn half_a_character_is_held_back_and_flushed_at_the_end() {
    let mut e = engine();
    e.accept(ask("hi", 2)).unwrap();
    let told = pass(&mut e, 0xc3);
    match &told[0].event {
        StreamEvent::Token { text, .. } => assert_eq!(text, ""),
        other => panic!("expected a token, got {other:?}"),
    }
    let told = pass(&mut e, 0xa9);
    match &told[0].event {
        StreamEvent::Token { text, .. } => assert_eq!(text, "é"),
        other => panic!("expected a token, got {other:?}"),
    }

    let mut e = engine();
    e.accept(ask("hi", 1)).unwrap();
    let told = pass(&mut e, 0xc3);
    match &told[1].event {
        StreamEvent::Done { trailing_text, .. } => assert_eq!(trailing_text, "\u{fffd}"),
        other => panic!("expected the end, got {other:?}"),
    }
}

#[test]
fn cancelling_tells_the_client_once() {
    let mut e = engine();
    let (request, seq) = e.accept(ask("hi", 50)).unwrap();
    pass(&mut e, 97);
    let told = e.cancel(request);
    assert_eq!(told.len(), 1);
    assert_eq!(told[0].seq, seq);
    assert!(matches!(
        told[0].event,
        StreamEvent::Done { reason: FinishReason::Cancelled, .. }
    ));
    assert!(e.cancel(request).is_empty(), "safe to call again");
    assert!(e.is_idle());
    assert_eq!(e.metrics().kv_blocks_live, 0);
}

#[test]
fn a_second_request_reuses_the_first_ones_prompt() {
    let prompt = "a system prompt that is longer than two blocks of the cache";
    let mut e = engine();
    e.accept(ask(prompt, 1)).unwrap();
    pass(&mut e, 97);
    e.accept(ask(prompt, 1)).unwrap();
    let told = pass(&mut e, 97);
    match &told[1].event {
        StreamEvent::Done { usage, .. } => {
            assert_eq!(usage.prompt_tokens, 59);
            assert_eq!(usage.cached_prompt_tokens, 48);
        }
        other => panic!("expected the end, got {other:?}"),
    }
    assert!(e.metrics().kv_block_hit_rate.part > 0);
}

#[test]
fn a_refused_request_leaves_the_engine_idle() {
    let mut e = engine();
    assert_eq!(
        e.accept(ask("", 4)).unwrap_err(),
        Error::InvalidSampling(SamplingFault::EmptyPrompt)
    );
    assert!(e.is_idle());
    let long = "x".repeat(8193);
    assert_eq!(
        e.accept(ask(&long, 4)).unwrap_err(),
        Error::PromptTooLong { got: 8193, max: 8192 }
    );
    // The ids of refused requests are not handed out again.
    assert_eq!(e.accept(ask("ok", 4)).unwrap().0, RequestId(3));
}

#[test]
fn the_clock_moves_on_while_everything_is_blocked() {
    let mut e = Engine::new(
        EngineConfig {
            cache: KvCacheConfig { num_blocks: 1, block_size: 16 },
            ..Default::default()
        },
        ByteTokenizer,
    );
    // One block is held back, so not even a short prompt can start.
    e.accept(ask("hello", 2)).unwrap();
    assert!(e.begin_step().is_empty());
    assert_eq!(e.now(), 1_000);
    assert!(!e.is_idle());
    // A pass that takes no time still moves the clock.
    e.finish_pass(PassCost { duration_us: 0, estimated: false });
    assert_eq!(e.now(), 1_001);
    assert!(!e.metrics().estimated);
}

#[test]
fn seeds_are_the_requests_own_or_derived_from_the_engines() {
    let mut e = engine();
    let base: u64 = e.config().base_seed;
    let (request, seq) = e.accept(ask("hi", 2)).unwrap();
    assert_eq!(
        e.sampler(seq).unwrap().effective_seed(),
        base.wrapping_add(request.raw())
    );
    let mut with_seed = ask("hi", 2);
    with_seed.params.seed = Some(99);
    let (_, seq) = e.accept(with_seed).unwrap();
    assert_eq!(e.sampler(seq).unwrap().effective_seed(), 99);
    let mut other = engine();
    let mut with_seed = ask("other", 2);
    with_seed.params.seed = Some(99);
    let (_, again) = other.accept(with_seed).unwrap();
    assert_eq!(e.draw(seq), other.draw(again), "a seed reproduces its draws");
}

#[test]
fn a_stream_is_collected_in_one_piece() {
    let mut whole = Collected::new();
    let token = |index: usize, text: &str| StreamEvent::Token {
        index,
        token: 1,
        text: text.to_string(),
    };
    assert!(!whole.take(token(0, "ab")));
    assert!(!whole.take(token(1, "")));
    assert!(!whole.take(token(2, "c")));
    let usage = Usage { prompt_tokens: 4, completion_tokens: 3, cached_prompt_tokens: 2 };
    assert!(whole.take(StreamEvent::Done {
        reason: FinishReason::Length,
        trailing_text: "!".to_string(),
        usage,
    }));
    assert!(whole.take(token(3, "late")), "nothing follows the end");
    assert_eq!(whole.text, "abc!");
    assert_eq!(whole.usage, usage);
    assert_eq!(whole.reason, Some(FinishReason::Length));
    assert_eq!(Usage::default().total_tokens(), 0);
}

#[test]
fn a_full_queue_and_a_stopped_engine_are_told_apart() {
    assert_eq!(rejection(true, 7), Error::Backpressure { queued: 7 });
    assert_eq!(rejection(false, 7), Error::EngineStopped);
}

#[test]
fn the_loop_drains_before_it_steps() {
    let mut turn = Turn::first();
    turn = turn.next(Outcome::Handled { stop: false }, false);
    assert_eq!(turn, Turn::Drain { stopping: false });
    turn = turn.next(Outcome::Empty, false);
    assert_eq!(turn, Turn::Step);
    turn = turn.next(Outcome::Stepped, true);
    assert_eq!(turn, Turn::Drain { stopping: false });
    turn = turn.next(Outcome::Empty, true);
    assert_eq!(turn, Turn::Wait, "an idle engine blocks");
    turn = turn.next(Outcome::Handled { stop: false }, false);
    turn = turn.next(Outcome::Handled { stop: true }, false);
    assert_eq!(turn, Turn::Drain { stopping: true });
    turn = turn.next(Outcome::Handled { stop: false }, false);
    turn = turn.next(Outcome::Empty, false);
    assert_eq!(turn, Turn::Stop, "a stop is not forgotten");
    assert_eq!(Turn::first().next(Outcome::Closed, false), Turn::Stop);
    assert_eq!(Turn::Wait.next(Outcome::Closed, true), Turn::Stop);
    assert_eq!(Turn::Wait.next(Outcome::Handled { stop: true }, true), Turn::Stop);
}

#[test]
fn a_decode_is_the_same_warm_or_cold() {
    let prompt = "a system prompt that is longer than two blocks of the cache";
    let mut e = engine();
    e.accept(ask(prompt, 3)).unwrap();
    pass(&mut e, 97);
    let cold = e.begin_step();
    e.finish_pass(COST);
    let drawn: Vec<(SequenceId, u32)> = cold.iter().map(|w| (w.seq, 98)).collect();
    e.settle(&drawn);
    pass(&mut e, 99);
    assert!(e.is_idle());

    e.accept(ask(prompt, 3)).unwrap();
    let work = e.begin_step();
    assert_eq!(work[0].position, 48, "most of the prompt is not run again");
    e.finish_pass(COST);
    let drawn: Vec<(SequenceId, u32)> = work.iter().map(|w| (w.seq, 97)).collect();
    e.settle(&drawn);
    let warm = e.begin_step();
    assert_eq!(warm[0].tokens, cold[0].tokens);
    assert_eq!(warm[0].position, cold[0].position);
}

#[test]
fn a_client_receives_the_text_of_its_tokens() {
    let mut e = engine();
    let (_, first) = e.accept(ask("one", 9)).unwrap();
    let (_, second) = e.accept(ask("two", 9)).unwrap();
    // Two texts at once, a byte of each to a pass.
    let texts = ["café 🙂".as_bytes(), "\u{20ac} 12345".as_bytes()];
    assert_eq!(texts[0].len(), 10);
    let mut received = [String::new(), String::new()];
    for i in 0..9 {
        let work = e.begin_step();
        assert_eq!(work.len(), 2);
        e.finish_pass(COST);
        let told = e.settle(&[(first, texts[0][i] as u32), (second, texts[1][i] as u32)]);
        for n in &told {
            let at: usize = if n.seq == first { 0 } else { 1 };
            match &n.event {
                StreamEvent::Token { text, .. } => received[at].push_str(text),
                StreamEvent::Done { trailing_text, .. } => received[at].push_str(trailing_text),
            }
        }
    }
    assert!(e.is_idle());
    assert_eq!(received[0], "café \u{fffd}", "the last character lacks a byte");
    assert_eq!(received[1], "€ 12345");
}

#[test]
fn the_work_of_a_pass_has_its_blocks() {
    let mut e = Engine::new(
        EngineConfig {
            cache: KvCacheConfig { num_blocks: 12, block_size: 4 },
            ..Default::default()
        },
        ByteTokenizer,
    );
    for prompt in ["a first prompt", "another prompt", "and a third one"] {
        e.accept(ask(prompt, 20)).unwrap();
    }
    let mut passes: usize = 0;
    while !e.is_idle() && passes < 1_000 {
        passes += 1;
        let work = e.begin_step();
        for w in &work {
            assert!(w.blocks.len() * 4 >= w.position + w.tokens.len());
        }
        let drawn: Vec<(SequenceId, u32)> =
            work.iter().filter(|w| w.needs_logits).map(|w| (w.seq, 120)).collect();
        e.finish_pass(COST);
        e.settle(&drawn);
    }
    assert!(e.is_idle(), "everyone is served in the end");
    assert!(e.metrics().scheduler.preemptions > 0, "memory was short");
    assert_eq!(e.metrics().scheduler.finished, 3);
}
