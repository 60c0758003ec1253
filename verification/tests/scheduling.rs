//! Behavioural tests for the scheduler.
//!
//! Each drives the runtime loop with a stand-in for model execution: whatever
//! the scheduler puts in `decode`, the harness answers with a token. That is
//! enough to exercise batching, chunking, ranking and preemption, none of
//! which depend on what the tokens actually are.

use stride::error::{Error, SamplingFault};
use stride::ids::{RequestId, SequenceId};
use stride::kvcache::KvCacheConfig;
use stride::number::{Fraction, F32};
use stride::request::{Request, ServiceClass};
use stride::sampling::SamplingParams;
use stride::sched::{Finished, Scheduler, SchedulerConfig};
use stride::sequence::{FinishReason, SequenceState};
use stride::Tick;

const STEP_US: Tick = 1_000;
const FILLER: u32 = 7;

fn scheduler(cfg: SchedulerConfig, num_blocks: usize) -> Scheduler {
    Scheduler::new(
        cfg,
        KvCacheConfig {
            num_blocks,
            block_size: 16,
        },
    )
}

/// Run the loop for `steps` steps, answering every decode slot with a token.
fn drive(s: &mut Scheduler, steps: usize, now: &mut Tick) -> Vec<Finished> {
    let mut done = Vec::new();
    for _ in 0..steps {
        let batch = s.step(*now);
        let outputs: Vec<(SequenceId, u32)> =
            batch.decode.iter().map(|&id| (id, FILLER)).collect();
        done.extend(s.on_tokens(&outputs, *now));
        assert!(s.cache().assert_invariants());
        *now += STEP_US;
    }
    done
}

fn request(tenant: &str, prompt_len: usize, max_tokens: usize, at: Tick) -> Request {
    numbered(1, tenant, prompt_len, max_tokens, at)
}

fn numbered(id: u64, tenant: &str, prompt_len: usize, max_tokens: usize, at: Tick) -> Request {
    Request::new(RequestId(id), tenant.to_string(), (0..prompt_len as u32).collect(), at)
        .with_params(SamplingParams::greedy(max_tokens))
}

#[test]
fn a_request_runs_to_its_token_limit_and_reports_latency() {
    let mut s = scheduler(SchedulerConfig::default(), 256);
    let mut now: Tick = 0;
    s.accept(request("acme", 40, 8, now)).unwrap();

    let done = drive(&mut s, 24, &mut now);
    assert_eq!(done.len(), 1, "the request should finish");
    let f = &done[0];
    assert_eq!(f.output.len(), 8, "exactly max_tokens generated");
    assert!(f.ttft_us.is_some(), "time-to-first-token must be recorded");
    assert!(f.mean_itl_us.is_some(), "inter-token latency must be recorded");
    assert_eq!(s.num_running(), 0);
    assert_eq!(s.num_waiting(), 0);
}

#[test]
fn a_long_prompt_is_split_across_steps_instead_of_monopolising_one() {
    let cfg = SchedulerConfig {
        max_batch_tokens: 128,
        ..Default::default()
    };
    let mut s = scheduler(cfg, 512);
    let mut now: Tick = 0;
    s.accept(request("acme", 1024, 4, now)).unwrap();

    let mut chunks: usize = 0;
    for _ in 0..40 {
        let batch = s.step(now);
        assert!(
            batch.num_tokens() <= 128,
            "the token budget must hold: {}",
            batch.num_tokens()
        );
        chunks += batch.prefill.len();
        let outputs: Vec<(SequenceId, u32)> =
            batch.decode.iter().map(|&id| (id, FILLER)).collect();
        s.on_tokens(&outputs, now);
        now += STEP_US;
    }
    assert!(
        chunks >= 8,
        "a 1024-token prompt at 128 tokens/step needs at least 8 chunks, saw {chunks}"
    );
}

#[test]
fn decoding_continues_while_a_long_prompt_is_prefilled() {
    let cfg = SchedulerConfig {
        max_batch_tokens: 256,
        ..Default::default()
    };
    let mut s = scheduler(cfg, 1024);
    let mut now: Tick = 0;

    // Get one sequence generating first.
    s.accept(request("acme", 32, 200, now)).unwrap();
    drive(&mut s, 4, &mut now);

    // Now a large prompt arrives mid-stream.
    s.accept(request("acme", 2048, 4, now)).unwrap();

    let mut steps_with_prefill: usize = 0;
    let mut decodes_during_prefill: usize = 0;
    for _ in 0..30 {
        let batch = s.step(now);
        if !batch.prefill.is_empty() {
            steps_with_prefill += 1;
            decodes_during_prefill += batch.decode.len();
        }
        let outputs: Vec<(SequenceId, u32)> =
            batch.decode.iter().map(|&id| (id, FILLER)).collect();
        s.on_tokens(&outputs, now);
        now += STEP_US;
    }
    assert!(steps_with_prefill > 4, "the big prompt should span many steps");
    assert!(
        decodes_during_prefill >= steps_with_prefill,
        "the running sequence must keep emitting tokens throughout the prefill \
         ({decodes_during_prefill} decodes over {steps_with_prefill} prefill steps)"
    );
}

#[test]
fn an_aged_background_request_outranks_a_fresh_interactive_one() {
    let cfg = SchedulerConfig {
        max_batch_seqs: 1,
        max_batch_tokens: 4096,
        ..Default::default()
    };
    let mut s = scheduler(cfg, 512);

    // Background budget is two minutes; this one has nearly spent it.
    let old = s
        .accept(request("acme", 64, 4, 0).with_class(ServiceClass::Background))
        .unwrap()[0];

    let now: Tick = 121_000_000; // 121 s later
    let fresh = s
        .accept(request("acme", 64, 4, now).with_class(ServiceClass::Interactive))
        .unwrap()[0];

    let batch = s.step(now);
    assert_eq!(batch.prefill.len(), 1, "only one slot is available");
    assert_eq!(
        batch.prefill[0].seq, old,
        "the request about to breach its deadline must go first, \
         even though its class is lower"
    );
    assert_ne!(batch.prefill[0].seq, fresh);
}

#[test]
fn a_fresh_interactive_request_outranks_a_fresh_background_one() {
    let cfg = SchedulerConfig {
        max_batch_seqs: 1,
        max_batch_tokens: 4096,
        ..Default::default()
    };
    let mut s = scheduler(cfg, 512);

    // Same arrival time: now class is the only thing separating them.
    let bg = s
        .accept(request("acme", 64, 4, 0).with_class(ServiceClass::Background))
        .unwrap()[0];
    let inter = s
        .accept(request("acme", 64, 4, 0).with_class(ServiceClass::Interactive))
        .unwrap()[0];

    let batch = s.step(0);
    assert_eq!(batch.prefill[0].seq, inter, "tighter deadline wins on a tie");
    assert_ne!(batch.prefill[0].seq, bg);
}

#[test]
fn memory_pressure_preempts_and_the_victim_resumes() {
    // Deliberately tiny: 12 blocks of 16 tokens is 192 tokens of KV in total.
    let cfg = SchedulerConfig {
        max_batch_tokens: 512,
        watermark: Fraction { num: 0, den: 1 },
        ..Default::default()
    };
    let mut s = scheduler(cfg, 12);
    let mut now: Tick = 0;

    for _ in 0..4 {
        s.accept(request("acme", 48, 60, now)).unwrap();
    }

    let mut preemptions: usize = 0;
    for _ in 0..120 {
        let batch = s.step(now);
        preemptions += batch.preempted.len();
        let outputs: Vec<(SequenceId, u32)> =
            batch.decode.iter().map(|&id| (id, FILLER)).collect();
        s.on_tokens(&outputs, now);
        now += STEP_US;
    }

    assert!(
        preemptions > 0,
        "four 108-token sequences cannot fit in 192 tokens of KV at once"
    );
    assert_eq!(
        s.metrics().preemptions as usize,
        preemptions,
        "every preemption must be counted"
    );
    // The point of preemption is progress, not just eviction.
    assert!(
        s.metrics().finished > 0,
        "preempted sequences must still make progress and finish"
    );
}

#[test]
fn a_shared_system_prompt_is_reused_by_later_requests() {
    let mut s = scheduler(SchedulerConfig::default(), 512);
    let mut now: Tick = 0;

    let system: Vec<u32> = (0..256).collect();
    let mut first = Request::new(RequestId(1), "acme".to_string(), system.clone(), now);
    first.params = SamplingParams::greedy(4);
    s.accept(first).unwrap();
    drive(&mut s, 16, &mut now);

    let before = s.metrics();
    assert_eq!(before.prefill_tokens_reused, 0, "nothing to reuse on a cold start");

    // A second request carrying the same system prompt plus its own suffix.
    let followup: Vec<u32> = system.iter().copied().chain(900..932).collect();
    let mut second = Request::new(RequestId(2), "acme".to_string(), followup, now);
    second.params = SamplingParams::greedy(4);
    s.accept(second).unwrap();
    drive(&mut s, 16, &mut now);

    let after = s.metrics();
    assert!(
        after.prefill_tokens_reused >= 240,
        "most of the 256-token system prompt should be reused, got {}",
        after.prefill_tokens_reused
    );
    let rate = after.prefill_reuse_rate();
    assert!(rate.part as f64 / rate.whole as f64 > 0.0);
}

#[test]
fn tenants_do_not_reuse_each_others_context() {
    let mut s = scheduler(SchedulerConfig::default(), 512);
    let mut now: Tick = 0;
    let prompt: Vec<u32> = (0..256).collect();

    for tenant in ["acme", "globex"] {
        let mut r = Request::new(RequestId(1), tenant.to_string(), prompt.clone(), now);
        r.params = SamplingParams::greedy(4);
        s.accept(r).unwrap();
        drive(&mut s, 16, &mut now);
    }
    assert_eq!(
        s.metrics().prefill_tokens_reused,
        0,
        "an identical prompt under a second tenant must not hit the cache"
    );
}

#[test]
fn the_token_budget_is_never_exceeded() {
    let cfg = SchedulerConfig {
        max_batch_tokens: 64,
        max_batch_seqs: 8,
        ..Default::default()
    };
    let mut s = scheduler(cfg, 1024);
    let mut now: Tick = 0;
    for _ in 0..12 {
        s.accept(request("acme", 200, 10, now)).unwrap();
    }
    for _ in 0..200 {
        let batch = s.step(now);
        assert!(batch.num_tokens() <= 64, "budget breached: {}", batch.num_tokens());
        assert!(batch.num_seqs() <= 8, "sequence cap breached");
        let outputs: Vec<(SequenceId, u32)> =
            batch.decode.iter().map(|&id| (id, FILLER)).collect();
        s.on_tokens(&outputs, now);
        now += STEP_US;
    }
}

#[test]
fn cancelling_a_request_releases_its_memory() {
    let mut s = scheduler(SchedulerConfig::default(), 128);
    let mut now: Tick = 0;
    let req = request("acme", 64, 500, now);
    let id = req.id;
    s.accept(req).unwrap();
    drive(&mut s, 6, &mut now);

    let live_before: usize = s.cache().stats().live;
    assert!(live_before > 0, "the sequence should hold blocks");

    let done = s.cancel(id);
    assert_eq!(done.len(), 1);
    assert_eq!(s.num_running(), 0);
    assert!(
        s.cache().stats().live < live_before,
        "cancellation must release blocks"
    );
    assert!(s.cache().assert_invariants());
}

#[test]
fn an_oversized_prompt_is_refused_at_admission() {
    let cfg = SchedulerConfig {
        max_model_len: 128,
        ..Default::default()
    };
    let mut s = scheduler(cfg, 512);
    assert!(s.accept(request("acme", 64, 4, 0)).is_ok());
    assert!(
        s.accept(request("acme", 4096, 4, 0)).is_err(),
        "a prompt past the context limit must be rejected, not truncated"
    );
    assert!(
        s.accept(request("acme", 0, 4, 0)).is_err(),
        "an empty prompt has nothing to run"
    );
}

#[test]
fn invalid_sampling_parameters_are_refused() {
    let mut s = scheduler(SchedulerConfig::default(), 128);
    let mut bad = request("acme", 16, 4, 0);
    bad.params.temperature = F32 { bits: (-1.0f32).to_bits() };
    assert!(s.accept(bad).is_err());

    let mut bad = request("acme", 16, 4, 0);
    bad.params.top_p = F32 { bits: 0.0f32.to_bits() };
    assert!(s.accept(bad).is_err());
}

#[test]
fn a_refusal_says_why() {
    let cfg = SchedulerConfig {
        max_model_len: 128,
        ..Default::default()
    };
    let mut s = scheduler(cfg, 512);
    assert_eq!(
        s.accept(request("acme", 129, 4, 0)),
        Err(Error::PromptTooLong { got: 129, max: 128 })
    );
    assert_eq!(
        s.accept(request("acme", 0, 4, 0)),
        Err(Error::InvalidSampling(SamplingFault::EmptyPrompt))
    );
    assert_eq!(s.num_waiting(), 0, "a refused request leaves nothing behind");
}

#[test]
fn a_first_step_runs_the_prompt_and_decodes_at_once_after() {
    let mut s = scheduler(SchedulerConfig::default(), 256);
    let ids = s.accept(numbered(9, "acme", 40, 2, 0)).unwrap();
    assert_eq!(ids, vec![SequenceId(1)]);
    assert_eq!(s.num_waiting(), 1);

    let batch = s.step(0);
    assert_eq!(batch.prefill.len(), 1);
    let chunk = batch.prefill[0];
    assert_eq!((chunk.start, chunk.len, chunk.cached), (0, 40, 0));
    assert!(batch.decode.is_empty());
    assert_eq!(batch.num_tokens(), 40);
    assert_eq!(batch.num_seqs(), 1);
    assert!(!batch.is_empty());
    assert_eq!(s.num_running(), 1);
    assert_eq!(s.block_table(ids[0]).unwrap().len(), 3);
    assert_eq!(s.sequence(ids[0]).unwrap().state, SequenceState::Decoding);

    let done = s.on_tokens(&[(ids[0], 5)], 10);
    assert!(done.is_empty());
    let batch = s.step(20);
    assert_eq!(batch.decode, vec![ids[0]]);
    let done = s.on_tokens(&[(ids[0], 6)], 30);
    assert_eq!(done.len(), 1);
    assert_eq!(done[0].seq, ids[0]);
    assert_eq!(done[0].request, RequestId(9));
    assert_eq!(done[0].reason, FinishReason::Length);
    assert_eq!(done[0].output, vec![5, 6]);
    assert_eq!(done[0].ttft_us, Some(10));
    assert_eq!(s.metrics().finished, 1);
    assert_eq!(s.metrics().admitted, 1);
    assert_eq!(s.metrics().steps, 2);
    assert_eq!(s.metrics().prefill_tokens_computed, 40);
}

#[test]
fn a_late_first_token_is_counted() {
    let mut s = scheduler(SchedulerConfig::default(), 256);
    let id = s.accept(request("acme", 16, 4, 0)).unwrap()[0];
    s.step(0);
    s.on_tokens(&[(id, 5)], 500_000);
    assert_eq!(s.metrics().ttft_deadline_misses, 0, "on time to the microsecond");

    let mut s = scheduler(SchedulerConfig::default(), 256);
    let id = s.accept(request("acme", 16, 4, 0)).unwrap()[0];
    s.step(0);
    s.on_tokens(&[(id, 5)], 500_001);
    assert_eq!(s.metrics().ttft_deadline_misses, 1);
}

#[test]
fn stopping_ends_a_sequence_once() {
    let mut s = scheduler(SchedulerConfig::default(), 256);
    let id = s.accept(request("acme", 16, 4, 0)).unwrap()[0];
    s.step(0);
    s.on_tokens(&[(id, 5)], 10);
    let f = s.stop(id).unwrap();
    assert_eq!(f.reason, FinishReason::Stop);
    assert_eq!(f.output, vec![5]);
    assert!(s.stop(id).is_none());
    assert!(s.stop(SequenceId(77)).is_none());
    assert!(s.block_table(id).is_none());
    assert!(s.cancel(RequestId(1)).is_empty(), "nothing is left to cancel");
}

#[test]
fn one_request_may_ask_for_several_sequences() {
    let mut s = scheduler(SchedulerConfig::default(), 256);
    let mut r = numbered(3, "acme", 16, 4, 0);
    r.n = 2;
    let ids = s.accept(r).unwrap();
    assert_eq!(ids, vec![SequenceId(1), SequenceId(2)]);
    s.step(0);
    let done = s.cancel(RequestId(3));
    assert_eq!(done.len(), 2);
    assert_eq!(done[0].seq, ids[0]);
    assert_eq!(done[1].seq, ids[1]);
    assert!(done.iter().all(|f| f.reason == FinishReason::Cancelled));
}

#[test]
fn a_preempted_sequence_keeps_its_tokens() {
    let cfg = SchedulerConfig {
        watermark: Fraction { num: 0, den: 1 },
        ..Default::default()
    };
    let mut s = scheduler(cfg, 12);
    let mut now: Tick = 0;
    for _ in 0..4 {
        s.accept(request("acme", 48, 60, now)).unwrap();
    }
    for _ in 0..120 {
        let before: Vec<usize> = (1..5)
            .map(|i| s.sequence(SequenceId(i)).unwrap().total_len())
            .collect();
        let batch = s.step(now);
        for id in &batch.preempted {
            let q = s.sequence(*id).unwrap();
            assert_eq!(q.total_len(), before[id.0 as usize - 1]);
        }
        let outputs: Vec<(SequenceId, u32)> =
            batch.decode.iter().map(|&id| (id, FILLER)).collect();
        s.on_tokens(&outputs, now);
        now += STEP_US;
    }
}

#[test]
fn every_open_sequence_runs_or_waits() {
    let cfg = SchedulerConfig {
        watermark: Fraction { num: 0, den: 1 },
        ..Default::default()
    };
    let mut s = scheduler(cfg, 12);
    let mut now: Tick = 0;
    for _ in 0..4 {
        s.accept(request("acme", 48, 60, now)).unwrap();
    }
    for _ in 0..100 {
        let batch = s.step(now);
        let outputs: Vec<(SequenceId, u32)> =
            batch.decode.iter().map(|&id| (id, FILLER)).collect();
        s.on_tokens(&outputs, now);
        let open: Vec<usize> = (1..5)
            .filter_map(|i| s.sequence(SequenceId(i)))
            .filter(|q| !q.state.is_finished())
            .map(|q| q.output_len())
            .collect();
        assert_eq!(s.num_running() + s.num_waiting(), open.len());
        assert!(open.iter().all(|n| *n < 60), "an open sequence has tokens to go");
        now += STEP_US;
    }
}

#[test]
fn the_sequence_with_the_most_slack_yields_its_memory() {
    // Two blocks each at first, and one to spare. Whoever needs a third after
    // the first of them has to take it from a peer.
    let cfg = SchedulerConfig {
        watermark: Fraction { num: 0, den: 1 },
        ..Default::default()
    };
    let mut s = scheduler(cfg, 7);
    let a = s.accept(numbered(1, "acme", 31, 60, 0)).unwrap()[0];
    let b = s.accept(numbered(2, "globex", 31, 60, 0)).unwrap()[0];
    let patient = s
        .accept(numbered(3, "initech", 31, 60, 0).with_class(ServiceClass::Background))
        .unwrap()[0];
    s.step(0);
    assert_eq!(s.num_running(), 3);
    let mut victims: Vec<SequenceId> = Vec::new();
    for now in 1..6 {
        s.on_tokens(&[(a, FILLER), (b, FILLER), (patient, FILLER)], now);
        victims.extend(s.step(now).preempted);
    }
    assert_eq!(victims, vec![patient]);
    assert_eq!(s.sequence(patient).unwrap().state, SequenceState::Swapped);
    assert_eq!(s.sequence(a).unwrap().state, SequenceState::Decoding);
    assert_eq!(s.sequence(b).unwrap().state, SequenceState::Decoding);
}

#[test]
fn a_second_cancellation_finds_nothing() {
    let mut s = scheduler(SchedulerConfig::default(), 64);
    s.accept(numbered(4, "acme", 16, 8, 0)).unwrap();
    s.step(0);
    assert_eq!(s.cancel(RequestId(4)).len(), 1);
    let before = s.metrics();
    assert!(s.cancel(RequestId(4)).is_empty());
    assert!(s.cancel(RequestId(99)).is_empty());
    assert_eq!(s.metrics(), before);
}

#[test]
fn a_pass_has_its_memory() {
    let cfg = SchedulerConfig {
        max_batch_tokens: 64,
        watermark: Fraction { num: 0, den: 1 },
        ..Default::default()
    };
    let mut s = scheduler(cfg, 14);
    let mut now: Tick = 0;
    for i in 0..5 {
        s.accept(numbered(i, "acme", 40 + i as usize, 50, now)).unwrap();
    }
    let mut preempted: usize = 0;
    for _ in 0..150 {
        let batch = s.step(now);
        preempted += batch.preempted.len();
        for id in &batch.decode {
            assert!(!batch.preempted.contains(id), "who was evicted generates nothing");
            let tokens: usize = s.sequence(*id).unwrap().total_len() + 1;
            assert!(s.block_table(*id).unwrap().len() >= tokens.div_ceil(16));
        }
        for c in &batch.prefill {
            assert!(s.block_table(c.seq).unwrap().len() >= (c.start + c.len).div_ceil(16));
        }
        let outputs: Vec<(SequenceId, u32)> =
            batch.decode.iter().map(|&id| (id, FILLER)).collect();
        s.on_tokens(&outputs, now);
        now += STEP_US;
    }
    assert!(preempted > 0, "memory has to be short for this to tell anything");
}

#[test]
fn the_more_urgent_start_first() {
    let cfg = SchedulerConfig { max_batch_tokens: 100, chunked_prefill: true, ..Default::default() };
    let mut s = scheduler(cfg, 512);
    // The later ones are due sooner: their classes are tighter, or they are older.
    let classes =
        [ServiceClass::Background, ServiceClass::Interactive, ServiceClass::Background];
    let mut ids: Vec<SequenceId> = Vec::new();
    for (i, class) in classes.iter().enumerate() {
        let arrived: Tick = 1_000_000 - 1_000 * i as Tick;
        let asked = numbered(i as u64, "acme", 60, 4, arrived).with_class(*class);
        ids.push(s.accept(asked).unwrap()[0]);
    }
    let batch = s.step(1_000_000);
    let started: Vec<SequenceId> = batch.prefill.iter().map(|c| c.seq).collect();
    assert_eq!(started, vec![ids[1], ids[2]], "the third has what is left of the budget");
    assert_eq!(batch.prefill[1].len, 40);
    assert_eq!(s.sequence(ids[0]).unwrap().state, SequenceState::Waiting);
    assert_eq!(batch.num_tokens(), 100);
    assert!(batch.preempted.is_empty());
}
