//! The HTTP surface and how a deployment is put together.

use stride::backend::WorkerInfo;
use stride::engine::{Collected, EngineMetrics, StreamEvent, Usage};
use stride::error::{Error, SamplingFault};
use stride::ids::{RequestId, SequenceId};
use stride::model::{DType, ParallelConfig, WeightFormat};
use stride::number::{Fraction, Ratio, F32};
use stride::request::ServiceClass;
use stride::sched::SchedulerMetrics;
use stride::sequence::FinishReason;
use stride::server::api::{
    answering_model, chat_generation, chat_response, completion_generation, completion_response,
    health, identifier, into_response, list_models, request_id,
};
use stride::server::deploy::{vocabulary_warning, Args, GpuArg, KvArg, ModelArg, WeightArg};
use stride::server::metrics::{expose, metrics, Figure};
use stride::server::openai::{
    default_max_tokens, default_temperature, default_top_p, finish_reason_str,
    parse_service_class, usage_body, ChatCompletionRequest, ChatMessage, CompletionRequest,
};
use stride::server::relay::{Frame, Relay};

fn f(x: f32) -> F32 {
    F32 { bits: x.to_bits() }
}

fn chat() -> ChatCompletionRequest {
    ChatCompletionRequest {
        model: String::new(),
        messages: vec![
            ChatMessage { role: "system".to_string(), content: "be brief".to_string() },
            ChatMessage { role: "user".to_string(), content: "hello".to_string() },
        ],
        temperature: default_temperature(),
        top_p: default_top_p(),
        top_k: None,
        max_tokens: default_max_tokens(),
        min_tokens: 3,
        seed: Some(4),
        stream: false,
        n: None,
        service_class: Some("BatCH".to_string()),
    }
}

fn completion() -> CompletionRequest {
    CompletionRequest {
        model: "mine".to_string(),
        prompt: "once".to_string(),
        temperature: f(0.5),
        top_p: f(0.9),
        top_k: Some(5),
        max_tokens: 8,
        seed: None,
        stream: true,
        service_class: None,
    }
}

#[test]
fn messages_are_flattened_into_a_prompt() {
    assert_eq!(chat().to_prompt(), "system: be brief\nuser: hello\nassistant: ");
    let mut empty = chat();
    empty.messages.clear();
    assert_eq!(empty.to_prompt(), "assistant: ");
}

#[test]
fn class_names_are_read_whatever_their_case() {
    assert_eq!(parse_service_class(Some("batch")), ServiceClass::Batch);
    assert_eq!(parse_service_class(Some("BACKGROUND")), ServiceClass::Background);
    assert_eq!(parse_service_class(Some("Interactive")), ServiceClass::Interactive);
    assert_eq!(parse_service_class(Some("batches")), ServiceClass::Interactive);
    assert_eq!(parse_service_class(Some("bätch")), ServiceClass::Interactive);
    assert_eq!(parse_service_class(None), ServiceClass::Interactive);
}

#[test]
fn a_chat_request_becomes_a_generation() {
    let g = chat_generation(&chat()).unwrap();
    assert_eq!(g.tenant, "default");
    assert_eq!(g.prompt, "system: be brief\nuser: hello\nassistant: ");
    assert_eq!(g.class, ServiceClass::Batch);
    assert_eq!(g.params.max_tokens, 256);
    assert_eq!(g.params.min_tokens, 3);
    assert_eq!(g.params.seed, Some(4));
    assert_eq!(g.params.temperature, f(1.0));
    assert!(g.params.stop_tokens.is_empty());
    assert!(!g.params.ignore_eos);
}

#[test]
fn a_text_request_becomes_a_generation() {
    let g = completion_generation(&completion()).unwrap();
    assert_eq!(g.prompt, "once");
    assert_eq!(g.class, ServiceClass::Interactive);
    assert_eq!(g.params.top_k, Some(5));
    assert_eq!(g.params.top_p, f(0.9));
    assert_eq!(g.params.min_tokens, 0);
    let mut bad = completion();
    bad.max_tokens = 0;
    assert_eq!(
        completion_generation(&bad).unwrap_err(),
        Error::InvalidSampling(SamplingFault::MaxTokensZero)
    );
}

#[test]
fn several_choices_are_refused_rather_than_cut_to_one() {
    let mut r = chat();
    r.n = Some(1);
    assert!(chat_generation(&r).is_ok());
    for n in [0, 2] {
        r.n = Some(n);
        assert_eq!(
            chat_generation(&r).unwrap_err(),
            Error::InvalidSampling(SamplingFault::Choices)
        );
    }
    // A fault of the parameters comes first.
    r.temperature = f(3.0);
    assert_eq!(
        chat_generation(&r).unwrap_err(),
        Error::InvalidSampling(SamplingFault::Temperature(f(3.0)))
    );
}

#[test]
fn errors_have_their_status() {
    let cases = [
        (Error::Backpressure { queued: 1 }, 429, "rate_limit_error", Some("queue_full")),
        (
            Error::InvalidSampling(SamplingFault::TopKZero),
            400,
            "invalid_request_error",
            Some("invalid_parameters"),
        ),
        (
            Error::PromptTooLong { got: 2, max: 1 },
            400,
            "invalid_request_error",
            Some("invalid_parameters"),
        ),
        (
            Error::OutOfBlocks { requested: 2, available: 1 },
            503,
            "server_error",
            Some("kv_cache_exhausted"),
        ),
        (Error::EngineStopped, 503, "server_error", Some("engine_stopped")),
        (Error::UnknownRequest(RequestId(1)), 500, "server_error", None),
        (Error::UnknownSequence(SequenceId(1)), 500, "server_error", None),
        (Error::Cancelled(RequestId(1)), 500, "server_error", None),
    ];
    for (error, status, kind, code) in cases {
        let (s, body) = into_response(error, "");
        assert_eq!(s, status);
        assert_eq!(body.error.kind, kind);
        assert_eq!(body.error.code, code);
        assert_eq!(body.error.message, error.message(""));
    }
}

#[test]
fn endings_have_their_names() {
    assert_eq!(finish_reason_str(FinishReason::Length), "length");
    assert_eq!(finish_reason_str(FinishReason::Stop), "stop");
    assert_eq!(finish_reason_str(FinishReason::Cancelled), "cancelled");
    assert_eq!(finish_reason_str(FinishReason::Preempted), "preempted");
}

const USAGE: Usage = Usage { prompt_tokens: 10, completion_tokens: 4, cached_prompt_tokens: 8 };

fn token(text: &str) -> Option<StreamEvent> {
    Some(StreamEvent::Token { index: 0, token: 1, text: text.to_string() })
}

fn done(text: &str) -> Option<StreamEvent> {
    Some(StreamEvent::Done {
        reason: FinishReason::Stop,
        trailing_text: text.to_string(),
        usage: USAGE,
    })
}

#[test]
fn a_chat_stream_names_the_speaker_once() {
    let mut r = Relay::new("chatcmpl-1".to_string(), "m".to_string(), true, 99);
    assert!(matches!(r.relay(token("")), Some(Frame::Partial)));
    let first = match r.relay(token("he")) {
        Some(Frame::Chat(c)) => c,
        other => panic!("expected a chunk, got {other:?}"),
    };
    assert_eq!(first.id, "chatcmpl-1");
    assert_eq!(first.object, "chat.completion.chunk");
    assert_eq!(first.created, 99);
    assert_eq!(first.model, "m");
    assert_eq!(first.choices.len(), 1);
    assert_eq!(first.choices[0].index, 0);
    assert_eq!(first.choices[0].delta.role, Some("assistant"));
    assert_eq!(first.choices[0].delta.content.as_deref(), Some("he"));
    assert_eq!(first.choices[0].finish_reason, None);
    assert!(first.usage.is_none());
    let second = match r.relay(token("y")) {
        Some(Frame::Chat(c)) => c,
        other => panic!("expected a chunk, got {other:?}"),
    };
    assert_eq!(second.choices[0].delta.role, None);
    assert!(!r.is_done());
    let last = match r.relay(done("")) {
        Some(Frame::Chat(c)) => c,
        other => panic!("expected a chunk, got {other:?}"),
    };
    assert_eq!(last.choices[0].delta.content, None, "nothing was flushed");
    assert_eq!(last.choices[0].finish_reason, Some("stop"));
    assert_eq!(last.usage, Some(usage_body(USAGE)));
    assert_eq!(last.usage.unwrap().total_tokens, 14);
    assert!(r.is_done());
    assert!(r.relay(token("late")).is_none());
}

#[test]
fn a_text_stream_carries_its_text() {
    let mut r = Relay::new("cmpl-1".to_string(), "m".to_string(), false, 5);
    let first = match r.relay(token("ab")) {
        Some(Frame::Text(c)) => c,
        other => panic!("expected a chunk, got {other:?}"),
    };
    assert_eq!(first.object, "text_completion");
    assert_eq!(first.choices[0].text, "ab");
    assert_eq!(first.choices[0].finish_reason, None);
    let last = match r.relay(done("")) {
        Some(Frame::Text(c)) => c,
        other => panic!("expected a chunk, got {other:?}"),
    };
    assert_eq!(last.choices[0].text, "");
    assert_eq!(last.choices[0].finish_reason, Some("stop"));
    assert_eq!(last.usage.unwrap().stride_cached_prompt_tokens, 8);
}

#[test]
fn a_dropped_stream_is_closed() {
    let mut r = Relay::new("cmpl-1".to_string(), "m".to_string(), false, 5);
    assert!(matches!(r.relay(None), Some(Frame::Closed)));
    assert!(r.is_done());
    assert!(r.relay(None).is_none());
}

fn collected(reason: Option<FinishReason>) -> Collected {
    Collected { text: "text".to_string(), usage: USAGE, reason }
}

#[test]
fn whole_answers_hold_one_choice() {
    let r = chat_response(
        "chatcmpl-2".to_string(),
        7,
        "m".to_string(),
        collected(Some(FinishReason::Length)),
    );
    assert_eq!(r.object, "chat.completion");
    assert_eq!(r.choices.len(), 1);
    assert_eq!(r.choices[0].message.role, "assistant");
    assert_eq!(r.choices[0].message.content, "text");
    assert_eq!(r.choices[0].finish_reason, "length");
    assert_eq!(r.usage.total_tokens, 14);
    let r = completion_response("cmpl-2".to_string(), 7, "m".to_string(), collected(None));
    assert_eq!(r.object, "text_completion");
    assert_eq!(r.choices[0].text, "text");
    assert_eq!(r.choices[0].finish_reason, "stop", "a dropped stream counts as stopped");
    assert_eq!(r.created, 7);
}

#[test]
fn an_answer_names_the_model_that_was_asked_for() {
    assert_eq!(answering_model("", "served"), "served");
    assert_eq!(answering_model("asked", "served"), "asked");
}

#[test]
fn identifiers_are_unique_and_prefixed() {
    assert_eq!(identifier("cmpl", "0a"), "cmpl-0a");
    let (a, b) = (request_id("chatcmpl"), request_id("chatcmpl"));
    assert_ne!(a, b);
    let unique = a.strip_prefix("chatcmpl-").unwrap();
    assert_eq!(unique.len(), 32);
    assert!(unique.chars().all(|c| c.is_ascii_digit() || ('a'..='f').contains(&c)));
    assert_eq!(&unique[12..13], "4");
    assert!(matches!(&unique[16..17], "8" | "9" | "a" | "b"));
}

fn figures() -> EngineMetrics {
    EngineMetrics {
        scheduler: SchedulerMetrics {
            admitted: 3,
            finished: 2,
            preemptions: 1,
            ttft_deadline_misses: 4,
            steps: 50,
            prefill_tokens_computed: 600,
            prefill_tokens_reused: 200,
        },
        forward_passes: 49,
        busy_us: 12_345,
        estimated: true,
        kv_blocks_total: 64,
        kv_blocks_live: 5,
        kv_blocks_cached: 6,
        kv_block_hit_rate: Ratio { part: 1, whole: 4 },
        queued: 7,
        running: 8,
    }
}

#[test]
fn metrics_are_exposed_as_text() {
    let samples = metrics(&figures());
    assert_eq!(samples.len(), 17);
    let shown: Vec<String> = samples
        .iter()
        .map(|s| match s.figure {
            Figure::Count(n) => format!("{}", n as f64),
            Figure::Rate(r) => format!("{}", r.part as f64 / r.whole as f64),
        })
        .collect();
    let text = expose(&samples, &shown);
    assert!(text.starts_with(
        "# HELP stride_requests_queued Requests waiting for admission.\n\
         # TYPE stride_requests_queued gauge\nstride_requests_queued 7\n"
    ));
    assert!(text.contains("\nstride_kv_block_hit_rate 0.25\n"));
    assert!(text.contains("\nstride_prefill_reuse_rate 0.25\n"));
    assert!(text.contains("\nstride_backend_estimated 1\n"));
    assert!(text.contains("# TYPE stride_preemptions_total counter\n"));
    assert!(text.ends_with("\nstride_execution_busy_microseconds_total 12345\n"));
    assert_eq!(text.lines().count(), 3 * 17);
}

#[test]
fn a_client_is_told_whether_a_simulator_answers() {
    let h = health(&figures(), "llama", true);
    assert_eq!((h.status, h.backend, h.model.as_str()), ("ok", "simulated", "llama"));
    assert_eq!((h.queued, h.running), (7, 8));
    assert_eq!((h.kv_blocks_total, h.kv_blocks_live), (64, 5));
    assert_eq!(health(&figures(), "llama", false).backend, "device");
    let l = list_models("llama", true);
    assert_eq!(l.object, "list");
    assert_eq!(l.data.len(), 1);
    assert_eq!(l.data[0].id, "llama");
    assert_eq!(l.data[0].object, "model");
    assert_eq!(l.data[0].owned_by, "stride-simulated");
    assert_eq!(list_models("llama", false).data[0].owned_by, "stride");
}

fn args() -> Args {
    Args {
        model: ModelArg::Llama3_8b,
        gpu: GpuArg::H100,
        tp: 1,
        pp: 1,
        ep: 1,
        weights: WeightArg::Bf16,
        kv_cache: KvArg::Bf16,
        block_size: 16,
        num_blocks: None,
        max_batch_tokens: 2048,
        max_batch_seqs: 256,
        max_model_len: 8192,
        max_queued: 1024,
        realtime: false,
    }
}

#[test]
fn arguments_stand_for_what_they_name() {
    let gpus = [
        (GpuArg::A100, "A100-SXM-80GB"),
        (GpuArg::H100, "H100-SXM-80GB"),
        (GpuArg::H200, "H200-SXM-141GB"),
        (GpuArg::L40s, "L40S-48GB"),
    ];
    for (gpu, name) in gpus {
        assert_eq!(Args { gpu, ..args() }.gpu().name, name);
    }
    let weights = [
        (WeightArg::Bf16, WeightFormat::dense(DType::BF16)),
        (WeightArg::Fp8, WeightFormat::w8_per_tensor(DType::F8E4M3)),
        (WeightArg::Int4, WeightFormat::w4_g128()),
    ];
    for (weights, format) in weights {
        assert_eq!(Args { weights, ..args() }.weight_format(), format);
    }
    assert_eq!(args().kv_dtype(), DType::BF16);
    assert_eq!(Args { kv_cache: KvArg::Fp8, ..args() }.kv_dtype(), DType::F8E4M3);
    assert_eq!(
        Args { tp: 2, pp: 3, ep: 4, ..args() }.parallel(),
        ParallelConfig { tensor: 2, pipeline: 3, expert: 4 }
    );
    assert_eq!(args().blocks(77), 77);
    assert_eq!(Args { num_blocks: Some(5), ..args() }.blocks(77), 5);
}

#[test]
fn the_model_is_the_checkpoints_or_a_built_in_one() {
    let m = Args { weights: WeightArg::Int4, kv_cache: KvArg::Fp8, ..args() }
        .model_config(None)
        .unwrap();
    assert_eq!(m.name, "llama-3.1-8b");
    assert_eq!(m.weights, WeightFormat::w4_g128());
    assert_eq!(m.kv_dtype, DType::F8E4M3);
    assert_eq!(m.max_position_embeddings, 131_072);
    let long = Args { max_model_len: 200_000, ..args() }.model_config(None).unwrap();
    assert_eq!(long.max_position_embeddings, 200_000);

    let json = r#"{"hidden_size":64,"intermediate_size":128,"num_hidden_layers":2,
        "num_attention_heads":4,"vocab_size":100}"#;
    let m = args().model_config(Some(json)).unwrap();
    assert_eq!(m.name, "unnamed");
    assert_eq!(m.max_position_embeddings, 8192);
    assert!(args().model_config(Some("{}")).is_err());
}

#[test]
fn the_engine_is_set_up_as_asked() {
    let c = Args { max_queued: 9, realtime: true, block_size: 32, ..args() }.engine_config(100);
    assert_eq!(c.cache.num_blocks, 100);
    assert_eq!(c.cache.block_size, 32);
    assert_eq!(c.max_queued_requests, 9);
    assert!(c.realtime);
    assert_eq!(c.scheduler.watermark, Fraction { num: 1, den: 100 });
    assert!(c.scheduler.chunked_prefill);
    assert_eq!(c.scheduler.max_batch_tokens, 2048);
}

fn worker(tensor_parallel_size: usize, block_size: usize) -> WorkerInfo {
    WorkerInfo {
        vocab_size: 10,
        num_layers: 1,
        num_kv_heads: 1,
        head_dim: 1,
        num_blocks: 1,
        block_size,
        tensor_parallel_size,
        device: "cpu".to_string(),
        dtype: "float32".to_string(),
    }
}

#[test]
fn a_worker_that_does_not_fit_the_plan_is_refused() {
    assert!(args().check_worker(&worker(1, 16)).is_ok());
    assert_eq!(
        args().check_worker(&worker(4, 32)).unwrap_err(),
        "tensor parallel mismatch: this server planned tp=1 but the \
         worker is sharded across 4 ranks. The capacity plan and the \
         KV cache sizing would both be wrong. Relaunch the worker with \
         `torchrun --nproc_per_node=1`, or pass --tp 4."
    );
    assert_eq!(
        args().check_worker(&worker(1, 32)).unwrap_err(),
        "block size mismatch: the server plans 16 tokens per block, \
         the worker allocated 32. Restart one of them to agree."
    );
    assert!(vocabulary_warning(10, 10).is_none());
    assert_eq!(
        vocabulary_warning(12, 10).unwrap(),
        "tokenizer vocabulary is 12 but the worker reports 10; \
         ids near the boundary may not round-trip"
    );
}
