//! What the routes answer.
use vstd::prelude::*;

use super::openai::{
    class_named, finish_reason_str, finish_text, parse_service_class, usage_body, ApiErrorBody,
    ApiErrorDetail, ChatChoice, ChatCompletionRequest, ChatCompletionResponse,
    ChatResponseMessage, CompletionChoice, CompletionRequest, CompletionResponse, ModelCard,
    ModelList,
};
use crate::engine::{Collected, EngineMetrics, GenerationRequest};
use crate::error::{Error, Result, SamplingFault};
use crate::request::ServiceClass;
use crate::sampling::SamplingView;
use crate::sequence::FinishReason;

verus! {

/// The tenant of a request that came in over HTTP.
pub const TENANT: &'static str = "default";

/// How an error is answered: the status, the kind of error and its code.
#[verifier::ext_equal]
pub struct Answer {
    pub status: u16,
    pub kind: Seq<char>,
    pub code: Option<Seq<char>>,
}

/// How the error is answered. A full queue is the one error a well-behaved
/// client should retry, so it has a status of its own.
pub open spec fn answer(error: Error) -> Answer {
    match error {
        Error::Backpressure { .. } => Answer {
            status: 429,
            kind: "rate_limit_error"@,
            code: Some("queue_full"@),
        },
        Error::InvalidSampling(_) | Error::PromptTooLong { .. } => Answer {
            status: 400,
            kind: "invalid_request_error"@,
            code: Some("invalid_parameters"@),
        },
        Error::OutOfBlocks { .. } => Answer {
            status: 503,
            kind: "server_error"@,
            code: Some("kv_cache_exhausted"@),
        },
        Error::EngineStopped => Answer {
            status: 503,
            kind: "server_error"@,
            code: Some("engine_stopped"@),
        },
        Error::UnknownSequence(_) | Error::UnknownRequest(_) | Error::Cancelled(_) => Answer {
            status: 500,
            kind: "server_error"@,
            code: None,
        },
    }
}

/// The status and the body that answer an error. `number` is an offending
/// sampling parameter as the caller displays it.
pub fn into_response(error: Error, number: &str) -> (r: (u16, ApiErrorBody))
    ensures
        r.0 == answer(error).status,
        r.1.error.kind@ == answer(error).kind,
        match r.1.error.code {
            Some(code) => answer(error).code == Some(code@),
            None => answer(error).code is None,
        },
        r.1.error.message@ == error.message_spec(number@),
        error is Backpressure ==> r.0 == 429 && r.1.error.kind@ == "rate_limit_error"@
            && r.1.error.code is Some && r.1.error.code->0@ == "queue_full"@,
        error is InvalidSampling || error is PromptTooLong ==> r.0 == 400 && r.1.error.kind@
            == "invalid_request_error"@ && r.1.error.code is Some && r.1.error.code->0@
            == "invalid_parameters"@,
        error is OutOfBlocks ==> r.0 == 503 && r.1.error.code is Some && r.1.error.code->0@
            == "kv_cache_exhausted"@,
        error is EngineStopped ==> r.0 == 503 && r.1.error.code is Some && r.1.error.code->0@
            == "engine_stopped"@,
        error is UnknownSequence || error is UnknownRequest || error is Cancelled ==> r.0 == 500
            && r.1.error.code is None,
        r.0 >= 500 ==> r.1.error.kind@ == "server_error"@,
{
    let (status, kind, code): (u16, &'static str, Option<&'static str>) = match error {
        Error::Backpressure { .. } => (429, "rate_limit_error", Some("queue_full")),
        Error::InvalidSampling(_) | Error::PromptTooLong { .. } => (
            400,
            "invalid_request_error",
            Some("invalid_parameters"),
        ),
        Error::OutOfBlocks { .. } => (503, "server_error", Some("kv_cache_exhausted")),
        Error::EngineStopped => (503, "server_error", Some("engine_stopped")),
        _ => (500, "server_error", None),
    };
    (status, ApiErrorBody { error: ApiErrorDetail { message: error.message(number), kind, code } })
}

/// The state of the server.
#[derive(Debug)]
pub struct Health {
    pub status: &'static str,
    pub model: String,
    pub backend: &'static str,
    pub queued: usize,
    pub running: usize,
    pub kv_blocks_total: usize,
    pub kv_blocks_live: usize,
}

/// The state of a server that answers. Whether a simulator is behind it is
/// said, so that a client is never misled about whether it talks to a real
/// model.
pub fn health(m: &EngineMetrics, model_name: &str, simulated: bool) -> (r: Health)
    ensures
        r.status@ == "ok"@,
        r.model@ == model_name@,
        r.backend@ == if simulated {
            "simulated"@
        } else {
            "device"@
        },
        r.queued == m.queued,
        r.running == m.running,
        r.kv_blocks_total == m.kv_blocks_total,
        r.kv_blocks_live == m.kv_blocks_live,
{
    Health {
        status: "ok",
        model: String::from_str(model_name),
        backend: if simulated {
            "simulated"
        } else {
            "device"
        },
        queued: m.queued,
        running: m.running,
        kv_blocks_total: m.kv_blocks_total,
        kv_blocks_live: m.kv_blocks_live,
    }
}

/// The one model that is served.
pub fn list_models(model_name: &str, simulated: bool) -> (r: ModelList)
    ensures
        r.object@ == "list"@,
        r.data@.len() == 1,
        r.data@[0].id@ == model_name@,
        r.data@[0].object@ == "model"@,
        r.data@[0].owned_by@ == if simulated {
            "stride-simulated"@
        } else {
            "stride"@
        },
{
    ModelList {
        object: "list",
        data: vec![
            ModelCard {
                id: String::from_str(model_name),
                object: "model",
                owned_by: if simulated {
                    "stride-simulated"
                } else {
                    "stride"
                },
            },
        ],
    }
}

/// `c` is a hexadecimal digit in lower case.
pub open spec fn is_hex(c: char) -> bool {
    ('0' <= c && c <= '9') || ('a' <= c && c <= 'f')
}

/// The text of a random identifier: 32 hexadecimal digits, of which the
/// thirteenth is the version and the seventeenth holds the variant.
pub open spec fn is_random_id(text: Seq<char>) -> bool {
    &&& text.len() == 32
    &&& forall|i: int| 0 <= i < text.len() ==> is_hex(#[trigger] text[i])
    &&& text[12] == '4'
    &&& text[16] == '8' || text[16] == '9' || text[16] == 'a' || text[16] == 'b'
}

/// A fresh identifier, by `uuid::Uuid::new_v4`, written by its `simple`
/// formatter: 32 hexadecimal digits in lower case without hyphens, with the
/// version and variant digits of a random identifier. Which one it is, chance
/// decides. The source of randomness is the operating system's; where it has
/// none, the call does not return.
#[verifier::external_body]
fn random_id() -> (r: String)
    ensures
        is_random_id(r@),
{
    uuid::Uuid::new_v4().simple().to_string()
}

/// The identifier of an answer, from the kind of answer and a unique part.
pub fn identifier(prefix: &str, unique: &str) -> (r: String)
    ensures
        r@ == prefix@ + "-"@ + unique@,
{
    let mut out = String::from_str(prefix);
    out.append("-");
    out.append(unique);
    out
}

/// A fresh identifier for an answer.
pub fn request_id(prefix: &str) -> (r: String)
    ensures
        exists|unique: Seq<char>|
            #[trigger] is_random_id(unique) && r@ == prefix@ + "-"@ + unique,
{
    let unique = random_id();
    identifier(prefix, unique.as_str())
}

/// The name a text that may be missing has.
pub open spec fn given(text: Option<String>) -> Option<Seq<char>> {
    match text {
        Some(s) => Some(s@),
        None => None,
    }
}

/// A request carries over exactly this to the engine.
pub open spec fn asks_for(
    r: GenerationRequest,
    prompt: Seq<char>,
    params: SamplingView,
    class: ServiceClass,
) -> bool {
    &&& r.tenant@ == TENANT@
    &&& r.prompt@ == prompt
    &&& r.params@ == params
    &&& r.class == class
}

fn named_class(name: &Option<String>) -> (r: ServiceClass)
    ensures
        r == class_named(given(*name)),
{
    match name {
        Some(text) => parse_service_class(Some(text.as_str())),
        None => parse_service_class(None),
    }
}

/// What a chat request asks of the engine. Anything but one completion is
/// rejected rather than answered with one.
pub fn chat_generation(req: &ChatCompletionRequest) -> (r: Result<GenerationRequest>)
    ensures
        match req.sampling_spec().fault() {
            Some(fault) => r is Err && r->Err_0 == Error::InvalidSampling(fault),
            None => if req.n is Some && req.n != Some(1usize) {
                r is Err && r->Err_0 == Error::InvalidSampling(SamplingFault::Choices)
            } else {
                r is Ok && asks_for(
                    r->Ok_0,
                    req.prompt_spec(),
                    req.sampling_spec(),
                    class_named(given(req.service_class)),
                )
            },
        },
        r is Ok ==> {
            &&& req.n is None || req.n == Some(1usize)
            &&& r->Ok_0.tenant@ == "default"@
            &&& r->Ok_0.prompt@ == req.prompt_spec()
            &&& r->Ok_0.class == match req.service_class {
                Some(name) => class_named(Some(name@)),
                None => ServiceClass::Interactive,
            }
            &&& r->Ok_0.params.temperature == req.temperature
            &&& r->Ok_0.params.top_p == req.top_p
            &&& r->Ok_0.params.top_k == req.top_k
            &&& r->Ok_0.params.max_tokens == req.max_tokens
            &&& r->Ok_0.params.min_tokens == req.min_tokens
            &&& r->Ok_0.params.seed == req.seed
            &&& r->Ok_0.params.stop_tokens@.len() == 0
            &&& !r->Ok_0.params.ignore_eos
        },
        r is Ok <==> {
            &&& req.n is None || req.n == Some(1usize)
            &&& req.temperature.bits <= 0x4000_0000 || req.temperature.bits == 0x8000_0000
            &&& 0 < req.top_p.bits <= 0x3f80_0000
            &&& req.top_k != Some(0u32)
            &&& 1 <= req.max_tokens
            &&& req.min_tokens <= req.max_tokens
        },
{
    let params = req.sampling();
    if let Err(e) = params.validate() {
        return Err(e);
    }
    if let Some(n) = req.n {
        if n != 1 {
            return Err(Error::InvalidSampling(SamplingFault::Choices));
        }
    }
    Ok(
        GenerationRequest {
            tenant: String::from_str(TENANT),
            prompt: req.to_prompt(),
            params,
            class: named_class(&req.service_class),
        },
    )
}

/// What a text request asks of the engine.
pub fn completion_generation(req: &CompletionRequest) -> (r: Result<GenerationRequest>)
    ensures
        match req.sampling_spec().fault() {
            Some(fault) => r is Err && r->Err_0 == Error::InvalidSampling(fault),
            None => r is Ok && asks_for(
                r->Ok_0,
                req.prompt@,
                req.sampling_spec(),
                class_named(given(req.service_class)),
            ),
        },
        r is Ok ==> {
            &&& r->Ok_0.tenant@ == "default"@
            &&& r->Ok_0.prompt@ == req.prompt@
            &&& r->Ok_0.class == match req.service_class {
                Some(name) => class_named(Some(name@)),
                None => ServiceClass::Interactive,
            }
            &&& r->Ok_0.params.temperature == req.temperature
            &&& r->Ok_0.params.top_p == req.top_p
            &&& r->Ok_0.params.top_k == req.top_k
            &&& r->Ok_0.params.max_tokens == req.max_tokens
            &&& r->Ok_0.params.min_tokens == 0
            &&& r->Ok_0.params.seed == req.seed
            &&& r->Ok_0.params.stop_tokens@.len() == 0
            &&& !r->Ok_0.params.ignore_eos
        },
        r is Ok <==> {
            &&& req.temperature.bits <= 0x4000_0000 || req.temperature.bits == 0x8000_0000
            &&& 0 < req.top_p.bits <= 0x3f80_0000
            &&& req.top_k != Some(0u32)
            &&& 1 <= req.max_tokens
        },
{
    let params = req.sampling();
    if let Err(e) = params.validate() {
        return Err(e);
    }
    Ok(
        GenerationRequest {
            tenant: String::from_str(TENANT),
            prompt: req.prompt.clone(),
            params,
            class: named_class(&req.service_class),
        },
    )
}

/// The name of the model in an answer: the one the request gave, or the one
/// that is served.
pub open spec fn answering(requested: Seq<char>, served: Seq<char>) -> Seq<char> {
    if requested.len() == 0 {
        served
    } else {
        requested
    }
}

pub fn answering_model(requested: &str, served: &str) -> (r: String)
    ensures
        r@ == answering(requested@, served@),
        requested@.len() > 0 ==> r@ == requested@,
        requested@.len() == 0 ==> r@ == served@,
{
    if requested.is_empty() {
        String::from_str(served)
    } else {
        String::from_str(requested)
    }
}

/// What a whole completion says of how it ended. A stream that was dropped
/// counts as stopped.
pub open spec fn ending(reason: Option<FinishReason>) -> FinishReason {
    match reason {
        Some(reason) => reason,
        None => FinishReason::Stop,
    }
}

fn ending_of(reason: Option<FinishReason>) -> (r: FinishReason)
    ensures
        r == ending(reason),
{
    match reason {
        Some(reason) => reason,
        None => FinishReason::Stop,
    }
}

/// The answer to a chat request that did not ask for a stream.
pub fn chat_response(id: String, created: u64, model: String, whole: Collected) -> (r:
    ChatCompletionResponse)
    requires
        whole.usage.countable(),
    ensures
        r.id@ == id@,
        r.object@ == "chat.completion"@,
        r.created == created,
        r.model@ == model@,
        r.choices@.len() == 1,
        r.choices@[0].index == 0,
        r.choices@[0].message.role@ == "assistant"@,
        r.choices@[0].message.content@ == whole.text@,
        r.choices@[0].finish_reason@ == finish_text(ending(whole.reason)),
        r.usage == whole.usage.body(),
        whole.reason is None ==> r.choices@[0].finish_reason@ == "stop"@,
        whole.reason is Some ==> r.choices@[0].finish_reason@ == finish_text(whole.reason->0),
        r.usage.total_tokens == whole.usage.prompt_tokens + whole.usage.completion_tokens,
        r.usage.prompt_tokens == whole.usage.prompt_tokens,
        r.usage.completion_tokens == whole.usage.completion_tokens,
        r.usage.stride_cached_prompt_tokens == whole.usage.cached_prompt_tokens,
{
    ChatCompletionResponse {
        id,
        object: "chat.completion",
        created,
        model,
        choices: vec![
            ChatChoice {
                index: 0,
                message: ChatResponseMessage { role: "assistant", content: whole.text },
                finish_reason: finish_reason_str(ending_of(whole.reason)),
            },
        ],
        usage: usage_body(whole.usage),
    }
}

/// The answer to a text request that did not ask for a stream.
pub fn completion_response(id: String, created: u64, model: String, whole: Collected) -> (r:
    CompletionResponse)
    requires
        whole.usage.countable(),
    ensures
        r.id@ == id@,
        r.object@ == "text_completion"@,
        r.created == created,
        r.model@ == model@,
        r.choices@.len() == 1,
        r.choices@[0].index == 0,
        r.choices@[0].text@ == whole.text@,
        r.choices@[0].finish_reason@ == finish_text(ending(whole.reason)),
        r.usage == whole.usage.body(),
        whole.reason is None ==> r.choices@[0].finish_reason@ == "stop"@,
        whole.reason is Some ==> r.choices@[0].finish_reason@ == finish_text(whole.reason->0),
        r.usage.total_tokens == whole.usage.prompt_tokens + whole.usage.completion_tokens,
        r.usage.prompt_tokens == whole.usage.prompt_tokens,
        r.usage.completion_tokens == whole.usage.completion_tokens,
        r.usage.stride_cached_prompt_tokens == whole.usage.cached_prompt_tokens,
{
    CompletionResponse {
        id,
        object: "text_completion",
        created,
        model,
        choices: vec![
            CompletionChoice {
                index: 0,
                text: whole.text,
                finish_reason: finish_reason_str(ending_of(whole.reason)),
            },
        ],
        usage: usage_body(whole.usage),
    }
}

/// A client is told to come back later exactly where the queue was full.
pub proof fn law_only_a_full_queue_is_worth_a_retry(error: Error)
    ensures
        answer(error).status == 429 <==> error is Backpressure,
{
}

/// A request that is refused for what it says is the client's fault, and no
/// other error is.
pub proof fn law_only_bad_requests_blame_the_client(error: Error)
    ensures
        answer(error).status == 400 <==> error is InvalidSampling || error is PromptTooLong,
{
}

} // verus!
