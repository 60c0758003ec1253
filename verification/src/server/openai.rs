//! Request and response types for the OpenAI-compatible surface.
//!
//! Field names and shapes follow the OpenAI API so existing clients work
//! unmodified. Where Stride reports something the API has no field for, notably
//! how much of a prompt was served from the KV cache, it is added under a
//! namespaced extension rather than by overloading a standard field.
use vstd::prelude::*;

use crate::engine::Usage;
use crate::number::F32;
use crate::request::ServiceClass;
use crate::sampling::{SamplingParams, SamplingView};
use crate::sequence::FinishReason;

verus! {

/// The temperature of a request that names none.
pub fn default_temperature() -> (r: F32)
    ensures
        r == F32::one_spec(),
{
    F32::one()
}

/// The nucleus mass of a request that names none.
pub fn default_top_p() -> (r: F32)
    ensures
        r == F32::one_spec(),
{
    F32::one()
}

/// The token limit of a request that names none.
pub fn default_max_tokens() -> (r: usize)
    ensures
        r == 256,
{
    256
}

#[derive(Debug, Clone)]
pub struct ChatMessage {
    pub role: String,
    pub content: String,
}

#[derive(Debug, Clone)]
pub struct ChatCompletionRequest {
    pub model: String,
    pub messages: Vec<ChatMessage>,
    pub temperature: F32,
    pub top_p: F32,
    pub top_k: Option<u32>,
    pub max_tokens: usize,
    pub min_tokens: usize,
    pub seed: Option<u64>,
    pub stream: bool,
    /// Completions to return. Only one is implemented; a larger value is
    /// rejected rather than silently returning one choice.
    pub n: Option<usize>,
    /// Stride extension: which latency class to admit this request under.
    pub service_class: Option<String>,
}

#[derive(Debug, Clone)]
pub struct CompletionRequest {
    pub model: String,
    pub prompt: String,
    pub temperature: F32,
    pub top_p: F32,
    pub top_k: Option<u32>,
    pub max_tokens: usize,
    pub seed: Option<u64>,
    pub stream: bool,
    pub service_class: Option<String>,
}

/// A character with the case of an ASCII letter taken away.
pub open spec fn ascii_lower(c: char) -> char {
    if 'A' <= c && c <= 'Z' {
        (c as u32 + 32) as char
    } else {
        c
    }
}

/// The text is `word`, whatever the case of its ASCII letters.
pub open spec fn spelled(text: Seq<char>, word: Seq<char>) -> bool {
    text.map_values(|c: char| ascii_lower(c)) == word
}

fn is_spelled(text: &str, word: &str) -> (r: bool)
    ensures
        r == spelled(text@, word@),
{
    let n: usize = text.unicode_len();
    if n != word.unicode_len() {
        return false;
    }
    let mut i: usize = 0;
    while i < n
        invariant
            n == text@.len(),
            n == word@.len(),
            i <= n,
            forall|j: int| 0 <= j < i ==> ascii_lower(#[trigger] text@[j]) == word@[j],
        decreases n - i,
    {
        let c = text.get_char(i);
        let lower = if 'A' <= c && c <= 'Z' {
            (c as u8 + 32) as char
        } else {
            c
        };
        if lower != word.get_char(i) {
            assert(text@.map_values(|c: char| ascii_lower(c))[i as int] != word@[i as int]);
            return false;
        }
        i += 1;
    }
    assert(text@.map_values(|c: char| ascii_lower(c)) =~= word@);
    true
}

/// The class that a request names. One that is not known, like one that is not
/// named, is served as interactive.
pub open spec fn class_named(name: Option<Seq<char>>) -> ServiceClass {
    match name {
        None => ServiceClass::Interactive,
        Some(text) => if spelled(text, "batch"@) {
            ServiceClass::Batch
        } else if spelled(text, "background"@) {
            ServiceClass::Background
        } else {
            ServiceClass::Interactive
        },
    }
}

pub fn parse_service_class(name: Option<&str>) -> (r: ServiceClass)
    ensures
        r == class_named(
            match name {
                Some(text) => Some(text@),
                None => None,
            },
        ),
{
    match name {
        None => ServiceClass::Interactive,
        Some(text) => if is_spelled(text, "batch") {
            ServiceClass::Batch
        } else if is_spelled(text, "background") {
            ServiceClass::Background
        } else {
            ServiceClass::Interactive
        },
    }
}

/// The first `n` messages, one to a line.
pub open spec fn transcript(messages: Seq<ChatMessage>, n: nat) -> Seq<char>
    decreases n,
{
    if n == 0 {
        Seq::empty()
    } else {
        transcript(messages, (n - 1) as nat) + messages[n - 1].role@ + ": "@
            + messages[n - 1].content@ + "\n"@
    }
}

impl ChatCompletionRequest {
    /// The prompt that the messages make.
    pub open spec fn prompt_spec(self) -> Seq<char> {
        transcript(self.messages@, self.messages@.len()) + "assistant: "@
    }

    /// The decoding parameters that the request asks for.
    pub open spec fn sampling_spec(self) -> SamplingView {
        SamplingView {
            temperature: self.temperature,
            top_p: self.top_p,
            top_k: self.top_k,
            max_tokens: self.max_tokens,
            min_tokens: self.min_tokens,
            stop_tokens: Seq::empty(),
            seed: self.seed,
            ignore_eos: false,
        }
    }

    /// Flatten messages into a prompt.
    ///
    /// A real deployment applies the model's own chat template; this is the
    /// neutral fallback used when no template is loaded, and it is kept
    /// deliberately simple so it is obvious which is in play.
    pub fn to_prompt(&self) -> (r: String)
        ensures
            r@ == self.prompt_spec(),
    {
        let mut out = String::new();
        assert(out@ =~= transcript(self.messages@, 0));
        let mut i: usize = 0;
        while i < self.messages.len()
            invariant
                i <= self.messages@.len(),
                out@ == transcript(self.messages@, i as nat),
            decreases self.messages@.len() - i,
        {
            let m = &self.messages[i];
            out.append(m.role.as_str());
            out.append(": ");
            out.append(m.content.as_str());
            out.append("\n");
            i += 1;
        }
        out.append("assistant: ");
        out
    }

    pub fn sampling(&self) -> (r: SamplingParams)
        ensures
            r@ == self.sampling_spec(),
            r.temperature == self.temperature,
            r.top_p == self.top_p,
            r.top_k == self.top_k,
            r.max_tokens == self.max_tokens,
            r.min_tokens == self.min_tokens,
            r.stop_tokens@.len() == 0,
            r.seed == self.seed,
            !r.ignore_eos,
    {
        SamplingParams {
            temperature: self.temperature,
            top_p: self.top_p,
            top_k: self.top_k,
            max_tokens: self.max_tokens,
            min_tokens: self.min_tokens,
            stop_tokens: Vec::new(),
            seed: self.seed,
            ignore_eos: false,
        }
    }
}

impl CompletionRequest {
    /// The decoding parameters that the request asks for.
    pub open spec fn sampling_spec(self) -> SamplingView {
        SamplingView {
            temperature: self.temperature,
            top_p: self.top_p,
            top_k: self.top_k,
            max_tokens: self.max_tokens,
            min_tokens: 0,
            stop_tokens: Seq::empty(),
            seed: self.seed,
            ignore_eos: false,
        }
    }

    pub fn sampling(&self) -> (r: SamplingParams)
        ensures
            r@ == self.sampling_spec(),
            r.temperature == self.temperature,
            r.top_p == self.top_p,
            r.top_k == self.top_k,
            r.max_tokens == self.max_tokens,
            r.min_tokens == 0,
            r.stop_tokens@.len() == 0,
            r.seed == self.seed,
            !r.ignore_eos,
    {
        SamplingParams {
            temperature: self.temperature,
            top_p: self.top_p,
            top_k: self.top_k,
            max_tokens: self.max_tokens,
            min_tokens: 0,
            stop_tokens: Vec::new(),
            seed: self.seed,
            ignore_eos: false,
        }
    }
}

/// What a client is told of why its completion ended.
pub open spec fn finish_text(reason: FinishReason) -> Seq<char> {
    match reason {
        FinishReason::Length => "length"@,
        FinishReason::Stop => "stop"@,
        FinishReason::Cancelled => "cancelled"@,
        FinishReason::Preempted => "preempted"@,
    }
}

pub fn finish_reason_str(reason: FinishReason) -> (r: &'static str)
    ensures
        r@ == finish_text(reason),
{
    match reason {
        FinishReason::Length => "length",
        FinishReason::Stop => "stop",
        FinishReason::Cancelled => "cancelled",
        // Not an OpenAI value. A preempted sequence that never recovered did
        // not stop for a model reason, and saying "stop" would misreport it.
        FinishReason::Preempted => "preempted",
    }
}

#[derive(Debug, Clone, Copy, PartialEq, Eq, Structural)]
pub struct UsageBody {
    pub prompt_tokens: usize,
    pub completion_tokens: usize,
    pub total_tokens: usize,
    /// Stride extension: prompt tokens served from the prefix cache.
    pub stride_cached_prompt_tokens: usize,
}

impl Usage {
    /// The body that reports the usage.
    pub open spec fn body(self) -> UsageBody {
        UsageBody {
            prompt_tokens: self.prompt_tokens,
            completion_tokens: self.completion_tokens,
            total_tokens: (self.prompt_tokens + self.completion_tokens) as usize,
            stride_cached_prompt_tokens: self.cached_prompt_tokens,
        }
    }
}

pub fn usage_body(u: Usage) -> (r: UsageBody)
    requires
        u.countable(),
    ensures
        r == u.body(),
        r.prompt_tokens == u.prompt_tokens,
        r.completion_tokens == u.completion_tokens,
        r.total_tokens == u.prompt_tokens + u.completion_tokens,
        r.stride_cached_prompt_tokens == u.cached_prompt_tokens,
{
    UsageBody {
        prompt_tokens: u.prompt_tokens,
        completion_tokens: u.completion_tokens,
        total_tokens: u.total_tokens(),
        stride_cached_prompt_tokens: u.cached_prompt_tokens,
    }
}

#[derive(Debug)]
pub struct ChatChoice {
    pub index: usize,
    pub message: ChatResponseMessage,
    pub finish_reason: &'static str,
}

#[derive(Debug)]
pub struct ChatResponseMessage {
    pub role: &'static str,
    pub content: String,
}

#[derive(Debug)]
pub struct ChatCompletionResponse {
    pub id: String,
    pub object: &'static str,
    pub created: u64,
    pub model: String,
    pub choices: Vec<ChatChoice>,
    pub usage: UsageBody,
}

#[derive(Debug)]
pub struct ChatDelta {
    pub role: Option<&'static str>,
    pub content: Option<String>,
}

#[derive(Debug)]
pub struct ChatChunkChoice {
    pub index: usize,
    pub delta: ChatDelta,
    pub finish_reason: Option<&'static str>,
}

#[derive(Debug)]
pub struct ChatCompletionChunk {
    pub id: String,
    pub object: &'static str,
    pub created: u64,
    pub model: String,
    pub choices: Vec<ChatChunkChoice>,
    pub usage: Option<UsageBody>,
}

#[derive(Debug)]
pub struct CompletionChoice {
    pub index: usize,
    pub text: String,
    pub finish_reason: &'static str,
}

#[derive(Debug)]
pub struct CompletionResponse {
    pub id: String,
    pub object: &'static str,
    pub created: u64,
    pub model: String,
    pub choices: Vec<CompletionChoice>,
    pub usage: UsageBody,
}

#[derive(Debug)]
pub struct CompletionChunkChoice {
    pub index: usize,
    pub text: String,
    pub finish_reason: Option<&'static str>,
}

#[derive(Debug)]
pub struct CompletionChunk {
    pub id: String,
    pub object: &'static str,
    pub created: u64,
    pub model: String,
    pub choices: Vec<CompletionChunkChoice>,
    pub usage: Option<UsageBody>,
}

#[derive(Debug)]
pub struct ModelCard {
    pub id: String,
    pub object: &'static str,
    pub owned_by: &'static str,
}

#[derive(Debug)]
pub struct ModelList {
    pub object: &'static str,
    pub data: Vec<ModelCard>,
}

#[derive(Debug)]
pub struct ApiErrorBody {
    pub error: ApiErrorDetail,
}

#[derive(Debug)]
pub struct ApiErrorDetail {
    pub message: String,
    /// The kind of error, under the name `type` on the wire.
    pub kind: &'static str,
    pub code: Option<&'static str>,
}

/// The case of an ASCII letter in a class name makes no difference.
pub proof fn law_class_names_ignore_case(a: Seq<char>, b: Seq<char>)
    requires
        a.map_values(|c: char| ascii_lower(c)) == b.map_values(|c: char| ascii_lower(c)),
    ensures
        class_named(Some(a)) == class_named(Some(b)),
{
}

/// What a chat request asks of the sampler is what it says, field by field. It has
/// no stop tokens of its own and ends at the end token.
pub proof fn law_a_chat_request_is_sampled_as_it_says(req: ChatCompletionRequest)
    ensures
        req.sampling_spec().temperature == req.temperature,
        req.sampling_spec().top_p == req.top_p,
        req.sampling_spec().top_k == req.top_k,
        req.sampling_spec().max_tokens == req.max_tokens,
        req.sampling_spec().min_tokens == req.min_tokens,
        req.sampling_spec().seed == req.seed,
        req.sampling_spec().stop_tokens.len() == 0,
        !req.sampling_spec().ignore_eos,
{
}

/// What a text request asks of the sampler is what it says, field by field. It
/// demands no number of tokens.
pub proof fn law_a_text_request_is_sampled_as_it_says(req: CompletionRequest)
    ensures
        req.sampling_spec().temperature == req.temperature,
        req.sampling_spec().top_p == req.top_p,
        req.sampling_spec().top_k == req.top_k,
        req.sampling_spec().max_tokens == req.max_tokens,
        req.sampling_spec().min_tokens == 0,
        req.sampling_spec().seed == req.seed,
        req.sampling_spec().stop_tokens.len() == 0,
        !req.sampling_spec().ignore_eos,
{
}

proof fn lemma_transcripts_agree(a: Seq<ChatMessage>, b: Seq<ChatMessage>, n: nat)
    requires
        n <= a.len(),
        n <= b.len(),
        forall|i: int| 0 <= i < n ==> a[i] == b[i],
    ensures
        transcript(a, n) == transcript(b, n),
    decreases n,
{
    if n > 0 {
        lemma_transcripts_agree(a, b, (n - 1) as nat);
    }
}

/// A conversation without messages is only a cue to answer, and one more message is
/// one more line before the cue: the role, a colon and a space, the content.
pub proof fn law_a_message_is_a_line_of_the_prompt(
    less: ChatCompletionRequest,
    more: ChatCompletionRequest,
    m: ChatMessage,
)
    requires
        more.messages@ == less.messages@.push(m),
    ensures
        less.messages@.len() == 0 ==> less.prompt_spec() == "assistant: "@,
        less.prompt_spec().len() >= 11,
        more.prompt_spec() == less.prompt_spec().take(less.prompt_spec().len() - 11) + m.role@
            + seq![':', ' '] + m.content@ + seq!['\n'] + "assistant: "@,
{
    reveal_strlit("assistant: ");
    reveal_strlit(": ");
    reveal_strlit("\n");
    let n = less.messages@.len();
    lemma_transcripts_agree(less.messages@, more.messages@, n);
    assert(less.prompt_spec().take(less.prompt_spec().len() - 11) =~= transcript(
        less.messages@,
        n,
    ));
    assert(": "@ =~= seq![':', ' ']);
    assert("\n"@ =~= seq!['\n']);
    if n == 0 {
        assert(less.prompt_spec() =~= "assistant: "@);
    }
}

/// `c` is a letter in one case or the other.
pub open spec fn either(c: char, lower: char, upper: char) -> bool {
    c == lower || c == upper
}

proof fn lemma_lower_letter(c: char, lower: char, upper: char)
    requires
        'a' <= lower && lower <= 'z',
        upper as u32 + 32 == lower as u32,
    ensures
        ascii_lower(c) == lower <==> either(c, lower, upper),
{
}

/// A request is served as batch exactly where its class reads `batch`, and as
/// background exactly where it reads `background`, in whatever case; all others are
/// interactive.
pub proof fn law_a_class_is_named_by_its_letters(name: Option<Seq<char>>)
    ensures
        class_named(name) is Batch <==> {
            &&& name is Some
            &&& name->0.len() == 5
            &&& either(name->0[0], 'b', 'B')
            &&& either(name->0[1], 'a', 'A')
            &&& either(name->0[2], 't', 'T')
            &&& either(name->0[3], 'c', 'C')
            &&& either(name->0[4], 'h', 'H')
        },
        class_named(name) is Background <==> {
            &&& name is Some
            &&& name->0.len() == 10
            &&& either(name->0[0], 'b', 'B')
            &&& either(name->0[1], 'a', 'A')
            &&& either(name->0[2], 'c', 'C')
            &&& either(name->0[3], 'k', 'K')
            &&& either(name->0[4], 'g', 'G')
            &&& either(name->0[5], 'r', 'R')
            &&& either(name->0[6], 'o', 'O')
            &&& either(name->0[7], 'u', 'U')
            &&& either(name->0[8], 'n', 'N')
            &&& either(name->0[9], 'd', 'D')
        },
{
    reveal_strlit("batch");
    reveal_strlit("background");
    if let Some(t) = name {
        let low = t.map_values(|c: char| ascii_lower(c));
        if t.len() == 5 {
            lemma_lower_letter(t[0], 'b', 'B');
            lemma_lower_letter(t[1], 'a', 'A');
            lemma_lower_letter(t[2], 't', 'T');
            lemma_lower_letter(t[3], 'c', 'C');
            lemma_lower_letter(t[4], 'h', 'H');
            if class_named(name) is Batch {
                assert(low[0] == 'b' && low[1] == 'a' && low[2] == 't' && low[3] == 'c' && low[4]
                    == 'h');
            } else if either(t[0], 'b', 'B') && either(t[1], 'a', 'A') && either(t[2], 't', 'T')
                && either(t[3], 'c', 'C') && either(t[4], 'h', 'H') {
                assert(low =~= "batch"@);
            }
        }
        if t.len() == 10 {
            lemma_lower_letter(t[0], 'b', 'B');
            lemma_lower_letter(t[1], 'a', 'A');
            lemma_lower_letter(t[2], 'c', 'C');
            lemma_lower_letter(t[3], 'k', 'K');
            lemma_lower_letter(t[4], 'g', 'G');
            lemma_lower_letter(t[5], 'r', 'R');
            lemma_lower_letter(t[6], 'o', 'O');
            lemma_lower_letter(t[7], 'u', 'U');
            lemma_lower_letter(t[8], 'n', 'N');
            lemma_lower_letter(t[9], 'd', 'D');
            if class_named(name) is Background {
                assert(low[0] == 'b' && low[1] == 'a' && low[2] == 'c' && low[3] == 'k' && low[4]
                    == 'g' && low[5] == 'r' && low[6] == 'o' && low[7] == 'u' && low[8] == 'n'
                    && low[9] == 'd');
            } else if either(t[0], 'b', 'B') && either(t[1], 'a', 'A') && either(t[2], 'c', 'C')
                && either(t[3], 'k', 'K') && either(t[4], 'g', 'G') && either(t[5], 'r', 'R')
                && either(t[6], 'o', 'O') && either(t[7], 'u', 'U') && either(t[8], 'n', 'N')
                && either(t[9], 'd', 'D') {
                assert(low =~= "background"@);
                assert(low.len() != "batch"@.len());
            }
        }
        assert(low.len() == t.len());
    }
}

/// A client can tell how its completion ended: each ending has a word of its own.
pub proof fn law_endings_are_told_apart(a: FinishReason, b: FinishReason)
    ensures
        finish_text(a) == finish_text(b) <==> a == b,
        finish_text(FinishReason::Stop) == "stop"@,
        finish_text(FinishReason::Length) == "length"@,
        finish_text(FinishReason::Cancelled) == "cancelled"@,
        finish_text(FinishReason::Preempted) == "preempted"@,
{
    reveal_strlit("length");
    reveal_strlit("stop");
    reveal_strlit("cancelled");
    reveal_strlit("preempted");
    assert("cancelled"@[0] != "preempted"@[0]);
    assert("stop"@.len() == 4 && "length"@.len() == 6);
    assert("cancelled"@.len() == 9 && "preempted"@.len() == 9);
}

} // verus!
