//! What can go wrong, and how it is worded.
use vstd::prelude::*;

use crate::ids::{RequestId, SequenceId};
use crate::number::F32;
use crate::text::{decimal, push_decimal};

verus! {

pub type Result<T> = std::result::Result<T, Error>;

/// Why a set of decoding parameters, or a request made with it, is refused.
#[derive(Debug, Clone, Copy, PartialEq, Eq, Structural)]
pub enum SamplingFault {
    /// The temperature is outside `[0, 2]`.
    Temperature(F32),
    /// The nucleus mass is outside `[0, 1]`.
    TopP(F32),
    /// The nucleus mass is zero.
    TopPZero,
    /// `top_k` is zero.
    TopKZero,
    /// `max_tokens` is zero.
    MaxTokensZero,
    /// More tokens are demanded than allowed.
    MinAboveMax { min_tokens: usize, max_tokens: usize },
    /// There is no prompt to run.
    EmptyPrompt,
    /// More or fewer than one completion was asked for.
    Choices,
}

#[derive(Debug, Clone, Copy, PartialEq, Eq, Structural)]
pub enum Error {
    OutOfBlocks { requested: usize, available: usize },
    UnknownSequence(SequenceId),
    UnknownRequest(RequestId),
    Cancelled(RequestId),
    PromptTooLong { got: usize, max: usize },
    InvalidSampling(SamplingFault),
    /// The queue of requests is full.
    Backpressure { queued: usize },
    /// The serving loop is gone.
    EngineStopped,
}

impl SamplingFault {
    /// The wording of the fault. `number` is the offending parameter as the
    /// caller displays it.
    pub open spec fn message_spec(self, number: Seq<char>) -> Seq<char> {
        match self {
            SamplingFault::Temperature(_) => "temperature must be in [0, 2], got "@ + number,
            SamplingFault::TopP(_) => "top_p must be in (0, 1], got "@ + number,
            SamplingFault::TopPZero => "top_p must be > 0"@,
            SamplingFault::TopKZero => "top_k must be >= 1, or None to disable"@,
            SamplingFault::MaxTokensZero => "max_tokens must be >= 1"@,
            SamplingFault::MinAboveMax { min_tokens, max_tokens } => "min_tokens ("@ + decimal(
                min_tokens as nat,
            ) + ") exceeds max_tokens ("@ + decimal(max_tokens as nat) + ")"@,
            SamplingFault::EmptyPrompt => "prompt must not be empty"@,
            SamplingFault::Choices => "only n = 1 is implemented"@,
        }
    }

    pub fn message(self, number: &str) -> (r: String)
        ensures
            r@ == self.message_spec(number@),
    {
        match self {
            SamplingFault::Temperature(_) => {
                let mut out = String::from_str("temperature must be in [0, 2], got ");
                out.append(number);
                out
            },
            SamplingFault::TopP(_) => {
                let mut out = String::from_str("top_p must be in (0, 1], got ");
                out.append(number);
                out
            },
            SamplingFault::TopPZero => String::from_str("top_p must be > 0"),
            SamplingFault::TopKZero => String::from_str("top_k must be >= 1, or None to disable"),
            SamplingFault::MaxTokensZero => String::from_str("max_tokens must be >= 1"),
            SamplingFault::MinAboveMax { min_tokens, max_tokens } => {
                let mut out = String::from_str("min_tokens (");
                push_decimal(&mut out, min_tokens as u64);
                out.append(") exceeds max_tokens (");
                push_decimal(&mut out, max_tokens as u64);
                out.append(")");
                out
            },
            SamplingFault::EmptyPrompt => String::from_str("prompt must not be empty"),
            SamplingFault::Choices => String::from_str("only n = 1 is implemented"),
        }
    }
}

impl Error {
    /// The wording of the error. `number` is an offending sampling parameter as
    /// the caller displays it.
    pub open spec fn message_spec(self, number: Seq<char>) -> Seq<char> {
        match self {
            Error::OutOfBlocks { requested, available } => "no free KV blocks: "@ + decimal(
                requested as nat,
            ) + " requested, "@ + decimal(available as nat) + " available"@,
            Error::UnknownSequence(id) => "unknown sequence SequenceId("@ + decimal(id.0 as nat)
                + ")"@,
            Error::UnknownRequest(id) => "unknown request RequestId("@ + decimal(id.0 as nat)
                + ")"@,
            Error::Cancelled(id) => "request RequestId("@ + decimal(id.0 as nat)
                + ") was cancelled"@,
            Error::PromptTooLong { got, max } => "prompt of "@ + decimal(got as nat)
                + " tokens exceeds the model context of "@ + decimal(max as nat),
            Error::InvalidSampling(fault) => "invalid sampling parameters: "@ + fault.message_spec(
                number,
            ),
            Error::Backpressure { queued } => "the request queue is full: "@ + decimal(
                queued as nat,
            ) + " queued"@,
            Error::EngineStopped => "the engine has stopped"@,
        }
    }

    pub fn message(self, number: &str) -> (r: String)
        ensures
            r@ == self.message_spec(number@),
    {
        match self {
            Error::OutOfBlocks { requested, available } => {
                let mut out = String::from_str("no free KV blocks: ");
                push_decimal(&mut out, requested as u64);
                out.append(" requested, ");
                push_decimal(&mut out, available as u64);
                out.append(" available");
                out
            },
            Error::UnknownSequence(id) => {
                let mut out = String::from_str("unknown sequence SequenceId(");
                push_decimal(&mut out, id.0);
                out.append(")");
                out
            },
            Error::UnknownRequest(id) => {
                let mut out = String::from_str("unknown request RequestId(");
                push_decimal(&mut out, id.0);
                out.append(")");
                out
            },
            Error::Cancelled(id) => {
                let mut out = String::from_str("request RequestId(");
                push_decimal(&mut out, id.0);
                out.append(") was cancelled");
                out
            },
            Error::PromptTooLong { got, max } => {
                let mut out = String::from_str("prompt of ");
                push_decimal(&mut out, got as u64);
                out.append(" tokens exceeds the model context of ");
                push_decimal(&mut out, max as u64);
                out
            },
            Error::InvalidSampling(fault) => {
                let mut out = String::from_str("invalid sampling parameters: ");
                let detail = fault.message(number);
                out.append(detail.as_str());
                out
            },
            Error::Backpressure { queued } => {
                let mut out = String::from_str("the request queue is full: ");
                push_decimal(&mut out, queued as u64);
                out.append(" queued");
                out
            },
            Error::EngineStopped => String::from_str("the engine has stopped"),
        }
    }
}

/// An error says what happened, with the numbers that it holds.
pub proof fn law_an_error_says_what_happened(error: Error, number: Seq<char>)
    ensures
        error is EngineStopped ==> error.message_spec(number) == "the engine has stopped"@,
        error matches Error::Backpressure { queued } ==> error.message_spec(number)
            == "the request queue is full: "@ + decimal(queued as nat) + " queued"@,
        error matches Error::PromptTooLong { got, max } ==> error.message_spec(number)
            == "prompt of "@ + decimal(got as nat) + " tokens exceeds the model context of "@
            + decimal(max as nat),
        error matches Error::OutOfBlocks { requested, available } ==> error.message_spec(number)
            == "no free KV blocks: "@ + decimal(requested as nat) + " requested, "@ + decimal(
            available as nat,
        ) + " available"@,
        error matches Error::InvalidSampling(fault) ==> error.message_spec(number)
            == "invalid sampling parameters: "@ + fault.message_spec(number),
{
}

/// A fault says what is wrong with the parameters, and shows the number that is out
/// of range.
pub proof fn law_a_fault_says_what_is_wrong(fault: SamplingFault, number: Seq<char>)
    ensures
        fault is Temperature ==> fault.message_spec(number)
            == "temperature must be in [0, 2], got "@ + number,
        fault is TopP ==> fault.message_spec(number) == "top_p must be in (0, 1], got "@ + number,
        fault is TopPZero ==> fault.message_spec(number) == "top_p must be > 0"@,
        fault is TopKZero ==> fault.message_spec(number)
            == "top_k must be >= 1, or None to disable"@,
        fault is MaxTokensZero ==> fault.message_spec(number) == "max_tokens must be >= 1"@,
        fault matches SamplingFault::MinAboveMax { min_tokens, max_tokens }
            ==> fault.message_spec(number) == "min_tokens ("@ + decimal(min_tokens as nat)
            + ") exceeds max_tokens ("@ + decimal(max_tokens as nat) + ")"@,
        fault is EmptyPrompt ==> fault.message_spec(number) == "prompt must not be empty"@,
        fault is Choices ==> fault.message_spec(number) == "only n = 1 is implemented"@,
{
}

} // verus!
