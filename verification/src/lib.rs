//! Stride: a serving runtime for large language models.
//!
//! The library holds every decision of the runtime: how KV-cache blocks are
//! paged, shared and reclaimed, which sequences run in the next forward pass,
//! whether a model of a given shape fits the hardware, how tokens become text
//! and how the HTTP surface answers. It performs no I/O and never reads a
//! clock; the program around it does both and hands plain values in. All it
//! takes from the machine is the randomness of an answer's identifier.
use vstd::prelude::*;

pub mod backend;
pub mod engine;
pub mod error;
pub mod ids;
pub mod json;
pub mod kvcache;
pub mod lists;
pub mod model;
pub mod number;
pub mod request;
pub mod sampling;
pub mod sched;
pub mod sequence;
pub mod server;
pub mod text;

verus! {

/// A token id as produced by the tokenizer.
pub type TokenId = u32;

/// Monotonic logical clock, in microseconds since runtime start.
///
/// The runtime never reads the wall clock directly. Every component takes the
/// current tick as an argument, which is what makes the scheduler
/// deterministically replayable from a recorded trace.
pub type Tick = u64;

} // verus!
