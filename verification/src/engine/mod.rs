//! The serving loop: admission, batching, execution, sampling and streaming.
//!
//! One loop, one owner. Continuous batching means every step's composition
//! depends on the last step's outcome, so splitting the loop across tasks would
//! buy concurrency the algorithm cannot use and cost a synchronisation point
//! per step.
//!
//! The [`Engine`] makes every decision of the loop. Whoever drives it performs
//! what lies between two decisions: run the pass, wait, draw from the logits,
//! deliver the notices.

pub mod laws;
pub mod model;
pub mod outcomes;
pub mod serving;
pub mod stream;
pub mod texts;
pub mod turns;

pub use model::EngineConfig;
pub use serving::{Engine, EngineMetrics, GenerationRequest, Notice, PassWork};
pub use stream::{Collected, StreamEvent, Usage};
pub use turns::{Outcome, Turn};
