//! Continuous-batching scheduler with deadline-ranked admission.
//!
//! Every step the scheduler answers one question: given a fixed token budget
//! and a finite block pool, which sequences run next? Three rules shape the
//! answer.
//!
//! **Decodes come first.** A sequence that is already generating holds blocks
//! and has a client watching tokens arrive. Displacing it to start new work
//! trades one client's stall for another's, and the stalled one has already
//! been paid for in memory.
//!
//! **Admission is ranked by slack, not by class.** A `Background` request that
//! has waited ten minutes outranks a `Interactive` request that arrived this
//! millisecond. Static priority starves the low classes under sustained load;
//! ranking by time-to-deadline degrades gracefully instead.
//!
//! **Prefill is chunked into whatever budget is left.** A 4000-token prompt
//! does not get to monopolise a step. It is split across steps so running
//! sequences keep emitting tokens while it is processed, which is what keeps
//! inter-token latency flat when a long prompt arrives mid-stream.

pub mod accounts;
pub mod backing;
pub mod deadlines;
pub mod laws;
pub mod model;
pub mod order;
pub mod progress;
pub mod scheduler;
pub mod urgency;

pub use model::{PrefillChunk, SchedulerConfig, SchedulerMetrics};
pub use scheduler::{Finished, ScheduledBatch, Scheduler};
