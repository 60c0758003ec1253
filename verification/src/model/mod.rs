//! Model geometry, quantization formats and capacity planning for large dense
//! and Mixture-of-Experts transformers.
//!
//! The runtime needs to answer three questions before it serves anything:
//! does the model fit, how much context is left, and what does one token cost.
//! All three are answered from arithmetic over the model's own shape, so a
//! deployment is validated at planning time rather than discovered to be
//! impossible under load.

pub mod config;
pub mod dtype;
pub mod figures;
pub mod memory;
pub mod parallel;
pub mod presets;

pub use config::{AttentionConfig, FeedForward, ModelConfig};
pub use dtype::{DType, WeightFormat};
pub use memory::{MemoryPlan, PlanError};
pub use parallel::ParallelConfig;
