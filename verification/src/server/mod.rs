//! The OpenAI-compatible surface and how a deployment is put together.
//!
//! The handlers do three things and no more: translate a request into engine
//! terms, relay the token stream, and map errors onto status codes. All
//! scheduling and memory decisions belong to the engine.

pub mod api;
pub mod deploy;
pub mod metrics;
pub mod openai;
pub mod relay;
