//! Tokenizers, sampling, the executor interface and the worker protocol.

pub mod charsmap;
pub mod executor;
pub mod expression;
pub mod hf;
pub mod remote;
pub mod sampler;
pub mod tokenizer;
pub mod tokenizer_file;

pub use executor::{Executor, ForwardPass, PassCost, PassResult, SequenceLogits, SequenceWork};
pub use hf::HfTokenizer;
pub use remote::{RemoteError, WorkerInfo};
pub use sampler::{Rng, Sampler};
pub use tokenizer::{ByteTokenizer, IncrementalDecoder, Tokenizer};
