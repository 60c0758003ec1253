//! Paged KV-cache allocation with content-addressed prefix reuse.
//!
//! Attention state is stored in fixed-size blocks of `block_size` tokens, so a
//! sequence's KV entries need not be contiguous and a long context costs
//! exactly as many blocks as it uses. Blocks whose entire prefix path matches
//! are shared by reference rather than recomputed, which is what makes a
//! repeated system prompt nearly free on its second use.

pub mod allocator;
pub mod cache;
pub mod divergence;
pub mod hash;
pub mod prefix;
pub mod reuse;

pub use allocator::{BlockAllocator, BlockId};
pub use cache::{CacheStats, KvCache, KvCacheConfig, PrefixMatch};
pub use hash::BlockHash;
pub use prefix::PrefixCache;
