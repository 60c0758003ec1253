//! The block allocator, the prefix index and block addresses.

use stride::kvcache::hash::{block_hash, chain, tenant_root};
use stride::kvcache::{BlockAllocator, BlockHash, BlockId, KvCache, KvCacheConfig, PrefixCache};
use stride::TokenId;

fn h(n: u64) -> BlockHash {
    BlockHash(n)
}

#[test]
fn allocate_until_exhausted_then_recover() {
    let mut a = BlockAllocator::new(4);
    let blocks: Vec<BlockId> = (0..4).map(|_| a.take_free().unwrap()).collect();
    assert_eq!(a.num_free(), 0);
    assert!(a.take_free().is_none(), "must not over-allocate");

    for b in &blocks {
        assert_eq!(a.decref(*b), 0);
        a.push_free(*b);
    }
    assert_eq!(a.num_free(), 4);
    assert_eq!(a.num_occupied(), 0);
}

#[test]
fn shared_block_survives_until_last_holder_leaves() {
    let mut a = BlockAllocator::new(2);
    let b = a.take_free().unwrap();
    a.incref(b);
    a.incref(b);
    assert_eq!(a.refcount(b), 3);

    assert_eq!(a.decref(b), 2);
    assert_eq!(a.decref(b), 1);
    assert!(a.is_live(b), "still held by one owner");
    assert_eq!(a.decref(b), 0);
    assert!(!a.is_live(b));
}

#[test]
fn dropping_to_zero_does_not_implicitly_free() {
    let mut a = BlockAllocator::new(2);
    let b = a.take_free().unwrap();
    a.decref(b);
    assert_eq!(
        a.num_free(),
        1,
        "an unreferenced block stays out of the free list until told"
    );
    a.adopt(b);
    assert_eq!(a.refcount(b), 1, "revived without touching the free list");
}

#[test]
fn the_allocator_counts_live_blocks_on_its_own() {
    let mut a = BlockAllocator::new(3);
    assert_eq!(a.capacity(), 3);
    assert_eq!(a.num_live(), 0);
    let b = a.take_free().unwrap();
    assert_eq!(b, BlockId(0), "the lowest block is handed out first");
    let c = a.take_free().unwrap();
    assert_eq!(c, BlockId(1));
    assert_eq!(a.num_live(), 2);
    a.incref(b);
    assert_eq!(a.num_live(), 2, "a second holder makes no second live block");
    a.decref(c);
    assert_eq!(a.num_live(), 1);
    assert_eq!(a.num_occupied(), 2, "an unreferenced block still occupies");
    a.push_free(c);
    assert_eq!(a.take_free(), Some(c), "the last block freed is reused first");
}

#[test]
fn evicts_least_recently_used_first() {
    let mut c = PrefixCache::new();
    for i in 0..3u32 {
        c.insert(h(i as u64), BlockId(i));
    }
    // Release in a deliberately non-sequential order.
    c.mark_evictable(BlockId(1));
    c.mark_evictable(BlockId(0));
    c.mark_evictable(BlockId(2));

    assert_eq!(c.evict_lru(), Some(BlockId(1)));
    assert_eq!(c.evict_lru(), Some(BlockId(0)));
    assert_eq!(c.evict_lru(), Some(BlockId(2)));
    assert_eq!(c.evict_lru(), None);
    assert!(c.is_empty());
}

#[test]
fn live_blocks_are_never_evicted() {
    let mut c = PrefixCache::new();
    c.insert(h(1), BlockId(1));
    c.insert(h(2), BlockId(2));
    c.mark_evictable(BlockId(2));
    c.mark_in_use(BlockId(2));

    assert_eq!(c.num_evictable(), 0);
    assert_eq!(c.evict_lru(), None, "nothing is releasable");
    assert_eq!(c.len(), 2);
}

#[test]
fn reuse_after_release_makes_the_entry_recent_again() {
    let mut c = PrefixCache::new();
    c.insert(h(1), BlockId(1));
    c.insert(h(2), BlockId(2));
    c.mark_evictable(BlockId(1));
    c.mark_evictable(BlockId(2));

    // Block 1 is picked up again, then released; block 2 is now the oldest.
    c.mark_in_use(BlockId(1));
    c.mark_evictable(BlockId(1));

    assert_eq!(c.evict_lru(), Some(BlockId(2)));
}

#[test]
fn duplicate_address_keeps_the_incumbent() {
    let mut c = PrefixCache::new();
    assert!(c.insert(h(1), BlockId(7)));
    assert!(!c.insert(h(1), BlockId(9)), "second writer is refused");
    assert_eq!(c.get(h(1)), Some(BlockId(7)));
    assert!(
        !c.contains_block(BlockId(9)),
        "the duplicate stays unindexed"
    );
}

#[test]
fn hit_rate_tracks_lookups() {
    let mut c = PrefixCache::new();
    c.insert(h(1), BlockId(1));
    assert!(c.get(h(1)).is_some());
    assert!(c.get(h(2)).is_none());
    assert!(c.get(h(3)).is_none());
    assert_eq!(c.hits(), 1);
    assert_eq!(c.misses(), 2);
    let rate = c.hit_rate();
    assert!((rate.part as f64 / rate.whole as f64 - 1.0 / 3.0).abs() < 1e-9);
}

#[test]
fn a_cache_without_lookups_has_a_rate_of_zero() {
    let mut c = PrefixCache::new();
    let rate = c.hit_rate();
    assert_eq!(rate.part, 0);
    assert_eq!(rate.whole, 1);
    assert!(c.get(h(5)).is_none());
    c.reset_stats();
    assert_eq!(c.misses(), 0);
}

#[test]
fn releasing_twice_keeps_one_candidate() {
    let mut c = PrefixCache::new();
    c.insert(h(1), BlockId(1));
    c.mark_evictable(BlockId(1));
    c.mark_evictable(BlockId(1));
    assert_eq!(c.num_evictable(), 1);
    // A block that is not indexed is no candidate.
    c.mark_evictable(BlockId(4));
    assert_eq!(c.num_evictable(), 1);
    assert_eq!(c.evict_lru(), Some(BlockId(1)));
    assert_eq!(c.get(h(1)), None, "an evicted block is no longer found");
}

#[test]
fn identical_content_under_different_tenants_does_not_collide() {
    let tokens: Vec<TokenId> = (0..32).collect();
    let a = chain("tenant-a", &tokens, 16);
    let b = chain("tenant-b", &tokens, 16);
    assert_eq!(a.len(), 2);
    assert_eq!(b.len(), 2);
    assert_ne!(a[0], b[0], "tenant must be part of the address");
    assert_ne!(a[1], b[1]);
}

#[test]
fn chain_is_prefix_stable() {
    let short: Vec<TokenId> = (0..32).collect();
    let long: Vec<TokenId> = (0..64).collect();
    let a = chain("t", &short, 16);
    let b = chain("t", &long, 16);
    assert_eq!(a[..], b[..2], "a shared prefix must hash identically");
}

#[test]
fn diverging_history_breaks_the_chain() {
    let a: Vec<TokenId> = vec![1; 16].into_iter().chain(vec![9; 16]).collect();
    let b: Vec<TokenId> = vec![2; 16].into_iter().chain(vec![9; 16]).collect();
    let (ha, hb) = (chain("t", &a, 16), chain("t", &b, 16));
    assert_ne!(ha[0], hb[0]);
    assert_ne!(
        ha[1], hb[1],
        "identical second block must differ once the prefix differs"
    );
}

#[test]
fn partial_trailing_block_is_not_addressable() {
    let tokens: Vec<TokenId> = (0..20).collect();
    assert_eq!(chain("t", &tokens, 16).len(), 1);
}

#[test]
fn addresses_are_the_fnv_digest_of_their_bytes() {
    // The published FNV-1a digest of the single letter.
    assert_eq!(tenant_root("a"), BlockHash(0xaf63_dc4c_8601_ec8c));
    assert_eq!(tenant_root(""), BlockHash(0xcbf2_9ce4_8422_2325));
    // A block's address is its tokens, in little-endian order, after its parent.
    let mut expected: u64 = 0xcbf2_9ce4_8422_2325;
    for byte in 7u64.to_le_bytes().iter().chain(258u32.to_le_bytes().iter()) {
        expected = (expected ^ *byte as u64).wrapping_mul(0x0000_0100_0000_01b3);
    }
    assert_eq!(block_hash(BlockHash(7), &[258]), BlockHash(expected));
    assert_eq!(chain("t", &[258], 1), vec![block_hash(tenant_root("t"), &[258])]);
}

#[test]
fn a_fresh_pool_is_all_free() {
    let d = KvCacheConfig::default();
    assert_eq!((d.num_blocks, d.block_size), (2048, 16));
    let c = KvCache::new(KvCacheConfig { num_blocks: 4, block_size: 16 });
    assert_eq!(c.capacity(), 4);
    assert_eq!(c.block_size(), 16);
    assert_eq!(c.num_allocatable(), 4);
    assert_eq!(c.blocks_for(0), 0);
    assert_eq!(c.blocks_for(1), 1);
    assert_eq!(c.blocks_for(16), 1);
    assert_eq!(c.blocks_for(17), 2);
    let stats = c.stats();
    assert_eq!((stats.capacity, stats.free, stats.cached, stats.live), (4, 4, 0, 0));
    assert_eq!(c.live_utilization().part, 0);
    assert!(c.assert_invariants());
}

#[test]
fn one_token_changes_the_address() {
    let parent = tenant_root("acme");
    let base: Vec<TokenId> = (0..16).collect();
    let address = block_hash(parent, &base);
    for i in 0..16 {
        for bit in 0..32 {
            let mut other = base.clone();
            other[i] ^= 1 << bit;
            assert_ne!(block_hash(parent, &other), address);
        }
    }
    let mut other = base.clone();
    other[5] = 0xdead_beef;
    assert_ne!(block_hash(parent, &other), address);
}

#[test]
fn a_block_is_indexed_until_it_is_evicted() {
    let mut c = PrefixCache::new();
    let (a, b) = (BlockId(0), BlockId(1));
    assert!(c.insert(h(1), a));
    assert!(!c.insert(h(1), b), "the address is claimed");
    assert!(c.contains_block(a));
    assert!(!c.contains_block(b));
    // Nothing but an eviction changes that.
    assert_eq!(c.get(h(1)), Some(a));
    c.mark_evictable(a);
    c.mark_in_use(a);
    c.mark_evictable(a);
    c.reset_stats();
    assert!(c.contains_block(a));
    assert_eq!(c.evict_lru(), Some(a));
    assert!(!c.contains_block(a));
    assert_eq!(c.evict_lru(), None);
    assert!(c.insert(h(2), a), "it may be published again");
    assert!(c.contains_block(a));
}

#[test]
fn a_candidate_that_is_published_again_stays_a_candidate() {
    let mut c = PrefixCache::new();
    assert!(c.insert(h(1), BlockId(0)));
    c.mark_evictable(BlockId(0));
    assert!(c.insert(h(2), BlockId(0)));
    assert_eq!(c.num_evictable(), 1);
    assert_eq!(c.get(h(1)), Some(BlockId(0)));
    assert_eq!(c.get(h(2)), Some(BlockId(0)));
}

#[test]
fn adopting_leaves_the_free_list_alone() {
    let mut a = BlockAllocator::new(2);
    a.adopt(BlockId(0));
    assert_eq!(a.refcount(BlockId(0)), 1);
    assert_eq!(a.num_free(), 2, "the block is still on it");
    assert_eq!(a.num_live(), 1);
}
