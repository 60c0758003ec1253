//! The paged cache: block allocation, prefix reuse and eviction under one
//! invariant.
use vstd::prelude::*;

use super::allocator::{
    count_live, lemma_count_live_update, lemma_occurrences_concat, lemma_occurrences_contains,
    lemma_occurrences_push, lemma_unreferenced_and_live, occurrences, refs_of, unreferenced,
    BlockAllocator, BlockId,
};
use super::hash::{
    chain, chain_spec, law_address_depends_on_the_prefix_alone, prefix_address, BlockHash,
};
use super::prefix::{PrefixCache, PrefixView};
use super::reuse::{law_a_match_goes_as_far_as_it_can, law_blocks_hold_their_tokens};
use crate::error::{Error, Result};
use crate::lists::lemma_without;
use crate::number::Ratio;
use crate::TokenId;

verus! {

#[derive(Debug, Clone, Copy, PartialEq, Eq, Structural)]
pub struct KvCacheConfig {
    /// Total physical blocks carved out of device memory.
    pub num_blocks: usize,
    /// Tokens per block. Larger blocks waste more on short sequences; smaller
    /// blocks cost more indirection per attention step.
    pub block_size: usize,
}

impl KvCacheConfig {
    /// A pool has a block, block ids fit, and a block has room for a token.
    pub open spec fn wf(self) -> bool {
        0 < self.num_blocks <= 0x1_0000_0000 && self.block_size > 0
    }
}

impl Default for KvCacheConfig {
    fn default() -> (r: Self)
        ensures
            r == (KvCacheConfig { num_blocks: 2048, block_size: 16 }),
    {
        KvCacheConfig { num_blocks: 2048, block_size: 16 }
    }
}

/// Result of looking a prompt up in the prefix cache.
#[derive(Debug, Clone, Default)]
pub struct PrefixMatch {
    /// Shared blocks, already referenced on the caller's behalf.
    pub blocks: Vec<BlockId>,
    /// Prompt tokens covered by those blocks.
    pub num_tokens: usize,
}

#[derive(Debug, Clone, Copy, PartialEq, Eq, Structural)]
pub struct CacheStats {
    pub capacity: usize,
    /// Blocks referenced by at least one live sequence.
    pub live: usize,
    /// Unreferenced blocks still holding reusable KV entries.
    pub cached: usize,
    pub free: usize,
    pub block_hit_rate: Ratio,
}

/// What the cache holds.
#[verifier::ext_equal]
pub struct CacheView {
    pub block_size: nat,
    /// The reference count of every block.
    pub refs: Seq<u32>,
    /// The free list. Its last block is the next one taken.
    pub free: Seq<BlockId>,
    /// The number of blocks counted as live.
    pub live: nat,
    pub prefix: PrefixView,
}

impl CacheView {
    pub open spec fn capacity(self) -> nat {
        self.refs.len()
    }

    pub open spec fn is_free(self, b: BlockId) -> bool {
        self.free.contains(b)
    }

    pub open spec fn is_cached(self, b: BlockId) -> bool {
        self.prefix.stale.contains(b)
    }

    pub open spec fn is_live(self, b: BlockId) -> bool {
        refs_of(self.refs, b) > 0
    }

    pub open spec fn indexed(self, b: BlockId) -> bool {
        self.prefix.by_block.contains_key(b.0)
    }

    /// Every block is live, cached, or free, never two at once; a cached block
    /// is indexed and a free one is not.
    pub open spec fn wf(self) -> bool {
        &&& 0 < self.block_size <= usize::MAX
        &&& 0 < self.refs.len() <= 0x1_0000_0000
        &&& self.refs.len() <= usize::MAX
        &&& self.prefix.wf()
        &&& unreferenced(self.refs, self.free)
        &&& unreferenced(self.refs, self.prefix.stale)
        &&& forall|i: int|
            0 <= i < self.free.len() ==> !self.prefix.by_block.contains_key(
                (#[trigger] self.free[i]).0,
            )
        &&& forall|b: u32| #[trigger]
            self.prefix.by_block.contains_key(b) ==> b < self.refs.len()
        &&& forall|b: BlockId|
            b.0 < self.refs.len() && self.refs[b.0 as int] == 0 ==> #[trigger] self.is_free(b)
                || self.is_cached(b)
        &&& self.live == count_live(self.refs)
    }

    /// A pool in which every block is free.
    pub open spec fn fresh(config: KvCacheConfig) -> CacheView {
        CacheView {
            block_size: config.block_size as nat,
            refs: Seq::new(config.num_blocks as nat, |i: int| 0u32),
            free: Seq::new(
                config.num_blocks as nat,
                |i: int| BlockId((config.num_blocks - 1 - i) as u32),
            ),
            live: 0,
            prefix: PrefixView::empty(),
        }
    }

    /// Blocks needed to hold `num_tokens`, rounding up.
    pub open spec fn blocks_for(self, num_tokens: nat) -> nat {
        num_tokens / self.block_size + if num_tokens % self.block_size > 0 {
            1nat
        } else {
            0nat
        }
    }

    /// Blocks that could be handed out, counting those eviction would reclaim.
    pub open spec fn allocatable(self) -> nat {
        self.free.len() + self.prefix.stale.len()
    }

    /// One more reference to `b`.
    pub open spec fn referenced(self, b: BlockId) -> CacheView {
        let count = self.refs[b.0 as int];
        CacheView {
            refs: self.refs.update(b.0 as int, (count + 1) as u32),
            live: if count == 0 {
                self.live + 1
            } else {
                self.live
            },
            prefix: self.prefix.marked_in_use(b),
            ..self
        }
    }

    /// Take a reference to the block behind each address, in order, up to the
    /// first one that is not indexed (or whose count cannot grow).
    pub open spec fn acquired(self, hashes: Seq<BlockHash>) -> (CacheView, Seq<BlockId>)
        decreases hashes.len(),
    {
        if hashes.len() == 0 {
            (self, Seq::empty())
        } else {
            let looked = CacheView { prefix: self.prefix.looked_up(hashes[0]), ..self };
            if !self.prefix.by_hash.contains_key(hashes[0].0) {
                (looked, Seq::empty())
            } else {
                let b = self.prefix.by_hash[hashes[0].0];
                if self.refs[b.0 as int] == u32::MAX {
                    (looked, Seq::empty())
                } else {
                    let (after, more) = looked.referenced(b).acquired(hashes.drop_first());
                    (after, seq![b] + more)
                }
            }
        }
    }

    /// The addresses a prompt may be matched against: all of its full blocks,
    /// but never the block that ends exactly at the prompt's last token.
    pub open spec fn matchable(self, tenant: Seq<char>, tokens: Seq<TokenId>) -> Seq<BlockHash> {
        let hashes = chain_spec(tenant, tokens, self.block_size);
        if tokens.len() % self.block_size == 0 && hashes.len() > 0 {
            hashes.drop_last()
        } else {
            hashes
        }
    }

    /// The block handed out next: the last free one, else the stalest cached one.
    pub open spec fn next_block(self) -> BlockId {
        if self.free.len() > 0 {
            self.free.last()
        } else {
            self.prefix.stale[0]
        }
    }

    /// After handing out one block.
    pub open spec fn took_one(self) -> CacheView {
        let b = self.next_block();
        if self.free.len() > 0 {
            CacheView {
                refs: self.refs.update(b.0 as int, 1u32),
                free: self.free.drop_last(),
                live: self.live + 1,
                ..self
            }
        } else {
            CacheView {
                refs: self.refs.update(b.0 as int, 1u32),
                live: self.live + 1,
                prefix: self.prefix.evicted(),
                ..self
            }
        }
    }

    /// After handing out `n` blocks.
    pub open spec fn allocated(self, n: nat) -> CacheView
        decreases n,
    {
        if n == 0 {
            self
        } else {
            self.allocated((n - 1) as nat).took_one()
        }
    }

    /// The `n` blocks handed out.
    pub open spec fn handed_out(self, n: nat) -> Seq<BlockId>
        decreases n,
    {
        if n == 0 {
            Seq::empty()
        } else {
            self.handed_out((n - 1) as nat).push(self.allocated((n - 1) as nat).next_block())
        }
    }

    /// After publishing the first `n` blocks under the first `n` addresses.
    pub open spec fn published(
        self,
        hashes: Seq<BlockHash>,
        blocks: Seq<BlockId>,
        n: nat,
    ) -> CacheView
        decreases n,
    {
        if n == 0 {
            self
        } else {
            let before = self.published(hashes, blocks, (n - 1) as nat);
            CacheView {
                prefix: before.prefix.inserted(hashes[n - 1], blocks[n - 1]),
                ..before
            }
        }
    }

    /// After dropping one reference to `b`.
    pub open spec fn dropped(self, b: BlockId) -> CacheView {
        let count = (self.refs[b.0 as int] - 1) as u32;
        let refs = self.refs.update(b.0 as int, count);
        if count > 0 {
            CacheView { refs, ..self }
        } else if self.indexed(b) {
            CacheView {
                refs,
                live: (self.live - 1) as nat,
                prefix: self.prefix.marked_evictable(b),
                ..self
            }
        } else {
            CacheView { refs, live: (self.live - 1) as nat, free: self.free.push(b), ..self }
        }
    }

    /// After dropping one reference to each of the first `n` blocks, in order.
    pub open spec fn released(self, blocks: Seq<BlockId>, n: nat) -> CacheView
        decreases n,
    {
        if n == 0 {
            self
        } else {
            self.released(blocks, (n - 1) as nat).dropped(blocks[n - 1])
        }
    }

    /// Every block is referenced at least as often as it is listed.
    pub open spec fn holds(self, blocks: Seq<BlockId>) -> bool {
        forall|b: BlockId| #[trigger] occurrences(blocks, b) <= refs_of(self.refs, b)
    }

    /// The blocks are live and hold what the addresses say: none of them is
    /// indexed, or claims to be listed, under two addresses.
    pub open spec fn covers(self, hashes: Seq<BlockHash>, blocks: Seq<BlockId>) -> bool {
        &&& forall|i: int|
            0 <= i < hashes.len() && i < blocks.len() ==> self.is_live(#[trigger] blocks[i])
        &&& forall|i: int|
            0 <= i < hashes.len() && i < blocks.len() && self.indexed(#[trigger] blocks[i])
                ==> self.prefix.by_block[blocks[i].0] == hashes[i]
        &&& forall|i: int, j: int|
            0 <= i < hashes.len() && i < blocks.len() && 0 <= j < hashes.len() && j < blocks.len()
                && #[trigger] blocks[i] == #[trigger] blocks[j] ==> hashes[i] == hashes[j]
    }
}

/// The number of pairs of two sequences.
pub open spec fn pairs(a: nat, b: nat) -> nat {
    if a <= b {
        a
    } else {
        b
    }
}

proof fn lemma_referenced(v: CacheView, b: BlockId)
    requires
        v.wf(),
        v.indexed(b),
        v.refs[b.0 as int] < u32::MAX,
    ensures
        v.referenced(b).wf(),
        forall|c: BlockId| #[trigger]
            refs_of(v.referenced(b).refs, c) == refs_of(v.refs, c) + if c == b {
                1nat
            } else {
                0nat
            },
        v.referenced(b).prefix.by_hash == v.prefix.by_hash,
        v.referenced(b).prefix.by_block == v.prefix.by_block,
        v.referenced(b).free == v.free,
        v.referenced(b).block_size == v.block_size,
        v.referenced(b).refs.len() == v.refs.len(),
{
    let w = v.referenced(b);
    let stale = v.prefix.stale;
    lemma_without(stale, b);
    lemma_count_live_update(v.refs, b.0 as int, (v.refs[b.0 as int] + 1) as u32);
    assert forall|i: int| 0 <= i < w.free.len() implies (#[trigger] w.free[i]).0 < w.refs.len()
        && w.refs[w.free[i].0 as int] == 0 by {
        assert(v.free[i] != b);
    }
    assert forall|i: int| 0 <= i < w.prefix.stale.len() implies (#[trigger] w.prefix.stale[i]).0
        < w.refs.len() && w.refs[w.prefix.stale[i].0 as int] == 0 && w.prefix.by_block.contains_key(
        w.prefix.stale[i].0,
    ) by {
        let c = w.prefix.stale[i];
        assert(w.prefix.stale.contains(c));
        let k = stale.index_of(c);
        assert(stale[k] == c);
    }
    assert forall|c: BlockId|
        c.0 < w.refs.len() && w.refs[c.0 as int] == 0 implies #[trigger] w.is_free(c)
        || w.is_cached(c) by {
        assert(c != b);
        assert(v.is_free(c) || v.is_cached(c));
    }
}

proof fn lemma_looked_up(v: CacheView, h: BlockHash)
    requires
        v.wf(),
    ensures
        (CacheView { prefix: v.prefix.looked_up(h), ..v }).wf(),
{
    let w = CacheView { prefix: v.prefix.looked_up(h), ..v };
    assert forall|c: BlockId|
        c.0 < w.refs.len() && w.refs[c.0 as int] == 0 implies #[trigger] w.is_free(c)
        || w.is_cached(c) by {
        assert(v.is_free(c) || v.is_cached(c));
    }
}

/// What taking references along a match does to the cache.
pub proof fn lemma_acquired(v: CacheView, hashes: Seq<BlockHash>)
    requires
        v.wf(),
    ensures
        ({
            let (w, blocks) = v.acquired(hashes);
            &&& w.wf()
            &&& w.block_size == v.block_size
            &&& w.refs.len() == v.refs.len()
            &&& w.free == v.free
            &&& w.prefix.by_hash == v.prefix.by_hash
            &&& w.prefix.by_block == v.prefix.by_block
            &&& blocks.len() <= hashes.len()
            &&& forall|i: int|
                0 <= i < blocks.len() ==> v.prefix.by_hash.contains_key(hashes[i].0)
                    && #[trigger] blocks[i] == v.prefix.by_hash[hashes[i].0]
            &&& forall|c: BlockId| #[trigger]
                refs_of(w.refs, c) == refs_of(v.refs, c) + occurrences(blocks, c)
            &&& blocks.len() < hashes.len() && v.prefix.by_hash.contains_key(
                hashes[blocks.len() as int].0,
            ) ==> w.refs[v.prefix.by_hash[hashes[blocks.len() as int].0].0 as int] == u32::MAX
        }),
    decreases hashes.len(),
{
    let (w, blocks) = v.acquired(hashes);
    if hashes.len() > 0 {
        let looked = CacheView { prefix: v.prefix.looked_up(hashes[0]), ..v };
        lemma_looked_up(v, hashes[0]);
        if v.prefix.by_hash.contains_key(hashes[0].0) {
            let b = v.prefix.by_hash[hashes[0].0];
            assert(v.indexed(b));
            if v.refs[b.0 as int] != u32::MAX {
                let rest = hashes.drop_first();
                lemma_referenced(looked, b);
                let mid = looked.referenced(b);
                lemma_acquired(mid, rest);
                let (w2, more) = mid.acquired(rest);
                assert(blocks == seq![b] + more);
                assert forall|i: int|
                    #![trigger blocks[i]]
                    #![trigger hashes[i]]
                    0 <= i < blocks.len() implies v.prefix.by_hash.contains_key(hashes[i].0)
                    && blocks[i] == v.prefix.by_hash[hashes[i].0] by {
                    if i > 0 {
                        assert(more[i - 1] == blocks[i]);
                        assert(rest[i - 1] == hashes[i]);
                    }
                }
                assert forall|c: BlockId| #[trigger]
                    refs_of(w.refs, c) == refs_of(v.refs, c) + occurrences(blocks, c) by {
                    lemma_occurrences_concat(seq![b], more, c);
                    lemma_occurrences_push(Seq::<BlockId>::empty(), b, c);
                    assert(seq![b] =~= Seq::<BlockId>::empty().push(b));
                    assert(occurrences(seq![b], c) == if c == b {
                        1nat
                    } else {
                        0nat
                    });
                    assert(refs_of(mid.refs, c) == refs_of(v.refs, c) + if c == b {
                        1nat
                    } else {
                        0nat
                    });
                    assert(refs_of(w2.refs, c) == refs_of(mid.refs, c) + occurrences(more, c));
                }
                if blocks.len() < hashes.len() {
                    assert(rest[more.len() as int] == hashes[blocks.len() as int]);
                }
            }
        }
    }
}

proof fn lemma_took_one(v: CacheView)
    requires
        v.wf(),
        v.allocatable() > 0,
    ensures
        v.took_one().wf(),
        v.next_block().0 < v.refs.len(),
        refs_of(v.refs, v.next_block()) == 0,
        refs_of(v.took_one().refs, v.next_block()) == 1,
        !v.took_one().indexed(v.next_block()),
        v.took_one().allocatable() == v.allocatable() - 1,
        forall|c: BlockId|
            c != v.next_block() ==> #[trigger] refs_of(v.took_one().refs, c) == refs_of(v.refs, c),
        forall|c: BlockId|
            c != v.next_block() ==> (#[trigger] v.took_one().indexed(c) <==> v.indexed(c)),
        forall|c: BlockId|
            #[trigger] v.took_one().indexed(c) ==> v.took_one().prefix.by_block[c.0]
                == v.prefix.by_block[c.0],
        v.took_one().block_size == v.block_size,
        v.took_one().refs.len() == v.refs.len(),
{
    let w = v.took_one();
    let b = v.next_block();
    lemma_count_live_update(v.refs, b.0 as int, 1u32);
    if v.free.len() > 0 {
        assert(v.free[v.free.len() - 1] == b);
        assert forall|i: int| 0 <= i < w.free.len() implies (#[trigger] w.free[i]).0 < w.refs.len()
            && w.refs[w.free[i].0 as int] == 0 && !w.prefix.by_block.contains_key(w.free[i].0) by {
            assert(v.free[i] == w.free[i]);
            assert(v.free[i] != v.free[v.free.len() - 1]);
        }
        assert forall|i: int| 0 <= i < w.prefix.stale.len() implies (#[trigger] w.prefix.stale[i]).0
            < w.refs.len() && w.refs[w.prefix.stale[i].0 as int] == 0 by {
            assert(v.prefix.by_block.contains_key(v.prefix.stale[i].0));
        }
        assert forall|c: BlockId|
            c.0 < w.refs.len() && w.refs[c.0 as int] == 0 implies #[trigger] w.is_free(c)
            || w.is_cached(c) by {
            assert(c != b);
            assert(v.is_free(c) || v.is_cached(c));
            if v.is_free(c) {
                let k = v.free.index_of(c);
                assert(w.free[k] == c);
            }
        }
    } else {
        assert(v.prefix.stale[0] == b);
        assert forall|i: int| 0 <= i < w.prefix.stale.len() implies (#[trigger] w.prefix.stale[i]).0
            < w.refs.len() && w.refs[w.prefix.stale[i].0 as int] == 0 && w.prefix.by_block.contains_key(
            w.prefix.stale[i].0,
        ) by {
            assert(v.prefix.stale[i + 1] == w.prefix.stale[i]);
            assert(v.prefix.stale[i + 1] != v.prefix.stale[0]);
        }
        assert forall|c: BlockId|
            c.0 < w.refs.len() && w.refs[c.0 as int] == 0 implies #[trigger] w.is_free(c)
            || w.is_cached(c) by {
            assert(c != b);
            assert(v.is_free(c) || v.is_cached(c));
            let k = v.prefix.stale.index_of(c);
            assert(w.prefix.stale[k - 1] == c);
        }
        assert(w.prefix.stale.no_duplicates()) by {
            assert forall|i: int, j: int|
                0 <= i < w.prefix.stale.len() && 0 <= j < w.prefix.stale.len() && i
                    != j implies w.prefix.stale[i] != w.prefix.stale[j] by {
                assert(v.prefix.stale[i + 1] != v.prefix.stale[j + 1]);
            }
        }
    }
}

/// What handing out `n` blocks does to the cache.
pub proof fn lemma_allocated(v: CacheView, n: nat)
    requires
        v.wf(),
        n <= v.allocatable(),
    ensures
        ({
            let w = v.allocated(n);
            let blocks = v.handed_out(n);
            &&& w.wf()
            &&& w.block_size == v.block_size
            &&& w.refs.len() == v.refs.len()
            &&& w.allocatable() == v.allocatable() - n
            &&& blocks.len() == n
            &&& blocks.no_duplicates()
            &&& forall|i: int|
                0 <= i < n ==> refs_of(v.refs, #[trigger] blocks[i]) == 0 && refs_of(
                    w.refs,
                    blocks[i],
                ) == 1 && !w.indexed(blocks[i]) && blocks[i].0 < v.refs.len()
            &&& forall|c: BlockId| #[trigger]
                refs_of(w.refs, c) == refs_of(v.refs, c) + occurrences(blocks, c)
            &&& forall|c: BlockId|
                !blocks.contains(c) ==> (#[trigger] w.indexed(c) <==> v.indexed(c))
            &&& forall|c: BlockId| #[trigger]
                w.indexed(c) ==> w.prefix.by_block[c.0] == v.prefix.by_block[c.0]
        }),
    decreases n,
{
    if n > 0 {
        let m = (n - 1) as nat;
        let u = v.allocated(m);
        let before = v.handed_out(m);
        lemma_allocated(v, m);
        lemma_took_one(u);
        let w = v.allocated(n);
        let blocks = v.handed_out(n);
        let b = u.next_block();
        assert(blocks == before.push(b));
        assert(!before.contains(b)) by {
            if before.contains(b) {
                let k = before.index_of(b);
                assert(refs_of(u.refs, before[k]) == 1);
            }
        }
        assert forall|i: int, j: int| 0 <= i < n && 0 <= j < n && i != j implies blocks[i]
            != blocks[j] by {
            if i < m {
                assert(before.contains(before[i]));
            }
            if j < m {
                assert(before.contains(before[j]));
            }
        }
        assert forall|c: BlockId| #[trigger]
            refs_of(w.refs, c) == refs_of(v.refs, c) + occurrences(blocks, c) by {
            lemma_occurrences_push(before, b, c);
            assert(refs_of(u.refs, c) == refs_of(v.refs, c) + occurrences(before, c));
            if c == b {
                lemma_occurrences_contains(before, b);
            }
        }
        assert forall|i: int| 0 <= i < n implies refs_of(v.refs, #[trigger] blocks[i]) == 0
            && refs_of(w.refs, blocks[i]) == 1 && !w.indexed(blocks[i]) && blocks[i].0
            < v.refs.len() by {
            if i < m {
                assert(before[i] == blocks[i]);
                assert(before.contains(before[i]));
                assert(refs_of(w.refs, before[i]) == refs_of(u.refs, before[i]));
                assert(w.indexed(before[i]) <==> u.indexed(before[i]));
            } else {
                lemma_occurrences_contains(before, b);
                assert(refs_of(u.refs, b) == refs_of(v.refs, b) + occurrences(before, b));
            }
        }
        assert forall|c: BlockId| !blocks.contains(c) implies (#[trigger] w.indexed(c)
            <==> v.indexed(c)) by {
            assert(blocks[n - 1] == b);
            assert(c != b);
            if before.contains(c) {
                let k = before.index_of(c);
                assert(blocks[k] == c);
            }
            assert(u.indexed(c) <==> v.indexed(c));
        }
        assert forall|c: BlockId| #[trigger] w.indexed(c) implies w.prefix.by_block[c.0]
            == v.prefix.by_block[c.0] by {
            assert(u.indexed(c));
        }
    }
}

proof fn lemma_dropped(v: CacheView, b: BlockId)
    requires
        v.wf(),
        refs_of(v.refs, b) > 0,
    ensures
        v.dropped(b).wf(),
        forall|c: BlockId| #[trigger]
            refs_of(v.dropped(b).refs, c) == refs_of(v.refs, c) - if c == b {
                1int
            } else {
                0int
            },
        v.dropped(b).prefix.by_hash == v.prefix.by_hash,
        v.dropped(b).prefix.by_block == v.prefix.by_block,
        v.dropped(b).block_size == v.block_size,
        v.dropped(b).refs.len() == v.refs.len(),
{
    let w = v.dropped(b);
    let count = (v.refs[b.0 as int] - 1) as u32;
    lemma_count_live_update(v.refs, b.0 as int, count);
    let stale = v.prefix.stale;
    assert(!stale.contains(b)) by {
        if stale.contains(b) {
            let k = stale.index_of(b);
            assert(v.refs[stale[k].0 as int] == 0);
        }
    }
    assert(!v.free.contains(b)) by {
        if v.free.contains(b) {
            let k = v.free.index_of(b);
            assert(v.refs[v.free[k].0 as int] == 0);
        }
    }
    assert forall|i: int| 0 <= i < stale.len() implies stale[i] != b by {
        assert(stale.contains(stale[i]));
    }
    assert forall|i: int| 0 <= i < v.free.len() implies v.free[i] != b by {
        assert(v.free.contains(v.free[i]));
    }
    if count == 0 {
        if v.indexed(b) {
            assert(w.prefix.stale =~= stale.push(b));
            assert forall|i: int| 0 <= i < w.prefix.stale.len() implies (
            #[trigger] w.prefix.stale[i]).0 < w.refs.len() && w.refs[w.prefix.stale[i].0 as int]
                == 0 && w.prefix.by_block.contains_key(w.prefix.stale[i].0) by {
                if i < stale.len() {
                    assert(stale[i] == w.prefix.stale[i]);
                }
            }
        } else {
            assert forall|i: int| 0 <= i < w.free.len() implies (#[trigger] w.free[i]).0
                < w.refs.len() && w.refs[w.free[i].0 as int] == 0
                && !w.prefix.by_block.contains_key(w.free[i].0) by {
                if i < v.free.len() {
                    assert(v.free[i] == w.free[i]);
                }
            }
        }
    }
    assert forall|c: BlockId|
        c.0 < w.refs.len() && w.refs[c.0 as int] == 0 implies #[trigger] w.is_free(c)
        || w.is_cached(c) by {
        if c == b {
            if v.indexed(b) {
                assert(w.prefix.stale[stale.len() as int] == b);
            } else {
                assert(w.free[v.free.len() as int] == b);
            }
        } else {
            assert(v.is_free(c) || v.is_cached(c));
            if v.is_free(c) {
                let k = v.free.index_of(c);
                assert(w.free[k] == c);
            } else {
                let k = stale.index_of(c);
                assert(w.prefix.stale[k] == c);
            }
        }
    }
}

/// What dropping the references of a list of blocks does to the cache.
pub proof fn lemma_released(v: CacheView, blocks: Seq<BlockId>, n: nat)
    requires
        v.wf(),
        v.holds(blocks),
        n <= blocks.len(),
    ensures
        ({
            let w = v.released(blocks, n);
            &&& w.wf()
            &&& w.block_size == v.block_size
            &&& w.refs.len() == v.refs.len()
            &&& w.prefix.by_hash == v.prefix.by_hash
            &&& w.prefix.by_block == v.prefix.by_block
            &&& forall|c: BlockId| #[trigger]
                refs_of(w.refs, c) == refs_of(v.refs, c) - occurrences(blocks.take(n as int), c)
            &&& n < blocks.len() ==> refs_of(w.refs, blocks[n as int]) > 0
        }),
    decreases n,
{
    if n > 0 {
        let m = (n - 1) as nat;
        let u = v.released(blocks, m);
        lemma_released(v, blocks, m);
        let b = blocks[m as int];
        lemma_dropped(u, b);
        let w = v.released(blocks, n);
        assert(blocks.take(n as int) =~= blocks.take(m as int).push(b));
        assert forall|c: BlockId| #[trigger]
            refs_of(w.refs, c) == refs_of(v.refs, c) - occurrences(blocks.take(n as int), c) by {
            lemma_occurrences_push(blocks.take(m as int), b, c);
            assert(refs_of(u.refs, c) == refs_of(v.refs, c) - occurrences(
                blocks.take(m as int),
                c,
            ));
        }
    }
    let w = v.released(blocks, n);
    if n == 0 {
        assert forall|c: BlockId| #[trigger]
            refs_of(w.refs, c) == refs_of(v.refs, c) - occurrences(blocks.take(n as int), c) by {
            assert(blocks.take(0) =~= Seq::<BlockId>::empty());
        }
    }
    if n < blocks.len() {
        let b = blocks[n as int];
        let head = blocks.take(n as int);
        let tail = blocks.skip(n as int);
        assert(blocks =~= head + tail);
        lemma_occurrences_concat(head, tail, b);
        assert(tail[0] == b);
        lemma_occurrences_contains(tail, b);
        assert(occurrences(blocks, b) <= refs_of(v.refs, b));
        assert(refs_of(w.refs, b) == refs_of(v.refs, b) - occurrences(head, b));
    }
}

/// What publishing a list of blocks does to the cache.
pub proof fn lemma_published(
    v: CacheView,
    hashes: Seq<BlockHash>,
    blocks: Seq<BlockId>,
    n: nat,
)
    requires
        v.wf(),
        v.covers(hashes, blocks),
        n <= hashes.len(),
        n <= blocks.len(),
    ensures
        ({
            let w = v.published(hashes, blocks, n);
            &&& w.wf()
            &&& w.block_size == v.block_size
            &&& w.refs == v.refs
            &&& w.free == v.free
            &&& w.live == v.live
            &&& w.prefix.stale == v.prefix.stale
            &&& forall|h: u64| #[trigger]
                v.prefix.by_hash.contains_key(h) ==> w.prefix.by_hash.contains_key(h)
                    && w.prefix.by_hash[h] == v.prefix.by_hash[h]
            &&& forall|i: int|
                0 <= i < n ==> w.prefix.by_hash.contains_key((#[trigger] hashes[i]).0)
            &&& forall|b: u32| #[trigger]
                v.prefix.by_block.contains_key(b) ==> w.prefix.by_block.contains_key(b)
                    && w.prefix.by_block[b] == v.prefix.by_block[b]
            &&& forall|b: u32| #[trigger]
                w.prefix.by_block.contains_key(b) && !v.prefix.by_block.contains_key(b) ==> (
                exists|i: int|
                    0 <= i < n && #[trigger] blocks[i] == BlockId(b) && w.prefix.by_block[b]
                        == hashes[i])
            &&& n < hashes.len() && n < blocks.len() ==> w.prefix.by_hash.contains_key(
                hashes[n as int].0,
            ) || !w.indexed(blocks[n as int])
        }),
    decreases n,
{
    let w = v.published(hashes, blocks, n);
    if n > 0 {
        let m = (n - 1) as nat;
        let u = v.published(hashes, blocks, m);
        lemma_published(v, hashes, blocks, m);
        let h = hashes[m as int];
        let b = blocks[m as int];
        assert(v.is_live(b));
        assert forall|c: u32| #[trigger]
            w.prefix.by_block.contains_key(c) && !v.prefix.by_block.contains_key(c) implies exists|
            i: int,
        |
            0 <= i < n && #[trigger] blocks[i] == BlockId(c) && w.prefix.by_block[c]
                == hashes[i] by {
            if u.prefix.by_block.contains_key(c) && (c != b.0 || u.prefix.by_hash.contains_key(
                h.0,
            )) {
                let i = choose|i: int|
                    0 <= i < m && #[trigger] blocks[i] == BlockId(c) && u.prefix.by_block[c]
                        == hashes[i];
                assert(blocks[i] == BlockId(c));
            } else {
                assert(blocks[m as int] == BlockId(c));
            }
        }
        assert forall|c: BlockId|
            c.0 < w.refs.len() && w.refs[c.0 as int] == 0 implies #[trigger] w.is_free(c)
            || w.is_cached(c) by {
            assert(u.is_free(c) || u.is_cached(c));
        }
        assert forall|i: int| 0 <= i < w.free.len() implies !w.prefix.by_block.contains_key(
            (#[trigger] w.free[i]).0,
        ) by {
            assert(refs_of(v.refs, v.free[i]) == 0);
            assert(v.free[i] != b);
        }
    }
    if n < hashes.len() && n < blocks.len() {
        let b = blocks[n as int];
        if w.indexed(b) {
            if v.indexed(b) {
                assert(v.prefix.by_block[b.0] == hashes[n as int]);
                assert(v.prefix.by_hash.contains_key(hashes[n as int].0));
            } else {
                let i = choose|i: int|
                    0 <= i < n && #[trigger] blocks[i] == BlockId(b.0) && w.prefix.by_block[b.0]
                        == hashes[i];
                assert(blocks[i] == blocks[n as int]);
            }
        }
    }
}

/// Paged KV cache: block allocation, prefix reuse and eviction under one
/// invariant — every block is live, cached, or free, never two at once.
#[derive(Debug)]
pub struct KvCache {
    block_size: usize,
    alloc: BlockAllocator,
    prefix: PrefixCache,
}

impl View for KvCache {
    type V = CacheView;

    closed spec fn view(&self) -> CacheView {
        CacheView {
            block_size: self.block_size as nat,
            refs: self.alloc.refs(),
            free: self.alloc.free_list(),
            live: self.alloc.live_count(),
            prefix: self.prefix@,
        }
    }
}

impl KvCache {
    pub fn new(config: KvCacheConfig) -> (r: Self)
        requires
            config.wf(),
        ensures
            r@ == CacheView::fresh(config),
            r@.wf(),
    {
        let r = KvCache {
            block_size: config.block_size,
            alloc: BlockAllocator::new(config.num_blocks),
            prefix: PrefixCache::new(),
        };
        proof {
            assert forall|b: BlockId|
                b.0 < r@.refs.len() && r@.refs[b.0 as int] == 0 implies #[trigger] r@.is_free(b)
                || r@.is_cached(b) by {
                assert(r@.free[config.num_blocks - 1 - b.0] == b);
            }
        }
        r
    }

    pub fn block_size(&self) -> (r: usize)
        ensures
            r == self@.block_size,
    {
        self.block_size
    }

    pub fn capacity(&self) -> (r: usize)
        ensures
            r == self@.capacity(),
    {
        self.alloc.capacity()
    }

    /// Blocks needed to hold `num_tokens`, rounding up.
    pub fn blocks_for(&self, num_tokens: usize) -> (r: usize)
        requires
            self@.wf(),
        ensures
            r == self@.blocks_for(num_tokens as nat),
            r * self@.block_size >= num_tokens,
            r * self@.block_size < num_tokens + self@.block_size,
    {
        proof {
            law_blocks_hold_their_tokens(self@, num_tokens as nat);
        }
        let whole: usize = num_tokens / self.block_size;
        if num_tokens % self.block_size > 0 {
            proof {
                lemma_partial_block_fits(num_tokens as int, self.block_size as int);
            }
            whole + 1
        } else {
            whole
        }
    }

    /// Blocks that could be handed out right now, counting cached blocks that
    /// eviction would reclaim.
    pub fn num_allocatable(&self) -> (r: usize)
        requires
            self@.wf(),
        ensures
            r == self@.allocatable(),
    {
        proof {
            law_partition_covers_the_pool(self@);
        }
        self.alloc.num_free() + self.prefix.num_evictable()
    }

    /// Fraction of the pool holding live KV entries.
    pub fn live_utilization(&self) -> (r: Ratio)
        requires
            self@.wf(),
        ensures
            r == (Ratio {
                part: (self@.capacity() - self@.allocatable()) as u128,
                whole: self@.capacity() as u128,
            }),
            r.part == self@.live,
            r.wf(),
    {
        proof {
            law_partition_covers_the_pool(self@);
        }
        let live: usize = self.alloc.capacity() - self.num_allocatable();
        Ratio { part: live as u128, whole: self.alloc.capacity() as u128 }
    }

    /// Look `tokens` up under `tenant` and take a reference to every cached
    /// block along the matching prefix.
    ///
    /// The match always stops at least one token short of the prompt. A
    /// forward pass needs at least one uncomputed token to produce logits
    /// from; a fully cached prompt would otherwise have nothing to run and
    /// could not emit a first token.
    pub fn acquire_prefix(&mut self, tenant: &str, tokens: &[TokenId]) -> (r: PrefixMatch)
        requires
            old(self)@.wf(),
        ensures
            final(self)@.wf(),
            (final(self)@, r.blocks@) == old(self)@.acquired(
                old(self)@.matchable(tenant@, tokens@),
            ),
            r.num_tokens == r.blocks@.len() * old(self)@.block_size,
            tokens@.len() > 0 ==> r.num_tokens < tokens@.len(),
            tokens@.len() > 0 && (forall|b: BlockId| #[trigger]
                refs_of(old(self)@.refs, b) + tokens@.len() < u32::MAX) ==> {
                let next = (r.blocks@.len() + 1) as nat;
                ||| next * old(self)@.block_size >= tokens@.len()
                ||| !old(self)@.prefix.by_hash.contains_key(
                    prefix_address(tenant@, tokens@, old(self)@.block_size, next).0,
                )
            },
    {
        let hashes = chain(tenant, tokens, self.block_size);
        let ghost v = self@;
        let ghost usable = v.matchable(tenant@, tokens@);
        // Never consume the block that ends exactly at the prompt's last token.
        let ceiling: usize = if tokens.len() % self.block_size == 0 && hashes.len() > 0 {
            hashes.len() - 1
        } else {
            hashes.len()
        };
        assert(hashes@.take(ceiling as int) =~= usable);
        proof {
            lemma_acquired(v, usable);
        }
        let mut blocks: Vec<BlockId> = Vec::new();
        let mut i: usize = 0;
        assert(usable.skip(0) =~= usable);
        assert(blocks@ + v.acquired(usable).1 =~= v.acquired(usable).1);
        while i < ceiling
            invariant_except_break
                v.acquired(usable) == (
                    self@.acquired(usable.skip(i as int)).0,
                    blocks@ + self@.acquired(usable.skip(i as int)).1,
                ),
            invariant
                self@.wf(),
                self@.block_size == v.block_size,
                i <= ceiling <= hashes@.len(),
                usable == hashes@.take(ceiling as int),
                blocks@.len() == i,
            ensures
                v.acquired(usable) == (self@, blocks@),
            decreases ceiling - i,
        {
            let h = hashes[i];
            let ghost before = self@;
            let ghost rest = usable.skip(i as int);
            assert(rest[0] == h);
            assert(rest.drop_first() =~= usable.skip(i + 1));
            let found = self.prefix.get(h);
            let ghost looked = self@;
            proof {
                assert(looked =~= CacheView { prefix: before.prefix.looked_up(h), ..before });
                lemma_looked_up(before, h);
            }
            let block = match found {
                None => {
                    assert(blocks@ + Seq::<BlockId>::empty() =~= blocks@);
                    break ;
                },
                Some(block) => block,
            };
            assert(looked.indexed(block));
            let count: u32 = self.alloc.refcount(block);
            if count == u32::MAX {
                assert(blocks@ + Seq::<BlockId>::empty() =~= blocks@);
                break ;
            }
            proof {
                lemma_referenced(looked, block);
                if looked.free.contains(block) {
                    let k = looked.free.index_of(block);
                    assert(looked.free[k] == block);
                }
            }
            if count > 0 {
                self.alloc.incref(block);
            } else {
                self.alloc.adopt(block);
            }
            self.prefix.mark_in_use(block);
            blocks.push(block);
            proof {
                assert(self@ =~= looked.referenced(block));
                let after = self@.acquired(rest.drop_first());
                assert(before.acquired(rest) == (after.0, seq![block] + after.1));
                assert(blocks@ + after.1 =~= blocks@.drop_last() + (seq![block] + after.1));
            }
            i = i + 1;
            if i == ceiling {
                assert(usable.skip(i as int) =~= Seq::<BlockHash>::empty());
                assert(blocks@ + Seq::<BlockId>::empty() =~= blocks@);
            }
        }
        let len: usize = tokens.len();
        proof {
            lemma_match_stops_short(v, tenant@, tokens@, blocks@.len());
            assert(len == tokens@.len());
            if len > 0 && (forall|b: BlockId| #[trigger]
                refs_of(v.refs, b) + tokens@.len() < u32::MAX) {
                law_a_match_goes_as_far_as_it_can(v, tenant@, tokens@);
            }
        }
        PrefixMatch { num_tokens: blocks.len() * self.block_size, blocks }
    }

    /// Allocate `n` blocks, evicting cached blocks if the free list runs dry.
    ///
    /// Either every block is allocated or none is: a failed allocation leaves
    /// the pool as it was, so a failed admission leaves no leak.
    pub fn allocate(&mut self, n: usize) -> (r: Result<Vec<BlockId>>)
        requires
            old(self)@.wf(),
        ensures
            final(self)@.wf(),
            n > old(self)@.allocatable() ==> final(self)@ == old(self)@ && r == Err::<
                Vec<BlockId>,
                Error,
            >(
                Error::OutOfBlocks {
                    requested: n,
                    available: old(self)@.allocatable() as usize,
                },
            ),
            n <= old(self)@.allocatable() ==> {
                &&& r is Ok
                &&& r->Ok_0@ == old(self)@.handed_out(n as nat)
                &&& final(self)@ == old(self)@.allocated(n as nat)
            },
    {
        let available: usize = self.num_allocatable();
        if n > available {
            return Err(Error::OutOfBlocks { requested: n, available });
        }
        let ghost v = self@;
        let mut out: Vec<BlockId> = Vec::with_capacity(n);
        let mut i: usize = 0;
        while i < n
            invariant
                v.wf(),
                i <= n <= v.allocatable(),
                self@ == v.allocated(i as nat),
                out@ == v.handed_out(i as nat),
            decreases n - i,
        {
            let ghost before = self@;
            proof {
                lemma_allocated(v, i as nat);
                lemma_took_one(before);
            }
            let block = match self.alloc.take_free() {
                Some(b) => b,
                None => match self.prefix.evict_lru() {
                    Some(b) => {
                        proof {
                            assert(before.prefix.stale[0] == b);
                            assert(before.free =~= Seq::<BlockId>::empty());
                        }
                        self.alloc.adopt(b);
                        b
                    },
                    None => {
                        assert(false);
                        return Err(Error::OutOfBlocks { requested: n, available: out.len() });
                    },
                },
            };
            assert(self@ =~= before.took_one());
            out.push(block);
            i = i + 1;
        }
        proof {
            lemma_allocated(v, n as nat);
        }
        Ok(out)
    }

    /// Publish filled blocks under their content addresses.
    ///
    /// `blocks` must cover `tokens` from the start. Only blocks that are
    /// completely full are published; a partial tail block is skipped, since
    /// appending a token would change its identity.
    pub fn publish(&mut self, tenant: &str, tokens: &[TokenId], blocks: &[BlockId])
        requires
            old(self)@.wf(),
            old(self)@.covers(
                chain_spec(tenant@, tokens@, old(self)@.block_size),
                blocks@,
            ),
        ensures
            final(self)@.wf(),
            final(self)@ == ({
                let hashes = chain_spec(tenant@, tokens@, old(self)@.block_size);
                old(self)@.published(hashes, blocks@, pairs(hashes.len(), blocks@.len()))
            }),
    {
        let ghost v = self@;
        let hashes = chain(tenant, tokens, self.block_size);
        let n: usize = if hashes.len() <= blocks.len() {
            hashes.len()
        } else {
            blocks.len()
        };
        let mut i: usize = 0;
        while i < n
            invariant
                v.wf(),
                v.covers(hashes@, blocks@),
                i <= n <= hashes@.len(),
                n <= blocks@.len(),
                self@ == v.published(hashes@, blocks@, i as nat),
            decreases n - i,
        {
            proof {
                lemma_published(v, hashes@, blocks@, i as nat);
            }
            let ghost before = self@;
            self.prefix.insert(hashes[i], blocks[i]);
            i = i + 1;
            assert(self@ =~= v.published(hashes@, blocks@, i as nat));
        }
        proof {
            lemma_published(v, hashes@, blocks@, n as nat);
        }
    }

    /// Drop one reference per block. Blocks reaching zero become cached if the
    /// index still knows them, and free otherwise.
    pub fn release(&mut self, blocks: &[BlockId])
        requires
            old(self)@.wf(),
            old(self)@.holds(blocks@),
        ensures
            final(self)@.wf(),
            final(self)@ == old(self)@.released(blocks@, blocks@.len()),
    {
        let ghost v = self@;
        let mut i: usize = 0;
        while i < blocks.len()
            invariant
                v.wf(),
                v.holds(blocks@),
                i <= blocks@.len(),
                self@ == v.released(blocks@, i as nat),
            decreases blocks.len() - i,
        {
            let b = blocks[i];
            let ghost before = self@;
            proof {
                lemma_released(v, blocks@, i as nat);
                lemma_dropped(before, b);
            }
            if self.alloc.decref(b) == 0 {
                if self.prefix.contains_block(b) {
                    self.prefix.mark_evictable(b);
                } else {
                    proof {
                        if before.free.contains(b) {
                            let k = before.free.index_of(b);
                            assert(before.refs[before.free[k].0 as int] == 0);
                        }
                    }
                    self.alloc.push_free(b);
                }
            }
            i = i + 1;
            assert(self@ =~= before.dropped(b));
        }
        proof {
            lemma_released(v, blocks@, blocks@.len());
        }
    }

    pub fn stats(&self) -> (r: CacheStats)
        ensures
            r.capacity == self@.capacity(),
            r.live == self@.live,
            r.cached == self@.prefix.stale.len(),
            r.free == self@.free.len(),
            r.block_hit_rate == Ratio::share_spec(
                self@.prefix.hits as nat,
                (self@.prefix.hits + self@.prefix.misses) as nat,
            ),
    {
        CacheStats {
            capacity: self.alloc.capacity(),
            live: self.alloc.num_live(),
            cached: self.prefix.num_evictable(),
            free: self.alloc.num_free(),
            block_hit_rate: self.prefix.hit_rate(),
        }
    }

    pub fn reset_stats(&mut self)
        requires
            old(self)@.wf(),
        ensures
            final(self)@ == (CacheView {
                prefix: PrefixView { hits: 0, misses: 0, ..old(self)@.prefix },
                ..old(self)@
            }),
            final(self)@.wf(),
    {
        self.prefix.reset_stats();
        proof {
            let v = old(self)@;
            let w = self@;
            assert forall|c: BlockId|
                c.0 < w.refs.len() && w.refs[c.0 as int] == 0 implies #[trigger] w.is_free(c)
                || w.is_cached(c) by {
                assert(v.is_free(c) || v.is_cached(c));
            }
        }
    }

    /// Whether the live/cached/free partition covers the pool. The three counts
    /// are kept independently of one another, so this can tell.
    pub fn assert_invariants(&self) -> (r: bool)
        ensures
            r == (self@.live + self@.prefix.stale.len() + self@.free.len() == self@.capacity()),
            self@.wf() ==> r,
    {
        proof {
            if self@.wf() {
                law_partition_covers_the_pool(self@);
            }
        }
        let s = self.stats();
        s.live as u128 + s.cached as u128 + s.free as u128 == s.capacity as u128
    }
}

proof fn lemma_partial_block_fits(n: int, size: int)
    requires
        size > 0,
        0 <= n <= usize::MAX,
        n % size > 0,
    ensures
        n / size + 1 <= usize::MAX,
{
    assert(n / size < n) by (nonlinear_arith)
        requires
            size > 0,
            n >= 0,
            n % size > 0,
    ;
}

pub proof fn lemma_match_stops_short(
    v: CacheView,
    tenant: Seq<char>,
    tokens: Seq<TokenId>,
    matched: nat,
)
    requires
        v.wf(),
        matched <= v.matchable(tenant, tokens).len(),
    ensures
        matched * v.block_size <= tokens.len(),
        tokens.len() > 0 ==> matched * v.block_size < tokens.len(),
{
    let size = v.block_size as int;
    let len = tokens.len() as int;
    vstd::arithmetic::div_mod::lemma_fundamental_div_mod(len, size);
    let whole = len / size;
    assert(matched * size <= whole * size) by (nonlinear_arith)
        requires
            matched <= whole,
            size > 0,
    ;
    assert(whole * size == size * whole) by (nonlinear_arith);
    if len > 0 && len % size == 0 {
        assert(whole > 0) by (nonlinear_arith)
            requires
                len == size * whole + len % size,
                len % size == 0,
                len > 0,
                size > 0,
        ;
        assert(matched * size <= (whole - 1) * size) by (nonlinear_arith)
            requires
                matched <= whole - 1,
                size > 0,
        ;
        assert((whole - 1) * size == whole * size - size) by (nonlinear_arith);
    }
}

/// Every block is live, cached or free, and no block is two of these at once,
/// so the three counts add up to the pool.
pub proof fn law_partition_covers_the_pool(v: CacheView)
    requires
        v.wf(),
    ensures
        v.live + v.prefix.stale.len() + v.free.len() == v.capacity(),
        forall|b: BlockId|
            b.0 < v.capacity() ==> #[trigger] v.is_live(b) || v.is_cached(b) || v.is_free(b),
        forall|b: BlockId| !(#[trigger] v.is_live(b) && v.is_cached(b)),
        forall|b: BlockId| !(#[trigger] v.is_live(b) && v.is_free(b)),
        forall|b: BlockId| !(#[trigger] v.is_cached(b) && v.is_free(b)),
{
    let idle = v.free + v.prefix.stale;
    assert forall|b: BlockId| v.is_cached(b) implies !v.is_free(b) && !v.is_live(b) by {
        let k = v.prefix.stale.index_of(b);
        assert(v.prefix.stale[k] == b);
        if v.is_free(b) {
            let j = v.free.index_of(b);
            assert(v.free[j] == b);
        }
    }
    assert forall|b: BlockId| v.is_free(b) implies !v.is_live(b) by {
        let k = v.free.index_of(b);
        assert(v.free[k] == b);
    }
    assert forall|i: int| 0 <= i < idle.len() implies (#[trigger] idle[i]).0 < v.refs.len()
        && v.refs[idle[i].0 as int] == 0 by {
        if i < v.free.len() {
            assert(idle[i] == v.free[i]);
        } else {
            assert(idle[i] == v.prefix.stale[i - v.free.len()]);
        }
    }
    assert forall|i: int, j: int| 0 <= i < idle.len() && 0 <= j < idle.len() && i
        != j implies idle[i] != idle[j] by {
        let f = v.free.len() as int;
        if i < f && j >= f {
            assert(v.is_free(v.free[i]));
            assert(v.is_cached(v.prefix.stale[j - f]));
        }
        if j < f && i >= f {
            assert(v.is_free(v.free[j]));
            assert(v.is_cached(v.prefix.stale[i - f]));
        }
    }
    assert forall|i: int| 0 <= i < v.refs.len() && v.refs[i] == 0 implies #[trigger] idle.contains(
        BlockId(i as u32),
    ) by {
        let b = BlockId(i as u32);
        assert(v.is_free(b) || v.is_cached(b));
        if v.is_free(b) {
            let k = v.free.index_of(b);
            assert(idle[k] == b);
        } else {
            let k = v.prefix.stale.index_of(b);
            assert(idle[v.free.len() + k] == b);
        }
    }
    lemma_unreferenced_and_live(v.refs, idle);
    assert forall|b: BlockId| b.0 < v.capacity() implies #[trigger] v.is_live(b) || v.is_cached(b)
        || v.is_free(b) by {
        if v.refs[b.0 as int] == 0 {
            assert(v.is_free(b) || v.is_cached(b));
        }
    }
}

/// Requests that share a system prompt share its blocks: once the blocks of one
/// prompt were published and released, another prompt of the same tenant that
/// begins with the same `shared` full blocks is matched at least that far, short
/// of the block that ends at its own last token.
pub proof fn law_a_shared_prefix_is_reused(
    v: CacheView,
    tenant: Seq<char>,
    first: Seq<TokenId>,
    blocks: Seq<BlockId>,
    second: Seq<TokenId>,
    shared: nat,
)
    requires
        v.wf(),
        v.covers(chain_spec(tenant, first, v.block_size), blocks),
        v.holds(blocks),
        shared <= blocks.len(),
        shared * v.block_size <= first.len(),
        shared * v.block_size <= second.len(),
        first.take((shared * v.block_size) as int) == second.take((shared * v.block_size) as int),
        forall|b: BlockId| #[trigger]
            refs_of(v.refs, b) + v.matchable(tenant, second).len() < u32::MAX,
    ensures
        ({
            let hashes = chain_spec(tenant, first, v.block_size);
            let kept = v.published(hashes, blocks, pairs(hashes.len(), blocks.len())).released(
                blocks,
                blocks.len(),
            );
            let usable = v.matchable(tenant, second);
            &&& kept.wf()
            &&& kept.matchable(tenant, second) == usable
            &&& kept.acquired(usable).1.len() >= pairs(shared, usable.len())
        }),
{
    let size = v.block_size as int;
    let hashes = chain_spec(tenant, first, v.block_size);
    let n = pairs(hashes.len(), blocks.len());
    let mid = v.published(hashes, blocks, n);
    lemma_published(v, hashes, blocks, n);
    let kept = mid.released(blocks, blocks.len());
    assert(mid.holds(blocks));
    lemma_released(mid, blocks, blocks.len());
    let usable = v.matchable(tenant, second);
    lemma_acquired(kept, usable);
    let (after, found) = kept.acquired(usable);
    let k = found.len() as int;
    if k < shared && k < usable.len() {
        lemma_shared_blocks_fit(shared as int, size, first.len() as int);
        let end = ((k + 1) * size) as int;
        assert(0 <= end <= shared * size) by (nonlinear_arith)
            requires
                end == (k + 1) * size,
                0 <= k < shared,
                size > 0,
        ;
        assert(first.take(end) =~= first.take((shared * size) as int).take(end));
        assert(second.take(end) =~= second.take((shared * size) as int).take(end));
        law_address_depends_on_the_prefix_alone(
            tenant,
            first,
            second,
            v.block_size,
            (k + 1) as nat,
        );
        assert(usable[k] == hashes[k]);
        assert(mid.prefix.by_hash.contains_key(hashes[k].0));
        let b = kept.prefix.by_hash[usable[k].0];
        lemma_occurrences_bound(found, b);
        assert(refs_of(after.refs, b) == refs_of(kept.refs, b) + occurrences(found, b));
        assert(refs_of(kept.refs, b) == refs_of(v.refs, b) - occurrences(
            blocks.take(blocks.len() as int),
            b,
        ));
        assert(kept.indexed(b));
        assert(refs_of(v.refs, b) + usable.len() < u32::MAX);
    }
}

proof fn lemma_shared_blocks_fit(shared: int, size: int, len: int)
    requires
        size > 0,
        0 <= shared * size <= len,
    ensures
        shared <= len / size,
{
    vstd::arithmetic::div_mod::lemma_div_is_ordered(shared * size, len, size);
    vstd::arithmetic::div_mod::lemma_div_multiples_vanish(shared, size);
    assert(shared * size == size * shared) by (nonlinear_arith);
}

/// A repeated prompt is served from the cache: once its blocks were published
/// and released, looking it up again matches every block of it but the one that
/// ends at its last token.
pub proof fn law_a_published_prompt_is_found_again(
    v: CacheView,
    tenant: Seq<char>,
    tokens: Seq<TokenId>,
    blocks: Seq<BlockId>,
)
    requires
        v.wf(),
        v.covers(chain_spec(tenant, tokens, v.block_size), blocks),
        v.holds(blocks),
        blocks.len() >= v.matchable(tenant, tokens).len(),
        forall|b: BlockId| #[trigger]
            refs_of(v.refs, b) + v.matchable(tenant, tokens).len() < u32::MAX,
    ensures
        ({
            let hashes = chain_spec(tenant, tokens, v.block_size);
            let kept = v.published(hashes, blocks, pairs(hashes.len(), blocks.len())).released(
                blocks,
                blocks.len(),
            );
            let usable = v.matchable(tenant, tokens);
            &&& kept.wf()
            &&& kept.matchable(tenant, tokens) == usable
            &&& kept.acquired(usable).1.len() == usable.len()
        }),
{
    let hashes = chain_spec(tenant, tokens, v.block_size);
    let usable = v.matchable(tenant, tokens);
    let kept = v.published(hashes, blocks, pairs(hashes.len(), blocks.len())).released(
        blocks,
        blocks.len(),
    );
    lemma_match_stops_short(v, tenant, tokens, usable.len());
    law_a_shared_prefix_is_reused(v, tenant, tokens, blocks, tokens, usable.len());
    lemma_acquired(kept, usable);
}

proof fn lemma_occurrences_bound(blocks: Seq<BlockId>, b: BlockId)
    ensures
        occurrences(blocks, b) <= blocks.len(),
    decreases blocks.len(),
{
    if blocks.len() > 0 {
        lemma_occurrences_bound(blocks.drop_last(), b);
    }
}

/// A match hands out the block indexed under each address of the prompt, up to
/// the first address that is not indexed.
pub proof fn law_a_match_follows_the_addresses(
    v: CacheView,
    tenant: Seq<char>,
    tokens: Seq<TokenId>,
)
    requires
        v.wf(),
    ensures
        ({
            let found = v.acquired(v.matchable(tenant, tokens)).1;
            let hashes = chain_spec(tenant, tokens, v.block_size);
            &&& found.len() <= hashes.len()
            &&& forall|i: int|
                0 <= i < found.len() ==> v.indexed(#[trigger] found[i])
                    && v.prefix.by_block[found[i].0] == hashes[i]
        }),
{
    let usable = v.matchable(tenant, tokens);
    let hashes = chain_spec(tenant, tokens, v.block_size);
    lemma_acquired(v, usable);
    let found = v.acquired(usable).1;
    assert forall|i: int| 0 <= i < found.len() implies v.indexed(#[trigger] found[i])
        && v.prefix.by_block[found[i].0] == hashes[i] by {
        assert(usable[i] == hashes[i]);
        assert(found[i] == v.prefix.by_hash[usable[i].0]);
    }
}

/// A block is never handed to a prompt that does not have its address: what one
/// tenant published is out of reach of every prompt of another whose addresses
/// differ from it.
pub proof fn law_a_match_never_crosses_addresses(
    v: CacheView,
    owner: Seq<char>,
    owned: Seq<TokenId>,
    blocks: nat,
    block: BlockId,
    tenant: Seq<char>,
    tokens: Seq<TokenId>,
)
    requires
        v.wf(),
        v.indexed(block),
        v.prefix.by_block[block.0] == prefix_address(owner, owned, v.block_size, blocks),
        forall|k: nat|
            0 < k <= tokens.len() / v.block_size ==> #[trigger] prefix_address(
                tenant,
                tokens,
                v.block_size,
                k,
            ) != prefix_address(owner, owned, v.block_size, blocks),
    ensures
        !v.acquired(v.matchable(tenant, tokens)).1.contains(block),
{
    law_a_match_follows_the_addresses(v, tenant, tokens);
    let found = v.acquired(v.matchable(tenant, tokens)).1;
    if found.contains(block) {
        let i = found.index_of(block);
        assert(found[i] == block);
        assert(prefix_address(tenant, tokens, v.block_size, (i + 1) as nat) == chain_spec(
            tenant,
            tokens,
            v.block_size,
        )[i]);
    }
}

/// The blocks of a live sequence are never reclaimed: allocation changes neither
/// their reference counts nor their index entries, and hands out others.
pub proof fn law_live_blocks_survive_allocation(v: CacheView, n: nat, block: BlockId)
    requires
        v.wf(),
        n <= v.allocatable(),
        v.is_live(block),
    ensures
        !v.handed_out(n).contains(block),
        refs_of(v.allocated(n).refs, block) == refs_of(v.refs, block),
        v.allocated(n).indexed(block) <==> v.indexed(block),
        v.indexed(block) ==> v.allocated(n).prefix.by_block[block.0] == v.prefix.by_block[block.0],
{
    lemma_allocated(v, n);
    let blocks = v.handed_out(n);
    if blocks.contains(block) {
        let k = blocks.index_of(block);
        assert(refs_of(v.refs, blocks[k]) == 0);
    }
    lemma_occurrences_contains(blocks, block);
    assert(refs_of(v.allocated(n).refs, block) == refs_of(v.refs, block) + occurrences(
        blocks,
        block,
    ));
}

/// No stale hits: after an allocation no address leads to a block that was
/// handed out, so its next contents cannot be taken for its last.
pub proof fn law_no_address_leads_to_a_block_handed_out(v: CacheView, n: nat, hash: BlockHash)
    requires
        v.wf(),
        n <= v.allocatable(),
        v.allocated(n).prefix.by_hash.contains_key(hash.0),
    ensures
        !v.handed_out(n).contains(v.allocated(n).prefix.by_hash[hash.0]),
{
    lemma_allocated(v, n);
    let w = v.allocated(n);
    let blocks = v.handed_out(n);
    let b = w.prefix.by_hash[hash.0];
    assert(w.indexed(b));
    if blocks.contains(b) {
        let k = blocks.index_of(b);
        assert(!w.indexed(blocks[k]));
    }
}

/// Releasing what an allocation handed out restores every reference count.
pub proof fn law_release_undoes_allocation(v: CacheView, n: nat)
    requires
        v.wf(),
        n <= v.allocatable(),
    ensures
        v.allocated(n).holds(v.handed_out(n)),
        v.allocated(n).released(v.handed_out(n), n).refs == v.refs,
        v.allocated(n).released(v.handed_out(n), n).allocatable() == v.allocatable(),
{
    lemma_allocated(v, n);
    let w = v.allocated(n);
    let blocks = v.handed_out(n);
    assert forall|b: BlockId| #[trigger] occurrences(blocks, b) <= refs_of(w.refs, b) by {
        assert(refs_of(w.refs, b) == refs_of(v.refs, b) + occurrences(blocks, b));
    }
    lemma_released(w, blocks, n);
    let u = w.released(blocks, n);
    lemma_same_counts(v, w, u, blocks);
    law_partition_covers_the_pool(v);
    law_partition_covers_the_pool(u);
}

/// Releasing what a match referenced restores every reference count.
pub proof fn law_release_undoes_a_match(v: CacheView, hashes: Seq<BlockHash>)
    requires
        v.wf(),
    ensures
        v.acquired(hashes).0.holds(v.acquired(hashes).1),
        v.acquired(hashes).0.released(v.acquired(hashes).1, v.acquired(hashes).1.len()).refs
            == v.refs,
        v.acquired(hashes).0.released(
            v.acquired(hashes).1,
            v.acquired(hashes).1.len(),
        ).allocatable() == v.allocatable(),
{
    lemma_acquired(v, hashes);
    let (w, blocks) = v.acquired(hashes);
    assert forall|b: BlockId| #[trigger] occurrences(blocks, b) <= refs_of(w.refs, b) by {
        assert(refs_of(w.refs, b) == refs_of(v.refs, b) + occurrences(blocks, b));
    }
    lemma_released(w, blocks, blocks.len());
    let u = w.released(blocks, blocks.len());
    lemma_same_counts(v, w, u, blocks);
    law_partition_covers_the_pool(v);
    law_partition_covers_the_pool(u);
}

proof fn lemma_same_counts(v: CacheView, w: CacheView, u: CacheView, blocks: Seq<BlockId>)
    requires
        v.refs.len() == w.refs.len() == u.refs.len(),
        v.refs.len() <= 0x1_0000_0000,
        forall|c: BlockId| #[trigger]
            refs_of(w.refs, c) == refs_of(v.refs, c) + occurrences(blocks, c),
        forall|c: BlockId| #[trigger]
            refs_of(u.refs, c) == refs_of(w.refs, c) - occurrences(
                blocks.take(blocks.len() as int),
                c,
            ),
    ensures
        u.refs == v.refs,
{
    assert(blocks.take(blocks.len() as int) =~= blocks);
    assert forall|i: int| 0 <= i < v.refs.len() implies u.refs[i] == v.refs[i] by {
        let c = BlockId(i as u32);
        assert(refs_of(u.refs, c) == refs_of(w.refs, c) - occurrences(blocks, c));
        assert(refs_of(w.refs, c) == refs_of(v.refs, c) + occurrences(blocks, c));
    }
    assert(u.refs =~= v.refs);
}

} // verus!
