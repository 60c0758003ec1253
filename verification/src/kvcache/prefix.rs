//! Content-addressed index from block hash to physical block, with LRU
//! eviction restricted to blocks nobody currently holds.
//!
//! An entry stays in the index after its last sequence finishes. That is the
//! whole point: the next request carrying the same system prompt finds the
//! block still resident and skips recomputing it. Only memory pressure removes
//! it, and only if no live sequence is using it.
use std::collections::{HashMap, VecDeque};

use vstd::prelude::*;

use super::allocator::BlockId;
use super::hash::BlockHash;
use crate::lists::{lemma_without, without};
use crate::number::Ratio;

verus! {

broadcast use vstd::std_specs::hash::group_hash_axioms;

/// What the index holds.
#[verifier::ext_equal]
pub struct PrefixView {
    /// The block that backs each claimed address.
    pub by_hash: Map<u64, BlockId>,
    /// The address that each indexed block backs.
    pub by_block: Map<u32, BlockHash>,
    /// Eviction candidates, stalest first.
    pub stale: Seq<BlockId>,
    pub hits: u64,
    pub misses: u64,
}

impl PrefixView {
    /// An index with nothing in it.
    pub open spec fn empty() -> PrefixView {
        PrefixView {
            by_hash: Map::empty(),
            by_block: Map::empty(),
            stale: Seq::empty(),
            hits: 0,
            misses: 0,
        }
    }

    /// Addresses and blocks are in one-to-one correspondence, and only indexed
    /// blocks are eviction candidates, each of them once.
    pub open spec fn wf(self) -> bool {
        &&& forall|h: u64| #[trigger]
            self.by_hash.contains_key(h) ==> self.by_block.contains_key(self.by_hash[h].0)
                && self.by_block[self.by_hash[h].0] == BlockHash(h)
        &&& forall|b: u32| #[trigger]
            self.by_block.contains_key(b) ==> self.by_hash.contains_key(self.by_block[b].0)
                && self.by_hash[self.by_block[b].0] == BlockId(b)
        &&& self.stale.no_duplicates()
        &&& forall|i: int|
            0 <= i < self.stale.len() ==> self.by_block.contains_key((#[trigger] self.stale[i]).0)
    }

    /// After a lookup of `hash`: the hit or miss is on record.
    pub open spec fn looked_up(self, hash: BlockHash) -> PrefixView {
        if self.by_hash.contains_key(hash.0) {
            PrefixView { hits: self.hits.wrapping_add(1), ..self }
        } else {
            PrefixView { misses: self.misses.wrapping_add(1), ..self }
        }
    }

    /// After publishing `block` under `hash`: the first writer wins.
    pub open spec fn inserted(self, hash: BlockHash, block: BlockId) -> PrefixView {
        if self.by_hash.contains_key(hash.0) {
            self
        } else {
            PrefixView {
                by_hash: self.by_hash.insert(hash.0, block),
                by_block: self.by_block.insert(block.0, hash),
                ..self
            }
        }
    }

    /// After `block` was released: if indexed, it is the freshest candidate.
    pub open spec fn marked_evictable(self, block: BlockId) -> PrefixView {
        if self.by_block.contains_key(block.0) {
            PrefixView { stale: without(self.stale, block).push(block), ..self }
        } else {
            self
        }
    }

    /// After `block` was handed out: it is no candidate.
    pub open spec fn marked_in_use(self, block: BlockId) -> PrefixView {
        PrefixView { stale: without(self.stale, block), ..self }
    }

    /// After evicting the stalest candidate, if there is one.
    pub open spec fn evicted(self) -> PrefixView {
        if self.stale.len() == 0 {
            self
        } else {
            let block = self.stale[0];
            PrefixView {
                by_hash: self.by_hash.remove(self.by_block[block.0].0),
                by_block: self.by_block.remove(block.0),
                stale: self.stale.drop_first(),
                ..self
            }
        }
    }
}

/// The index of reusable blocks.
#[derive(Debug)]
pub struct PrefixCache {
    by_hash: HashMap<u64, BlockId>,
    by_block: HashMap<u32, BlockHash>,
    /// Eviction candidates, ordered by staleness. Holds only unreferenced blocks.
    evictable: VecDeque<BlockId>,
    hits: u64,
    misses: u64,
}

impl View for PrefixCache {
    type V = PrefixView;

    closed spec fn view(&self) -> PrefixView {
        PrefixView {
            by_hash: self.by_hash@,
            by_block: self.by_block@,
            stale: self.evictable@,
            hits: self.hits,
            misses: self.misses,
        }
    }
}

impl PrefixCache {
    pub fn new() -> (r: Self)
        ensures
            r@ == PrefixView::empty(),
            r@.wf(),
    {
        PrefixCache {
            by_hash: HashMap::new(),
            by_block: HashMap::new(),
            evictable: VecDeque::new(),
            hits: 0,
            misses: 0,
        }
    }

    /// Look up a cached block. Records a hit or miss for the reuse metric.
    pub fn get(&mut self, hash: BlockHash) -> (r: Option<BlockId>)
        ensures
            final(self)@ == old(self)@.looked_up(hash),
            r == old(self)@.by_hash.get(hash.0),
    {
        let found: Option<BlockId> = match self.by_hash.get(&hash.0) {
            Some(block) => Some(*block),
            None => None,
        };
        if found.is_some() {
            self.hits = self.hits.wrapping_add(1);
        } else {
            self.misses = self.misses.wrapping_add(1);
        }
        found
    }

    /// Publish a filled block under its content address. Returns false if the
    /// address was already claimed.
    ///
    /// First writer wins. A duplicate is a block that was recomputed while an
    /// equivalent one was already resident — most often the final prompt block,
    /// which [`crate::kvcache::KvCache::acquire_prefix`] withholds on purpose.
    /// The existing entry is equally valid and may already be shared, so it is
    /// left alone; the duplicate stays unindexed and returns to the free list
    /// when its owner releases it.
    ///
    /// A block holds the entries of one prefix, so it should back no other
    /// address: the address it backed before would lead to it still.
    pub fn insert(&mut self, hash: BlockHash, block: BlockId) -> (r: bool)
        ensures
            final(self)@ == old(self)@.inserted(hash, block),
            r == !old(self)@.by_hash.contains_key(hash.0),
            old(self)@.wf() && (r ==> !old(self)@.by_block.contains_key(block.0))
                ==> final(self)@.wf(),
    {
        if self.by_hash.contains_key(&hash.0) {
            return false;
        }
        self.by_hash.insert(hash.0, block);
        self.by_block.insert(block.0, hash);
        assert(self@ =~= old(self)@.inserted(hash, block));
        true
    }

    /// Take `block` out of the eviction candidates.
    fn unlist(&mut self, block: BlockId)
        requires
            old(self)@.stale.no_duplicates(),
        ensures
            final(self)@ == old(self)@.marked_in_use(block),
    {
        let mut i: usize = 0;
        while i < self.evictable.len()
            invariant
                i <= self.evictable@.len(),
                self@ == old(self)@,
                old(self)@.stale.no_duplicates(),
                forall|j: int| 0 <= j < i ==> self.evictable@[j] != block,
            decreases self.evictable.len() - i,
        {
            if self.evictable[i] == block {
                let ghost before = self.evictable@;
                let _ = self.evictable.remove(i);
                proof {
                    assert(before[i as int] == block);
                    assert(before.index_of(block) == i);
                    assert(self@ =~= old(self)@.marked_in_use(block));
                }
                return ;
            }
            i = i + 1;
        }
        assert(!self.evictable@.contains(block));
        assert(self@ =~= old(self)@.marked_in_use(block));
    }

    /// Mark a block as an eviction candidate — its reference count reached zero
    /// but the contents are still valid and worth keeping.
    pub fn mark_evictable(&mut self, block: BlockId)
        requires
            old(self)@.wf(),
        ensures
            final(self)@ == old(self)@.marked_evictable(block),
            final(self)@.wf(),
    {
        if !self.by_block.contains_key(&block.0) {
            return ;
        }
        self.unlist(block);
        self.evictable.push_back(block);
        proof {
            let before = old(self)@.stale;
            lemma_without(before, block);
            let rest = without(before, block);
            let now = self@.stale;
            assert(now =~= rest.push(block));
            assert forall|i: int, j: int| 0 <= i < now.len() && 0 <= j < now.len() && i
                != j implies now[i] != now[j] by {
                if i < rest.len() {
                    assert(rest.contains(rest[i]));
                }
                if j < rest.len() {
                    assert(rest.contains(rest[j]));
                }
            }
            assert forall|i: int| 0 <= i < now.len() implies self@.by_block.contains_key(
                (#[trigger] now[i]).0,
            ) by {
                if i < rest.len() {
                    assert(rest.contains(rest[i]));
                    let p = before.index_of(rest[i]);
                    assert(before[p] == rest[i]);
                }
            }
        }
    }

    /// Mark a block as live again — it was just handed to a sequence.
    pub fn mark_in_use(&mut self, block: BlockId)
        requires
            old(self)@.wf(),
        ensures
            final(self)@ == old(self)@.marked_in_use(block),
            final(self)@.wf(),
    {
        self.unlist(block);
        proof {
            let before = old(self)@.stale;
            lemma_without(before, block);
            let rest = without(before, block);
            assert forall|i: int| 0 <= i < rest.len() implies self@.by_block.contains_key(
                (#[trigger] rest[i]).0,
            ) by {
                assert(rest.contains(rest[i]));
                let p = before.index_of(rest[i]);
                assert(before[p] == rest[i]);
            }
        }
    }

    /// Drop the least recently used unreferenced entry, returning its block so
    /// the caller can recycle it. `None` means every cached block is live.
    pub fn evict_lru(&mut self) -> (r: Option<BlockId>)
        requires
            old(self)@.wf(),
        ensures
            final(self)@ == old(self)@.evicted(),
            final(self)@.wf(),
            r == if old(self)@.stale.len() == 0 {
                None
            } else {
                Some(old(self)@.stale[0])
            },
    {
        match self.evictable.pop_front() {
            None => None,
            Some(block) => {
                let ghost before = old(self)@;
                assert(before.stale[0] == block);
                if let Some(hash) = self.by_block.remove(&block.0) {
                    self.by_hash.remove(&hash.0);
                }
                proof {
                    assert(self@ =~= before.evicted());
                    let now = self@;
                    assert forall|i: int| 0 <= i < now.stale.len() implies now.by_block.contains_key(
                        (#[trigger] now.stale[i]).0,
                    ) by {
                        assert(before.stale[i + 1] == now.stale[i]);
                        assert(before.stale[i + 1] != before.stale[0]);
                    }
                }
                Some(block)
            },
        }
    }

    /// True if this block currently backs a cache entry.
    pub fn contains_block(&self, block: BlockId) -> (r: bool)
        ensures
            r == self@.by_block.contains_key(block.0),
    {
        self.by_block.contains_key(&block.0)
    }

    pub fn len(&self) -> (r: usize)
        ensures
            r == self@.by_hash.len(),
    {
        self.by_hash.len()
    }

    pub fn is_empty(&self) -> (r: bool)
        ensures
            r == (self@.by_hash.len() == 0),
    {
        self.by_hash.len() == 0
    }

    pub fn num_evictable(&self) -> (r: usize)
        ensures
            r == self@.stale.len(),
    {
        self.evictable.len()
    }

    pub fn hits(&self) -> (r: u64)
        ensures
            r == self@.hits,
    {
        self.hits
    }

    pub fn misses(&self) -> (r: u64)
        ensures
            r == self@.misses,
    {
        self.misses
    }

    /// Share of block lookups served from cache since start.
    pub fn hit_rate(&self) -> (r: Ratio)
        ensures
            r == Ratio::share_spec(self@.hits as nat, (self@.hits + self@.misses) as nat),
    {
        Ratio::share(self.hits as u128, self.hits as u128 + self.misses as u128)
    }

    pub fn reset_stats(&mut self)
        ensures
            final(self)@ == (PrefixView { hits: 0, misses: 0, ..old(self)@ }),
    {
        self.hits = 0;
        self.misses = 0;
    }
}

/// First in, first out among candidates: what was released first is evicted
/// first, and a block picked up again and released goes to the back.
pub proof fn law_release_makes_a_block_the_freshest_candidate(v: PrefixView, block: BlockId)
    requires
        v.wf(),
        v.by_block.contains_key(block.0),
    ensures
        v.marked_evictable(block).stale.last() == block,
        v.marked_in_use(block).marked_evictable(block) == v.marked_evictable(block),
        v.stale.len() > 0 && v.stale[0] != block ==> v.marked_evictable(block).stale[0]
            == v.stale[0],
{
    lemma_without(v.stale, block);
    let rest = without(v.stale, block);
    assert(without(rest, block) == rest);
    if v.stale.len() > 0 && v.stale[0] != block {
        if v.stale.contains(block) {
            let at = v.stale.index_of(block);
            assert(at > 0);
            assert(rest[0] == v.stale[0]);
        }
    }
}

/// A call that changes the index.
pub enum Call {
    Get(BlockHash),
    Insert(BlockHash, BlockId),
    MarkEvictable(BlockId),
    MarkInUse(BlockId),
    EvictLru,
    ResetStats,
}

impl PrefixView {
    /// After a call.
    pub open spec fn after(self, call: Call) -> PrefixView {
        match call {
            Call::Get(hash) => self.looked_up(hash),
            Call::Insert(hash, block) => self.inserted(hash, block),
            Call::MarkEvictable(block) => self.marked_evictable(block),
            Call::MarkInUse(block) => self.marked_in_use(block),
            Call::EvictLru => self.evicted(),
            Call::ResetStats => PrefixView { hits: 0, misses: 0, ..self },
        }
    }

    /// After a history of calls on an index with nothing in it.
    pub open spec fn replayed(history: Seq<Call>) -> PrefixView
        decreases history.len(),
    {
        if history.len() == 0 {
            PrefixView::empty()
        } else {
            PrefixView::replayed(history.drop_last()).after(history.last())
        }
    }
}

/// Call `i` published the block: an insertion under an address that was not
/// claimed.
pub open spec fn publishes(history: Seq<Call>, i: int, block: BlockId) -> bool {
    match history[i] {
        Call::Insert(hash, b) => b == block && !PrefixView::replayed(
            history.take(i),
        ).by_hash.contains_key(hash.0),
        _ => false,
    }
}

/// Call `i` evicted the block.
pub open spec fn evicts(history: Seq<Call>, i: int, block: BlockId) -> bool {
    let before = PrefixView::replayed(history.take(i));
    history[i] is EvictLru && before.stale.len() > 0 && before.stale[0] == block
}

/// Call `i` published the block, and no later call evicted it.
pub open spec fn published_for_good(history: Seq<Call>, i: int, block: BlockId) -> bool {
    &&& 0 <= i < history.len()
    &&& publishes(history, i, block)
    &&& forall|j: int| i < j < history.len() ==> !#[trigger] evicts(history, j, block)
}

/// A block backs an entry exactly as long as it was published and not evicted
/// since, whatever else was called meanwhile.
pub proof fn law_a_block_is_indexed_until_it_is_evicted(history: Seq<Call>, block: BlockId)
    ensures
        PrefixView::replayed(history).by_block.contains_key(block.0) <==> exists|i: int|
            published_for_good(history, i, block),
    decreases history.len(),
{
    if history.len() > 0 {
        let earlier = history.drop_last();
        let last = history.len() - 1;
        let before = PrefixView::replayed(earlier);
        let now = PrefixView::replayed(history);
        law_a_block_is_indexed_until_it_is_evicted(earlier, block);
        assert(history.take(last) =~= earlier);
        assert forall|i: int| 0 <= i < last implies publishes(history, i, block) == publishes(
            earlier,
            i,
            block,
        ) && evicts(history, i, block) == #[trigger] evicts(earlier, i, block) by {
            assert(history.take(i) =~= earlier.take(i));
        }
        if now.by_block.contains_key(block.0) {
            if publishes(history, last, block) {
                assert(published_for_good(history, last, block));
            } else {
                assert(before.by_block.contains_key(block.0));
                let i = choose|i: int| published_for_good(earlier, i, block);
                assert(evicts(earlier, i, block) == evicts(history, i, block));
                assert forall|j: int| i < j < history.len() implies !#[trigger] evicts(
                    history,
                    j,
                    block,
                ) by {
                    if j < last {
                        assert(!evicts(earlier, j, block));
                    }
                }
                assert(published_for_good(history, i, block));
            }
        }
        if exists|i: int| published_for_good(history, i, block) {
            let i = choose|i: int| published_for_good(history, i, block);
            if i < last {
                assert(evicts(earlier, i, block) == evicts(history, i, block));
                assert forall|j: int| i < j < earlier.len() implies !#[trigger] evicts(
                    earlier,
                    j,
                    block,
                ) by {
                    assert(!evicts(history, j, block));
                }
                assert(published_for_good(earlier, i, block));
                assert(!evicts(history, last, block));
            }
        }
    } else if exists|i: int| published_for_good(history, i, block) {
        let i = choose|i: int| published_for_good(history, i, block);
    }
}

} // verus!
