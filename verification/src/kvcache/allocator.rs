//! Physical block bookkeeping: reference counts plus a list of truly empty
//! blocks.
//!
//! Every block is in exactly one of three states, and the invariant is
//! maintained by [`crate::kvcache::KvCache`], not here:
//!
//! - **live**    — refcount > 0, held by at least one sequence
//! - **cached**  — refcount == 0, still indexed by content hash, reclaimable
//! - **free**    — refcount == 0, contents meaningless, on the free list
//!
//! A cached block is deliberately *not* on the free list. If it were, an
//! allocation could hand it out while the prefix index still pointed at it,
//! and a later cache hit would read another sequence's KV entries. Keeping the
//! two pools disjoint makes that class of bug unrepresentable.
use vstd::prelude::*;

verus! {

/// Index of a physical KV block in device memory.
#[derive(Debug, Clone, Copy, PartialEq, Eq, PartialOrd, Ord, Hash, Structural)]
pub struct BlockId(pub u32);

impl BlockId {
    pub fn index(self) -> (r: usize)
        ensures
            r == self.0,
    {
        self.0 as usize
    }
}

/// How many of the reference counts are positive.
pub open spec fn count_live(refs: Seq<u32>) -> nat
    decreases refs.len(),
{
    if refs.len() == 0 {
        0
    } else {
        count_live(refs.drop_last()) + if refs.last() > 0 {
            1nat
        } else {
            0nat
        }
    }
}

pub proof fn lemma_count_live_bound(refs: Seq<u32>)
    ensures
        count_live(refs) <= refs.len(),
    decreases refs.len(),
{
    if refs.len() > 0 {
        lemma_count_live_bound(refs.drop_last());
    }
}

pub proof fn lemma_count_live_update(refs: Seq<u32>, i: int, v: u32)
    requires
        0 <= i < refs.len(),
    ensures
        count_live(refs.update(i, v)) == count_live(refs) - (if refs[i] > 0 {
            1int
        } else {
            0int
        }) + (if v > 0 {
            1int
        } else {
            0int
        }),
    decreases refs.len(),
{
    let next = refs.update(i, v);
    if i == refs.len() - 1 {
        assert(next.drop_last() =~= refs.drop_last());
    } else {
        assert(next.drop_last() =~= refs.drop_last().update(i, v));
        lemma_count_live_update(refs.drop_last(), i, v);
    }
}

pub proof fn lemma_count_live_zeros(refs: Seq<u32>)
    requires
        forall|i: int| 0 <= i < refs.len() ==> refs[i] == 0,
    ensures
        count_live(refs) == 0,
    decreases refs.len(),
{
    if refs.len() > 0 {
        lemma_count_live_zeros(refs.drop_last());
    }
}

/// True of a list of distinct blocks of the pool that nobody references.
pub open spec fn unreferenced(refs: Seq<u32>, blocks: Seq<BlockId>) -> bool {
    &&& blocks.no_duplicates()
    &&& forall|i: int|
        0 <= i < blocks.len() ==> (#[trigger] blocks[i]).0 < refs.len() && refs[blocks[i].0 as int]
            == 0
}

/// Distinct unreferenced blocks and live blocks do not outnumber the pool, and
/// fill it where every unreferenced block is listed.
pub proof fn lemma_unreferenced_and_live(refs: Seq<u32>, blocks: Seq<BlockId>)
    requires
        unreferenced(refs, blocks),
        refs.len() <= 0x1_0000_0000,
    ensures
        blocks.len() + count_live(refs) <= refs.len(),
        (forall|i: int|
            0 <= i < refs.len() && refs[i] == 0 ==> #[trigger] blocks.contains(BlockId(i as u32)))
            ==> blocks.len() + count_live(refs) == refs.len(),
    decreases refs.len(),
{
    if refs.len() == 0 {
        if blocks.len() > 0 {
            assert(blocks[0].0 < refs.len());
        }
    } else {
        let shorter = refs.drop_last();
        let last = BlockId((refs.len() - 1) as u32);
        let every = forall|i: int|
            0 <= i < refs.len() && refs[i] == 0 ==> #[trigger] blocks.contains(BlockId(i as u32));
        if blocks.contains(last) {
            let at = blocks.index_of(last);
            let rest = blocks.remove(at);
            assert(refs.last() == 0);
            assert(unreferenced(shorter, rest)) by {
                assert forall|i: int, j: int| 0 <= i < rest.len() && 0 <= j < rest.len() && i
                    != j implies rest[i] != rest[j] by {
                    let i2 = if i < at { i } else { i + 1 };
                    let j2 = if j < at { j } else { j + 1 };
                    assert(blocks[i2] != blocks[j2]);
                }
                assert forall|i: int| 0 <= i < rest.len() implies (#[trigger] rest[i]).0
                    < shorter.len() && shorter[rest[i].0 as int] == 0 by {
                    let i2 = if i < at { i } else { i + 1 };
                    assert(blocks[i2] != blocks[at]);
                }
            }
            lemma_unreferenced_and_live(shorter, rest);
            if every {
                assert forall|i: int| 0 <= i < shorter.len() && shorter[i]
                    == 0 implies #[trigger] rest.contains(BlockId(i as u32)) by {
                    assert(blocks.contains(BlockId(i as u32)));
                    let p = blocks.index_of(BlockId(i as u32));
                    let p2 = if p < at { p } else { p - 1 };
                    assert(rest[p2] == BlockId(i as u32));
                }
            }
        } else {
            assert(unreferenced(shorter, blocks)) by {
                assert forall|i: int| 0 <= i < blocks.len() implies (#[trigger] blocks[i]).0
                    < shorter.len() && shorter[blocks[i].0 as int] == 0 by {
                    assert(blocks.contains(blocks[i]));
                }
            }
            lemma_unreferenced_and_live(shorter, blocks);
            if every {
                assert(refs[refs.len() - 1] != 0);
                assert forall|i: int| 0 <= i < shorter.len() && shorter[i]
                    == 0 implies #[trigger] blocks.contains(BlockId(i as u32)) by {
                    assert(refs[i] == 0);
                }
            }
        }
    }
}

/// How often `block` stands in `blocks`.
pub open spec fn occurrences(blocks: Seq<BlockId>, block: BlockId) -> nat
    decreases blocks.len(),
{
    if blocks.len() == 0 {
        0
    } else {
        occurrences(blocks.drop_last(), block) + if blocks.last() == block {
            1nat
        } else {
            0nat
        }
    }
}

/// The reference count of `block`, zero outside the pool.
pub open spec fn refs_of(refs: Seq<u32>, block: BlockId) -> nat {
    if block.0 < refs.len() {
        refs[block.0 as int] as nat
    } else {
        0
    }
}

pub proof fn lemma_occurrences_push(blocks: Seq<BlockId>, last: BlockId, block: BlockId)
    ensures
        occurrences(blocks.push(last), block) == occurrences(blocks, block) + if last == block {
            1nat
        } else {
            0nat
        },
{
    assert(blocks.push(last).drop_last() =~= blocks);
}

pub proof fn lemma_occurrences_concat(a: Seq<BlockId>, b: Seq<BlockId>, block: BlockId)
    ensures
        occurrences(a + b, block) == occurrences(a, block) + occurrences(b, block),
    decreases b.len(),
{
    if b.len() == 0 {
        assert(a + b =~= a);
    } else {
        assert((a + b).drop_last() =~= a + b.drop_last());
        lemma_occurrences_concat(a, b.drop_last(), block);
    }
}

pub proof fn lemma_occurrences_contains(blocks: Seq<BlockId>, block: BlockId)
    ensures
        blocks.contains(block) <==> occurrences(blocks, block) > 0,
    decreases blocks.len(),
{
    if blocks.len() > 0 {
        let rest = blocks.drop_last();
        lemma_occurrences_contains(rest, block);
        if rest.contains(block) {
            let i = rest.index_of(block);
            assert(blocks[i] == block);
        }
        if blocks.contains(block) && blocks.last() != block {
            let i = blocks.index_of(block);
            assert(rest[i] == block);
        }
    }
}

/// Reference counts and the free list of one block pool.
///
/// The number of live blocks is counted as references come and go, on its own
/// and not from the other counts, so that comparing the three is a real check.
#[derive(Debug)]
pub struct BlockAllocator {
    free: Vec<BlockId>,
    refcount: Vec<u32>,
    live: usize,
}

impl BlockAllocator {
    /// The free list. Its last block is the next one taken.
    pub closed spec fn free_list(&self) -> Seq<BlockId> {
        self.free@
    }

    /// The reference count of every block of the pool.
    pub closed spec fn refs(&self) -> Seq<u32> {
        self.refcount@
    }

    /// The number of blocks counted as live.
    pub closed spec fn live_count(&self) -> nat {
        self.live as nat
    }

    /// The free list holds distinct unreferenced blocks, and the live count is
    /// the number of referenced ones.
    pub open spec fn wf(&self) -> bool {
        &&& 0 < self.refs().len() <= 0x1_0000_0000
        &&& unreferenced(self.refs(), self.free_list())
        &&& self.live_count() == count_live(self.refs())
    }

    /// A pool of `capacity` free blocks. The first block taken is block 0.
    pub fn new(capacity: usize) -> (r: Self)
        requires
            0 < capacity <= 0x1_0000_0000,
        ensures
            r.wf(),
            r.refs() == Seq::new(capacity as nat, |i: int| 0u32),
            r.free_list() == Seq::new(capacity as nat, |i: int| BlockId((capacity - 1 - i) as u32)),
            r.live_count() == 0,
    {
        let mut free: Vec<BlockId> = Vec::with_capacity(capacity);
        let mut refcount: Vec<u32> = Vec::with_capacity(capacity);
        let mut left: usize = capacity;
        while left > 0
            invariant
                left <= capacity <= 0x1_0000_0000,
                free@.len() == capacity - left,
                refcount@.len() == capacity - left,
                forall|i: int|
                    0 <= i < free@.len() ==> free@[i] == BlockId((capacity - 1 - i) as u32),
                forall|i: int| 0 <= i < refcount@.len() ==> refcount@[i] == 0,
            decreases left,
        {
            left = left - 1;
            free.push(BlockId(left as u32));
            refcount.push(0);
        }
        assert(free@ =~= Seq::new(capacity as nat, |i: int| BlockId((capacity - 1 - i) as u32)));
        assert(refcount@ =~= Seq::new(capacity as nat, |i: int| 0u32));
        proof {
            lemma_count_live_zeros(refcount@);
        }
        BlockAllocator { free, refcount, live: 0 }
    }

    pub fn capacity(&self) -> (r: usize)
        ensures
            r == self.refs().len(),
    {
        self.refcount.len()
    }

    /// Blocks on the free list. Does not count reclaimable cached blocks.
    pub fn num_free(&self) -> (r: usize)
        ensures
            r == self.free_list().len(),
    {
        self.free.len()
    }

    /// Blocks referenced by at least one holder.
    pub fn num_live(&self) -> (r: usize)
        ensures
            r == self.live_count(),
    {
        self.live
    }

    /// Blocks holding live or cached KV entries.
    pub fn num_occupied(&self) -> (r: usize)
        requires
            self.wf(),
        ensures
            r == self.refs().len() - self.free_list().len(),
    {
        proof {
            lemma_unreferenced_and_live(self.refs(), self.free_list());
        }
        self.refcount.len() - self.free.len()
    }

    pub fn refcount(&self, block: BlockId) -> (r: u32)
        requires
            block.0 < self.refs().len(),
        ensures
            r == self.refs()[block.0 as int],
    {
        self.refcount[block.index()]
    }

    pub fn is_live(&self, block: BlockId) -> (r: bool)
        requires
            block.0 < self.refs().len(),
        ensures
            r == (self.refs()[block.0 as int] > 0),
    {
        self.refcount(block) > 0
    }

    /// Take an empty block, with a reference count of one.
    pub fn take_free(&mut self) -> (r: Option<BlockId>)
        requires
            old(self).wf(),
        ensures
            final(self).wf(),
            old(self).free_list().len() == 0 ==> {
                &&& r is None
                &&& final(self).free_list() == old(self).free_list()
                &&& final(self).refs() == old(self).refs()
                &&& final(self).live_count() == old(self).live_count()
            },
            old(self).free_list().len() > 0 ==> {
                &&& r == Some(old(self).free_list().last())
                &&& final(self).free_list() == old(self).free_list().drop_last()
                &&& final(self).refs() == old(self).refs().update(
                    old(self).free_list().last().0 as int,
                    1u32,
                )
                &&& final(self).live_count() == old(self).live_count() + 1
            },
    {
        proof {
            lemma_unreferenced_and_live(self.refs(), self.free_list());
            assert(self.refcount.len() == self.refs().len());
        }
        match self.free.pop() {
            None => None,
            Some(block) => {
                let ghost before = old(self).free_list();
                proof {
                    assert(before[before.len() - 1] == block);
                    lemma_count_live_update(self.refs(), block.0 as int, 1);
                    assert forall|i: int| 0 <= i < before.len() - 1 implies before[i] != block by {
                        assert(before[before.len() - 1] == block);
                    }
                }
                self.refcount.set(block.index(), 1);
                self.live = self.live + 1;
                assert(unreferenced(self.refs(), self.free_list()));
                Some(block)
            },
        }
    }

    /// Take the first reference to a block that is currently unreferenced —
    /// a cache hit reviving a cached block, or a block just evicted.
    ///
    /// The free list is left as it is: a block that stands on it would be handed
    /// out a second time.
    pub fn adopt(&mut self, block: BlockId)
        requires
            old(self).wf(),
            block.0 < old(self).refs().len(),
            old(self).refs()[block.0 as int] == 0,
        ensures
            !old(self).free_list().contains(block) ==> final(self).wf(),
            final(self).free_list() == old(self).free_list(),
            final(self).refs() == old(self).refs().update(block.0 as int, 1u32),
            final(self).live_count() == old(self).live_count() + 1,
    {
        proof {
            lemma_count_live_update(self.refs(), block.0 as int, 1);
            lemma_count_live_bound(self.refs().update(block.0 as int, 1));
            assert(self.refcount.len() == self.refs().len());
        }
        self.refcount.set(block.index(), 1);
        self.live = self.live + 1;
        proof {
            if !old(self).free_list().contains(block) {
                assert forall|i: int| 0 <= i < self.free_list().len() implies (
                #[trigger] self.free_list()[i]).0 < self.refs().len()
                    && self.refs()[self.free_list()[i].0 as int] == 0 by {
                    assert(old(self).free_list().contains(self.free_list()[i]));
                }
                assert(unreferenced(self.refs(), self.free_list()));
            }
        }
    }

    /// Take an additional reference to a live block.
    pub fn incref(&mut self, block: BlockId) -> (r: u32)
        requires
            old(self).wf(),
            block.0 < old(self).refs().len(),
            0 < old(self).refs()[block.0 as int] < u32::MAX,
        ensures
            final(self).wf(),
            final(self).free_list() == old(self).free_list(),
            final(self).live_count() == old(self).live_count(),
            r == old(self).refs()[block.0 as int] + 1,
            final(self).refs() == old(self).refs().update(block.0 as int, r),
    {
        let count: u32 = self.refcount[block.index()] + 1;
        proof {
            lemma_count_live_update(self.refs(), block.0 as int, count);
        }
        self.refcount.set(block.index(), count);
        assert(unreferenced(self.refs(), self.free_list()));
        count
    }

    /// Drop one reference. Reaching zero does **not** return the block to the
    /// free list — the caller decides whether it becomes cached or free.
    pub fn decref(&mut self, block: BlockId) -> (r: u32)
        requires
            old(self).wf(),
            block.0 < old(self).refs().len(),
            old(self).refs()[block.0 as int] > 0,
        ensures
            final(self).wf(),
            final(self).free_list() == old(self).free_list(),
            r == old(self).refs()[block.0 as int] - 1,
            final(self).refs() == old(self).refs().update(block.0 as int, r),
            final(self).live_count() == old(self).live_count() - if r == 0 {
                1int
            } else {
                0int
            },
    {
        let count: u32 = self.refcount[block.index()] - 1;
        proof {
            lemma_count_live_update(self.refs(), block.0 as int, count);
        }
        self.refcount.set(block.index(), count);
        if count == 0 {
            self.live = self.live - 1;
        }
        assert(unreferenced(self.refs(), self.free_list()));
        count
    }

    /// Return an unreferenced block to the free list.
    pub fn push_free(&mut self, block: BlockId)
        requires
            old(self).wf(),
            block.0 < old(self).refs().len(),
            old(self).refs()[block.0 as int] == 0,
            !old(self).free_list().contains(block),
        ensures
            final(self).wf(),
            final(self).free_list() == old(self).free_list().push(block),
            final(self).refs() == old(self).refs(),
            final(self).live_count() == old(self).live_count(),
    {
        self.free.push(block);
        assert(unreferenced(self.refs(), self.free_list())) by {
            let now = self.free_list();
            let before = old(self).free_list();
            assert forall|i: int, j: int| 0 <= i < now.len() && 0 <= j < now.len() && i
                != j implies now[i] != now[j] by {
                if i < before.len() {
                    assert(before.contains(before[i]));
                }
                if j < before.len() {
                    assert(before.contains(before[j]));
                }
            }
        }
    }
}

} // verus!
