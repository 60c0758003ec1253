//! What the cache promises its callers, in numbers: how far a prompt is matched,
//! which blocks are handed out, and where a block goes when it is given back.
use vstd::arithmetic::div_mod::{lemma_fundamental_div_mod, lemma_mod_bound};
use vstd::prelude::*;

use super::allocator::{lemma_count_live_update, occurrences, refs_of, BlockId};
use super::cache::{
    law_partition_covers_the_pool, lemma_acquired, lemma_allocated, lemma_published,
    lemma_released, pairs, CacheView, KvCacheConfig,
};
use super::hash::{
    block_hash_spec, chain_spec, fnv1a_spec, fnv_round, law_address_depends_on_the_prefix_alone,
    le_bytes32, le_bytes64, prefix_address, tenant_root_spec, BlockHash,
};
use super::prefix::PrefixView;
use crate::lists::{lemma_without, without};
use crate::TokenId;

verus! {

proof fn lemma_whole_parts(k: int, size: int, len: int)
    requires
        size > 0,
        k >= 0,
        len > 0,
    ensures
        k * size < len <==> k <= (len - 1) / size,
        k * size <= len <==> k <= len / size,
{
    lemma_fundamental_div_mod(len - 1, size);
    lemma_fundamental_div_mod(len, size);
    lemma_mod_bound(len - 1, size);
    lemma_mod_bound(len, size);
    let q = (len - 1) / size;
    let p = len / size;
    assert(k * size < len <==> k <= q) by (nonlinear_arith)
        requires
            len - 1 == size * q + (len - 1) % size,
            0 <= (len - 1) % size < size,
            size > 0,
    ;
    assert(k * size <= len <==> k <= p) by (nonlinear_arith)
        requires
            len == size * p + len % size,
            0 <= len % size < size,
            size > 0,
    ;
}

/// The blocks that `n` tokens take are as many as hold them, and one fewer would
/// not.
pub proof fn law_blocks_hold_their_tokens(v: CacheView, n: nat)
    requires
        v.block_size > 0,
    ensures
        n <= v.blocks_for(n) * v.block_size,
        v.blocks_for(n) * v.block_size < n + v.block_size,
{
    let size = v.block_size as int;
    lemma_fundamental_div_mod(n as int, size);
    lemma_mod_bound(n as int, size);
    let q = n as int / size;
    assert(q * size == size * q && (q + 1) * size == size * q + size) by (nonlinear_arith);
}

/// How much of a prompt may be matched depends on its length alone: all of its full
/// blocks that end before its last token, each under the address of the prefix
/// that ends with it.
pub proof fn law_all_but_the_last_token_can_be_matched(
    v: CacheView,
    tenant: Seq<char>,
    tokens: Seq<TokenId>,
)
    requires
        v.wf(),
    ensures
        tokens.len() == 0 ==> v.matchable(tenant, tokens).len() == 0,
        tokens.len() > 0 ==> v.matchable(tenant, tokens).len() == (tokens.len() - 1) as int
            / v.block_size as int,
        forall|i: int|
            0 <= i < v.matchable(tenant, tokens).len() ==> #[trigger] v.matchable(tenant, tokens)[i]
                == prefix_address(tenant, tokens, v.block_size, (i + 1) as nat),
{
    let size = v.block_size as int;
    let len = tokens.len() as int;
    if len > 0 {
        lemma_fundamental_div_mod(len, size);
        lemma_fundamental_div_mod(len - 1, size);
        lemma_mod_bound(len, size);
        lemma_mod_bound(len - 1, size);
        lemma_whole_parts(len / size, size, len);
        lemma_whole_parts((len - 1) / size, size, len);
        let (p, q) = (len / size, (len - 1) / size);
        assert(p * size == size * p) by (nonlinear_arith);
        assert(p - 1 <= q <= p) by (nonlinear_arith)
            requires
                len == size * p + len % size,
                len - 1 == size * q + (len - 1) % size,
                0 <= len % size < size,
                0 <= (len - 1) % size < size,
                size > 0,
        ;
        assert(len % size == 0 ==> q != p) by (nonlinear_arith)
            requires
                len == size * p + len % size,
                len - 1 == size * q + (len - 1) % size,
                0 <= (len - 1) % size < size,
        ;
        assert(len % size > 0 ==> q != p - 1) by (nonlinear_arith)
            requires
                len == size * p + len % size,
                len - 1 == size * q + (len - 1) % size,
                0 <= (len - 1) % size < size,
                0 <= len % size < size,
        ;
        assert(len % size == 0 ==> p > 0) by (nonlinear_arith)
            requires
                len == size * p + len % size,
                len > 0,
                size > 0,
        ;
    } else {
        assert(0int / size == 0) by (nonlinear_arith)
            requires
                size > 0,
        ;
    }
}

/// A prompt whose first `k` full blocks are cached is served all `k` of them,
/// provided that a token is left to compute: none is skipped, however many there
/// are.
pub proof fn law_every_cached_block_is_matched(
    v: CacheView,
    tenant: Seq<char>,
    tokens: Seq<TokenId>,
    k: nat,
)
    requires
        v.wf(),
        k * v.block_size < tokens.len(),
        forall|j: nat|
            1 <= j <= k ==> v.prefix.by_hash.contains_key(
                (#[trigger] prefix_address(tenant, tokens, v.block_size, j)).0,
            ),
        forall|b: BlockId| #[trigger] refs_of(v.refs, b) + tokens.len() < u32::MAX,
    ensures
        ({
            let found = v.acquired(v.matchable(tenant, tokens)).1;
            &&& found.len() >= k
            &&& forall|i: int|
                0 <= i < k ==> #[trigger] found[i] == v.prefix.by_hash[prefix_address(
                    tenant,
                    tokens,
                    v.block_size,
                    (i + 1) as nat,
                ).0]
        }),
{
    let usable = v.matchable(tenant, tokens);
    law_all_but_the_last_token_can_be_matched(v, tenant, tokens);
    lemma_whole_parts(k as int, v.block_size as int, tokens.len() as int);
    lemma_acquired(v, usable);
    let (after, found) = v.acquired(usable);
    let m = found.len() as int;
    if m < k {
        assert(usable[m] == prefix_address(tenant, tokens, v.block_size, (m + 1) as nat));
        let b = v.prefix.by_hash[usable[m].0];
        assert(v.prefix.by_hash.contains_key(usable[m].0));
        lemma_listed_at_most(found, b);
        assert(refs_of(after.refs, b) == refs_of(v.refs, b) + occurrences(found, b));
        assert(k <= tokens.len()) by (nonlinear_arith)
            requires
                k * v.block_size < tokens.len(),
                v.block_size > 0,
        ;
        assert(refs_of(v.refs, b) + tokens.len() < u32::MAX);
        assert(v.indexed(b));
    }
    assert forall|i: int| 0 <= i < k implies #[trigger] found[i]
        == v.prefix.by_hash[prefix_address(tenant, tokens, v.block_size, (i + 1) as nat).0] by {
        assert(usable[i] == prefix_address(tenant, tokens, v.block_size, (i + 1) as nat));
    }
}

proof fn lemma_listed_at_most(blocks: Seq<BlockId>, b: BlockId)
    ensures
        occurrences(blocks, b) <= blocks.len(),
    decreases blocks.len(),
{
    if blocks.len() > 0 {
        lemma_listed_at_most(blocks.drop_last(), b);
    }
}

/// A match stops only where the next address is not cached, where a token has to
/// be left, or where a count cannot grow.
pub proof fn law_a_match_goes_as_far_as_it_can(
    v: CacheView,
    tenant: Seq<char>,
    tokens: Seq<TokenId>,
)
    requires
        v.wf(),
        tokens.len() > 0,
        forall|b: BlockId| #[trigger] refs_of(v.refs, b) + tokens.len() < u32::MAX,
    ensures
        ({
            let m = v.acquired(v.matchable(tenant, tokens)).1.len();
            &&& m * v.block_size < tokens.len()
            &&& (m + 1) * v.block_size >= tokens.len() || !v.prefix.by_hash.contains_key(
                prefix_address(tenant, tokens, v.block_size, m + 1).0,
            )
        }),
{
    let usable = v.matchable(tenant, tokens);
    lemma_acquired(v, usable);
    let found = v.acquired(usable).1;
    let m = found.len();
    law_all_but_the_last_token_can_be_matched(v, tenant, tokens);
    lemma_whole_parts(m as int, v.block_size as int, tokens.len() as int);
    lemma_whole_parts(m as int + 1, v.block_size as int, tokens.len() as int);
    if (m + 1) * v.block_size < tokens.len() && v.prefix.by_hash.contains_key(
        prefix_address(tenant, tokens, v.block_size, m + 1).0,
    ) {
        assert forall|j: nat| 1 <= j <= m + 1 implies v.prefix.by_hash.contains_key(
            (#[trigger] prefix_address(tenant, tokens, v.block_size, j)).0,
        ) by {
            if j <= m {
                assert(usable[j - 1] == prefix_address(tenant, tokens, v.block_size, j));
                assert(found[j - 1] == v.prefix.by_hash[usable[j - 1].0]);
            }
        }
        law_every_cached_block_is_matched(v, tenant, tokens, m + 1);
    }
}

/// Every full block of a prompt that is published can be found: the address of
/// the prefix that ends with it is cached from then on, under that block unless
/// another had it already. What had an address keeps it, and nothing gains one
/// but those prefixes.
pub proof fn law_every_full_block_is_published(
    v: CacheView,
    tenant: Seq<char>,
    tokens: Seq<TokenId>,
    blocks: Seq<BlockId>,
    k: nat,
    hash: u64,
)
    requires
        v.wf(),
        v.covers(chain_spec(tenant, tokens, v.block_size), blocks),
        1 <= k <= blocks.len(),
        k * v.block_size <= tokens.len(),
    ensures
        ({
            let hashes = chain_spec(tenant, tokens, v.block_size);
            let w = v.published(hashes, blocks, pairs(hashes.len(), blocks.len()));
            let address = prefix_address(tenant, tokens, v.block_size, k).0;
            &&& w.prefix.by_hash.contains_key(address)
            &&& v.prefix.by_hash.contains_key(hash) ==> w.prefix.by_hash.contains_key(hash)
                && w.prefix.by_hash[hash] == v.prefix.by_hash[hash]
            &&& w.prefix.by_hash.contains_key(hash) && !v.prefix.by_hash.contains_key(hash) ==> (
            exists|j: nat|
                1 <= j <= blocks.len() && j * v.block_size <= tokens.len()
                    && #[trigger] prefix_address(tenant, tokens, v.block_size, j).0 == hash
                    && w.prefix.by_hash[hash] == blocks[j - 1])
            &&& w.refs == v.refs
            &&& w.free == v.free
            &&& w.prefix.stale == v.prefix.stale
        }),
{
    let hashes = chain_spec(tenant, tokens, v.block_size);
    let n = pairs(hashes.len(), blocks.len());
    let w = v.published(hashes, blocks, n);
    lemma_published(v, hashes, blocks, n);
    assert(tokens.len() > 0) by (nonlinear_arith)
        requires
            k >= 1,
            v.block_size > 0,
            k * v.block_size <= tokens.len(),
    ;
    lemma_whole_parts(k as int, v.block_size as int, tokens.len() as int);
    assert(hashes[k - 1] == prefix_address(tenant, tokens, v.block_size, k));
    if w.prefix.by_hash.contains_key(hash) && !v.prefix.by_hash.contains_key(hash) {
        let b = w.prefix.by_hash[hash];
        assert(w.prefix.by_block.contains_key(b.0));
        assert(w.prefix.by_block[b.0] == BlockHash(hash));
        if v.prefix.by_block.contains_key(b.0) {
            assert(v.prefix.by_hash.contains_key(v.prefix.by_block[b.0].0));
            assert(false);
        }
        let i = choose|i: int|
            0 <= i < n && #[trigger] blocks[i] == BlockId(b.0) && w.prefix.by_block[b.0]
                == hashes[i];
        let j = (i + 1) as nat;
        lemma_whole_parts(j as int, v.block_size as int, tokens.len() as int);
        assert(prefix_address(tenant, tokens, v.block_size, j).0 == hash);
    }
}

/// Requests that share a prefix share its blocks: once the blocks of one prompt
/// were published and given back, another prompt of the same tenant that begins
/// with the same `shared` full blocks and goes on after them is served at least
/// those.
pub proof fn law_a_shared_prefix_is_served_whole(
    v: CacheView,
    tenant: Seq<char>,
    first: Seq<TokenId>,
    blocks: Seq<BlockId>,
    second: Seq<TokenId>,
    shared: nat,
)
    requires
        v.wf(),
        v.covers(chain_spec(tenant, first, v.block_size), blocks),
        v.holds(blocks),
        shared <= blocks.len(),
        shared * v.block_size <= first.len(),
        shared * v.block_size < second.len(),
        first.take((shared * v.block_size) as int) == second.take((shared * v.block_size) as int),
        forall|b: BlockId| #[trigger] refs_of(v.refs, b) + second.len() < u32::MAX,
    ensures
        ({
            let hashes = chain_spec(tenant, first, v.block_size);
            let kept = v.published(hashes, blocks, pairs(hashes.len(), blocks.len())).released(
                blocks,
                blocks.len(),
            );
            kept.acquired(kept.matchable(tenant, second)).1.len() >= shared
        }),
{
    let hashes = chain_spec(tenant, first, v.block_size);
    let n = pairs(hashes.len(), blocks.len());
    let mid = v.published(hashes, blocks, n);
    lemma_published(v, hashes, blocks, n);
    assert(mid.holds(blocks));
    lemma_released(mid, blocks, blocks.len());
    let kept = mid.released(blocks, blocks.len());
    let size = v.block_size;
    assert forall|j: nat| 1 <= j <= shared implies kept.prefix.by_hash.contains_key(
        (#[trigger] prefix_address(tenant, second, size, j)).0,
    ) by {
        let end = (j * size) as int;
        assert(0 <= end <= shared * size) by (nonlinear_arith)
            requires
                end == j * size,
                1 <= j <= shared,
        ;
        assert(first.take(end) =~= first.take((shared * size) as int).take(end));
        assert(second.take(end) =~= second.take((shared * size) as int).take(end));
        law_address_depends_on_the_prefix_alone(tenant, first, second, size, j);
        law_every_full_block_is_published(v, tenant, first, blocks, j, 0);
    }
    assert forall|b: BlockId| #[trigger] refs_of(kept.refs, b) + second.len() < u32::MAX by {
        assert(refs_of(v.refs, b) + second.len() < u32::MAX);
    }
    law_every_cached_block_is_matched(kept, tenant, second, shared);
}

proof fn lemma_handing_out(v: CacheView, n: nat)
    requires
        v.wf(),
        n <= v.allocatable(),
    ensures
        ({
            let w = v.allocated(n);
            let free = v.free.len();
            &&& v.handed_out(n).len() == n
            &&& w.live == v.live + n
            &&& forall|i: int|
                0 <= i < n && i < free ==> #[trigger] v.handed_out(n)[i] == v.free[free - 1 - i]
            &&& forall|i: int|
                free <= i < n ==> #[trigger] v.handed_out(n)[i] == v.prefix.stale[i - free]
            &&& n <= free ==> w.prefix == v.prefix && w.free == v.free.take(free - n)
            &&& n > free ==> w.free.len() == 0 && w.prefix.stale == v.prefix.stale.skip(n - free)
        }),
    decreases n,
{
    if n == 0 {
        assert(v.free.take(v.free.len() as int) =~= v.free);
    } else {
        let m = (n - 1) as nat;
        let free = v.free.len();
        lemma_handing_out(v, m);
        let u = v.allocated(m);
        let w = v.allocated(n);
        let out = v.handed_out(m);
        assert(v.handed_out(n) == out.push(u.next_block()));
        assert forall|i: int| 0 <= i < n && i < free implies #[trigger] v.handed_out(n)[i]
            == v.free[free - 1 - i] by {
            if i < m {
                assert(v.handed_out(n)[i] == out[i]);
            }
        }
        assert forall|i: int| free <= i < n implies #[trigger] v.handed_out(n)[i]
            == v.prefix.stale[i - free] by {
            if i < m {
                assert(v.handed_out(n)[i] == out[i]);
            }
        }
        if n <= free {
            assert(w.free =~= v.free.take(free - n));
        } else {
            assert(u.free.len() == 0);
            assert(w.prefix.stale =~= v.prefix.stale.skip(n - free));
        }
    }
}

/// Cached contents are given up last and stalest first: free blocks are handed out
/// while there are any, without touching the cache, and after them the blocks
/// that have been unused the longest. What is given up loses its address, and
/// nothing else does.
pub proof fn law_the_stalest_is_given_up_first(v: CacheView, n: nat)
    requires
        v.wf(),
        n <= v.allocatable(),
    ensures
        ({
            let w = v.allocated(n);
            let free = v.free.len();
            &&& v.handed_out(n).len() == n
            &&& w.live == v.live + n
            &&& n <= free ==> w.prefix == v.prefix && w.free.len() == free - n
            &&& n > free ==> w.free.len() == 0 && w.prefix.stale == v.prefix.stale.skip(n - free)
            &&& forall|i: int|
                0 <= i < n && i < free ==> v.free.contains(#[trigger] v.handed_out(n)[i])
            &&& forall|i: int|
                free <= i < n ==> #[trigger] v.handed_out(n)[i] == v.prefix.stale[i - free]
            &&& forall|b: BlockId|
                v.indexed(b) && !v.handed_out(n).contains(b) ==> #[trigger] w.indexed(b)
                    && w.prefix.by_block[b.0] == v.prefix.by_block[b.0]
        }),
{
    lemma_handing_out(v, n);
    lemma_allocated(v, n);
}

/// A block that is given back stays with whoever else holds it. With the last
/// holder gone it is kept as the freshest of the cached blocks if its contents
/// have an address, and is free otherwise. No address is lost by it.
pub proof fn law_a_block_given_back_is_kept_if_addressed(v: CacheView, b: BlockId)
    requires
        v.wf(),
        v.is_live(b),
    ensures
        ({
            let w = v.released(seq![b], 1);
            &&& refs_of(w.refs, b) == refs_of(v.refs, b) - 1
            &&& w.prefix.by_hash == v.prefix.by_hash
            &&& w.prefix.by_block == v.prefix.by_block
            &&& refs_of(v.refs, b) > 1 ==> w.free == v.free && w.prefix.stale == v.prefix.stale
                && w.live == v.live
            &&& refs_of(v.refs, b) == 1 && v.indexed(b) ==> w.free == v.free && w.prefix.stale
                == v.prefix.stale.push(b) && w.live == v.live - 1
            &&& refs_of(v.refs, b) == 1 && !v.indexed(b) ==> w.free == v.free.push(b)
                && w.prefix.stale == v.prefix.stale && w.live == v.live - 1
        }),
{
    let w = v.released(seq![b], 1);
    assert(v.released(seq![b], 0) == v);
    assert(w == v.dropped(seq![b][0]));
    let stale = v.prefix.stale;
    if stale.contains(b) {
        let k = stale.index_of(b);
        assert(v.refs[stale[k].0 as int] == 0);
    }
    lemma_without(stale, b);
    assert(without(stale, b) =~= stale);
    lemma_count_live_update(v.refs, b.0 as int, (v.refs[b.0 as int] - 1) as u32);
}

/// A lookup is on record: each block served is a hit, and a prompt that is not
/// served whole is one miss.
pub proof fn law_lookups_are_counted(v: CacheView, hashes: Seq<BlockHash>)
    requires
        v.wf(),
        v.prefix.hits + hashes.len() <= u64::MAX,
        v.prefix.misses < u64::MAX,
        forall|b: BlockId| #[trigger] refs_of(v.refs, b) + hashes.len() < u32::MAX,
    ensures
        ({
            let (w, found) = v.acquired(hashes);
            &&& w.prefix.hits == v.prefix.hits + found.len()
            &&& w.prefix.misses == v.prefix.misses + if found.len() < hashes.len() {
                1int
            } else {
                0int
            }
        }),
    decreases hashes.len(),
{
    if hashes.len() > 0 && v.prefix.by_hash.contains_key(hashes[0].0) {
        let b = v.prefix.by_hash[hashes[0].0];
        assert(v.indexed(b));
        assert(refs_of(v.refs, b) + hashes.len() < u32::MAX);
        let first = hashes.take(1);
        assert(first[0] == hashes[0]);
        let looked = CacheView { prefix: v.prefix.looked_up(hashes[0]), ..v };
        let mid = looked.referenced(b);
        assert(first.drop_first() =~= Seq::<BlockHash>::empty());
        assert(mid.acquired(first.drop_first()) == (mid, Seq::<BlockId>::empty()));
        lemma_acquired(v, first);
        assert(v.acquired(first).0 == mid);
        let rest = hashes.drop_first();
        assert forall|c: BlockId| #[trigger] refs_of(mid.refs, c) + rest.len() < u32::MAX by {
            assert(refs_of(v.refs, c) + hashes.len() < u32::MAX);
            assert(refs_of(mid.refs, c) == refs_of(v.refs, c) + occurrences(
                v.acquired(first).1,
                c,
            ));
            lemma_listed_at_most(v.acquired(first).1, c);
        }
        law_lookups_are_counted(mid, rest);
        let (w, more) = mid.acquired(rest);
        assert(v.acquired(hashes).0 == w);
        assert(v.acquired(hashes).1 =~= seq![b] + more);
    }
}

/// A new pool is all free: each of its blocks is there once, none is held and
/// nothing is cached.
pub proof fn law_a_new_pool_is_free(config: KvCacheConfig, b: BlockId)
    requires
        config.wf(),
    ensures
        ({
            let v = CacheView::fresh(config);
            &&& v.block_size == config.block_size
            &&& v.capacity() == config.num_blocks
            &&& v.allocatable() == config.num_blocks
            &&& v.live == 0
            &&& v.is_free(b) <==> b.0 < config.num_blocks
            &&& v.free.no_duplicates()
            &&& !v.is_live(b)
            &&& !v.indexed(b)
        }),
{
    let v = CacheView::fresh(config);
    if b.0 < config.num_blocks {
        assert(v.free[config.num_blocks - 1 - b.0] == b);
    }
}

/// The first block to claim an address keeps it, and claiming one changes no other.
pub proof fn law_the_first_writer_wins(v: PrefixView, hash: BlockHash, block: BlockId, other: u64)
    ensures
        ({
            let w = v.inserted(hash, block);
            &&& w.by_hash.contains_key(hash.0)
            &&& w.by_hash[hash.0] == if v.by_hash.contains_key(hash.0) {
                v.by_hash[hash.0]
            } else {
                block
            }
            &&& other != hash.0 ==> (w.by_hash.contains_key(other) <==> v.by_hash.contains_key(
                other,
            )) && w.by_hash[other] == v.by_hash[other]
            &&& w.stale == v.stale
        }),
{
}

/// Digests are those of FNV-1a on 64 bits: each byte is folded in by an exclusive or
/// with the low byte, and then the digest is multiplied by `2^40 + 2^8 + 0xb3`,
/// modulo `2^64`.
pub proof fn law_digests_are_fnv_1a(acc: u64, bytes: Seq<u8>, byte: u8)
    ensures
        fnv1a_spec(acc, bytes.push(byte)) == ((fnv1a_spec(acc, bytes) ^ (byte as u64)) as int * (
        0x100_0000_0000 + 0x100 + 0xb3)) % 0x1_0000_0000_0000_0000,
        fnv1a_spec(acc, Seq::empty()) == acc,
        super::hash::FNV_OFFSET == 14695981039346656037u64,
{
    assert(bytes.push(byte).drop_last() =~= bytes);
    assert(fnv1a_spec(acc, bytes.push(byte)) == fnv_round(fnv1a_spec(acc, bytes), byte));
}

/// Numbers go into a digest byte by byte, the least significant first: four bytes for
/// a token and eight for an address.
pub proof fn law_numbers_are_folded_low_byte_first(x: u32, y: u64)
    ensures
        le_bytes32(x).len() == 4,
        le_bytes32(x)[0] + le_bytes32(x)[1] * 0x100 + le_bytes32(x)[2] * 0x1_0000 + le_bytes32(x)[3]
            * 0x100_0000 == x,
        le_bytes64(y).len() == 8,
        le_bytes64(y)[0] + le_bytes64(y)[1] * 0x100 + le_bytes64(y)[2] * 0x1_0000 + le_bytes64(y)[3]
            * 0x100_0000 + le_bytes64(y)[4] * 0x1_0000_0000 + le_bytes64(y)[5] * 0x100_0000_0000
            + le_bytes64(y)[6] * 0x1_0000_0000_0000 + le_bytes64(y)[7] * 0x100_0000_0000_0000 == y,
{
    assert((x as u8) as u64 + ((x >> 8) as u8) as u64 * 0x100 + ((x >> 16) as u8) as u64 * 0x1_0000
        + ((x >> 24) as u8) as u64 * 0x100_0000 == x as u64) by (bit_vector);
    assert((y as u8) as u128 + ((y >> 8) as u8) as u128 * 0x100 + ((y >> 16) as u8) as u128
        * 0x1_0000 + ((y >> 24) as u8) as u128 * 0x100_0000 + ((y >> 32) as u8) as u128
        * 0x1_0000_0000 + ((y >> 40) as u8) as u128 * 0x100_0000_0000 + ((y >> 48) as u8) as u128
        * 0x1_0000_0000_0000 + ((y >> 56) as u8) as u128 * 0x100_0000_0000_0000 == y as u128)
        by (bit_vector);
}

/// The address of a block folds the bytes of its parent's address, and then those of
/// each of its tokens in order; the address of a tenant folds the bytes of its
/// name. Both start from the same basis.
pub proof fn law_addresses_fold_parent_and_tokens(
    tenant: Seq<char>,
    parent: BlockHash,
    tokens: Seq<TokenId>,
    token: TokenId,
)
    ensures
        tenant_root_spec(tenant).0 == fnv1a_spec(
            14695981039346656037u64,
            vstd::utf8::encode_utf8(tenant),
        ),
        block_hash_spec(parent, Seq::empty()).0 == fnv1a_spec(
            14695981039346656037u64,
            le_bytes64(parent.0),
        ),
        block_hash_spec(parent, tokens.push(token)).0 == fnv1a_spec(
            block_hash_spec(parent, tokens).0,
            le_bytes32(token),
        ),
{
    assert(tokens.push(token).drop_last() =~= tokens);
}

/// The address of one more block is that of the block after the address before it.
pub proof fn law_addresses_are_chained(
    tenant: Seq<char>,
    tokens: Seq<TokenId>,
    size: nat,
    blocks: nat,
)
    requires
        (blocks + 1) * size <= tokens.len(),
    ensures
        prefix_address(tenant, tokens, size, 0) == tenant_root_spec(tenant),
        prefix_address(tenant, tokens, size, blocks + 1) == block_hash_spec(
            prefix_address(tenant, tokens, size, blocks),
            tokens.subrange((blocks * size) as int, ((blocks + 1) * size) as int),
        ),
{
}

/// Every block that nobody holds can be handed out, whether it is free or cached:
/// their number is what the pool has less what is held, and a block is held exactly
/// where it is referenced.
pub proof fn law_every_unheld_block_can_be_handed_out(v: CacheView, b: BlockId)
    requires
        v.wf(),
        b.0 < v.capacity(),
    ensures
        v.allocatable() == v.refs.len() - v.live,
        v.allocatable() == v.free.len() + v.prefix.stale.len(),
        v.refs[b.0 as int] == 0 <==> v.free.contains(b) || v.prefix.stale.contains(b),
        v.is_live(b) <==> v.refs[b.0 as int] > 0,
{
    law_partition_covers_the_pool(v);
    if v.free.contains(b) {
        let k = v.free.index_of(b);
        assert(v.refs[v.free[k].0 as int] == 0);
    }
    if v.prefix.stale.contains(b) {
        let k = v.prefix.stale.index_of(b);
        assert(v.refs[v.prefix.stale[k].0 as int] == 0);
    }
    if v.refs[b.0 as int] == 0 {
        assert(v.is_free(b) || v.is_cached(b));
    }
}

} // verus!
