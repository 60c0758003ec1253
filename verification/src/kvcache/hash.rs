//! Content addressing for KV blocks.
//!
//! A block hash covers the tenant, every token in the block, and the hash of
//! the preceding block. Chaining is what makes a hash identify a whole prefix
//! path rather than 16 tokens in isolation: two sequences share a cached block
//! only if their entire history up to that point agrees.
//!
//! Seeding the chain with the tenant is deliberate. Cross-tenant sharing is not
//! prevented by a check that someone can forget to write — identical token
//! content under two tenants simply produces two different hashes, so the
//! lookup misses.
use vstd::arithmetic::div_mod::{
    lemma_div_is_ordered, lemma_fundamental_div_mod, lemma_mod_multiples_vanish,
    lemma_mul_mod_noop_left, lemma_small_mod,
};
use vstd::prelude::*;
use vstd::utf8::encode_utf8;

use crate::TokenId;

verus! {

/// The FNV-1a offset basis for 64-bit digests.
pub const FNV_OFFSET: u64 = 0xcbf2_9ce4_8422_2325;

/// The FNV prime for 64-bit digests.
pub const FNV_PRIME: u64 = 0x0000_0100_0000_01b3;

/// Content address of one full KV block, chained to its prefix.
#[derive(Debug, Clone, Copy, PartialEq, Eq, PartialOrd, Ord, Hash, Structural)]
pub struct BlockHash(pub u64);

/// One FNV-1a round: fold a byte into the digest.
pub open spec fn fnv_round(acc: u64, byte: u8) -> u64 {
    (acc ^ (byte as u64)).wrapping_mul(FNV_PRIME)
}

/// The FNV-1a digest of `bytes`, continued from `acc`.
pub open spec fn fnv1a_spec(acc: u64, bytes: Seq<u8>) -> u64
    decreases bytes.len(),
{
    if bytes.len() == 0 {
        acc
    } else {
        fnv_round(fnv1a_spec(acc, bytes.drop_last()), bytes.last())
    }
}

/// The four bytes of `x`, least significant first.
pub open spec fn le_bytes32(x: u32) -> Seq<u8> {
    seq![x as u8, (x >> 8) as u8, (x >> 16) as u8, (x >> 24) as u8]
}

/// The eight bytes of `x`, least significant first.
pub open spec fn le_bytes64(x: u64) -> Seq<u8> {
    seq![
        x as u8,
        (x >> 8) as u8,
        (x >> 16) as u8,
        (x >> 24) as u8,
        (x >> 32) as u8,
        (x >> 40) as u8,
        (x >> 48) as u8,
        (x >> 56) as u8,
    ]
}

/// The digest of a token sequence, continued from `acc`.
pub open spec fn fold_tokens(acc: u64, tokens: Seq<TokenId>) -> u64
    decreases tokens.len(),
{
    if tokens.len() == 0 {
        acc
    } else {
        fnv1a_spec(fold_tokens(acc, tokens.drop_last()), le_bytes32(tokens.last()))
    }
}

/// The digest with which a block's address starts: that of its parent.
pub open spec fn parent_digest(parent: BlockHash) -> u64 {
    fnv1a_spec(FNV_OFFSET, le_bytes64(parent.0))
}

/// The address at the root of a tenant's chain.
pub open spec fn tenant_root_spec(tenant: Seq<char>) -> BlockHash {
    BlockHash(fnv1a_spec(FNV_OFFSET, encode_utf8(tenant)))
}

/// The address of one full block whose predecessor has address `parent`.
pub open spec fn block_hash_spec(parent: BlockHash, tokens: Seq<TokenId>) -> BlockHash {
    BlockHash(fold_tokens(parent_digest(parent), tokens))
}

/// The address of the prefix made of the first `blocks` blocks of `tokens`.
pub open spec fn prefix_address(
    tenant: Seq<char>,
    tokens: Seq<TokenId>,
    block_size: nat,
    blocks: nat,
) -> BlockHash
    decreases blocks,
{
    if blocks == 0 {
        tenant_root_spec(tenant)
    } else {
        block_hash_spec(
            prefix_address(tenant, tokens, block_size, (blocks - 1) as nat),
            tokens.subrange((blocks - 1) * block_size, (blocks * block_size) as int),
        )
    }
}

/// The addresses of every complete block of `tokens`, in order.
pub open spec fn chain_spec(tenant: Seq<char>, tokens: Seq<TokenId>, block_size: nat) -> Seq<
    BlockHash,
> {
    Seq::new(
        tokens.len() / block_size,
        |i: int| prefix_address(tenant, tokens, block_size, (i + 1) as nat),
    )
}

proof fn lemma_fnv_push(acc: u64, bytes: Seq<u8>, i: int)
    requires
        0 <= i < bytes.len(),
    ensures
        fnv1a_spec(acc, bytes.take(i + 1)) == fnv_round(fnv1a_spec(acc, bytes.take(i)), bytes[i]),
{
    assert(bytes.take(i + 1).drop_last() =~= bytes.take(i));
}

fn fnv1a(seed: u64, bytes: &[u8]) -> (r: u64)
    ensures
        r == fnv1a_spec(seed, bytes@),
{
    let mut acc: u64 = seed;
    for i in 0..bytes.len()
        invariant
            acc == fnv1a_spec(seed, bytes@.take(i as int)),
    {
        proof {
            lemma_fnv_push(seed, bytes@, i as int);
        }
        acc = (acc ^ (bytes[i] as u64)).wrapping_mul(FNV_PRIME);
    }
    assert(bytes@.take(bytes@.len() as int) =~= bytes@);
    acc
}

fn fnv1a_u64(seed: u64, x: u64) -> (r: u64)
    ensures
        r == fnv1a_spec(seed, le_bytes64(x)),
{
    let bytes: [u8; 8] = [
        #[verifier::truncate] (x as u8),
        #[verifier::truncate] ((x >> 8) as u8),
        #[verifier::truncate] ((x >> 16) as u8),
        #[verifier::truncate] ((x >> 24) as u8),
        #[verifier::truncate] ((x >> 32) as u8),
        #[verifier::truncate] ((x >> 40) as u8),
        #[verifier::truncate] ((x >> 48) as u8),
        #[verifier::truncate] ((x >> 56) as u8),
    ];
    assert(bytes@ =~= le_bytes64(x));
    fnv1a(seed, vstd::array::array_as_slice(&bytes))
}

fn fnv1a_u32(seed: u64, x: u32) -> (r: u64)
    ensures
        r == fnv1a_spec(seed, le_bytes32(x)),
{
    let bytes: [u8; 4] = [
        #[verifier::truncate] (x as u8),
        #[verifier::truncate] ((x >> 8) as u8),
        #[verifier::truncate] ((x >> 16) as u8),
        #[verifier::truncate] ((x >> 24) as u8),
    ];
    assert(bytes@ =~= le_bytes32(x));
    fnv1a(seed, vstd::array::array_as_slice(&bytes))
}

/// Root of a tenant's hash chain.
pub fn tenant_root(tenant: &str) -> (r: BlockHash)
    ensures
        r == tenant_root_spec(tenant@),
{
    BlockHash(fnv1a(FNV_OFFSET, tenant.as_bytes()))
}

/// Hash one full block of tokens, chained onto its parent.
pub fn block_hash(parent: BlockHash, tokens: &[TokenId]) -> (r: BlockHash)
    ensures
        r == block_hash_spec(parent, tokens@),
{
    let mut acc: u64 = fnv1a_u64(FNV_OFFSET, parent.0);
    for i in 0..tokens.len()
        invariant
            acc == fold_tokens(parent_digest(parent), tokens@.take(i as int)),
    {
        assert(tokens@.take(i + 1).drop_last() =~= tokens@.take(i as int));
        acc = fnv1a_u32(acc, tokens[i]);
    }
    assert(tokens@.take(tokens@.len() as int) =~= tokens@);
    BlockHash(acc)
}

/// Hash every complete `block_size` chunk of `tokens` for `tenant`.
///
/// A trailing partial block is not hashed: a block is only content-addressable
/// once it is full, because appending a token would change its identity.
pub fn chain(tenant: &str, tokens: &[TokenId], block_size: usize) -> (r: Vec<BlockHash>)
    requires
        block_size > 0,
    ensures
        r@ == chain_spec(tenant@, tokens@, block_size as nat),
{
    let len: usize = tokens.len();
    let count: usize = len / block_size;
    let mut parent = tenant_root(tenant);
    let mut out: Vec<BlockHash> = Vec::with_capacity(count);
    let mut from: usize = 0;
    let mut i: usize = 0;
    while i < count
        invariant
            block_size > 0,
            i <= count,
            len == tokens@.len(),
            count == len as int / block_size as int,
            from as int == i as int * block_size as int,
            out@.len() == i,
            parent == prefix_address(tenant@, tokens@, block_size as nat, i as nat),
            forall|j: int|
                0 <= j < i ==> out@[j] == #[trigger] prefix_address(
                    tenant@,
                    tokens@,
                    block_size as nat,
                    (j + 1) as nat,
                ),
        decreases count - i,
    {
        proof {
            lemma_block_in_bounds(tokens@.len() as int, block_size as int, i as int);
        }
        let chunk = vstd::slice::slice_subrange(tokens, from, from + block_size);
        parent = block_hash(parent, chunk);
        from = from + block_size;
        out.push(parent);
        i = i + 1;
    }
    assert(out@ =~= chain_spec(tenant@, tokens@, block_size as nat));
    out
}

/// The prime is odd, so multiplying by it modulo two to the sixty-fourth can be
/// undone.
pub const FNV_PRIME_INVERSE: u64 = 0xce96_5057_aff6_957b;

pub proof fn lemma_prime_undone(x: u64)
    ensures
        (x.wrapping_mul(FNV_PRIME) as int * FNV_PRIME_INVERSE as int) % 0x1_0000_0000_0000_0000
            == x,
{
    let m: int = 0x1_0000_0000_0000_0000;
    let p = FNV_PRIME as int;
    let q = FNV_PRIME_INVERSE as int;
    let k: int = 0xce9650590f;
    assert(p * q == k * m + 1) by (nonlinear_arith)
        requires
            p == 0x0000_0100_0000_01b3,
            q == 0xce96_5057_aff6_957b,
            k == 0xce9650590f,
            m == 0x1_0000_0000_0000_0000,
    ;
    lemma_mul_mod_noop_left(x as int * p, q, m);
    assert((x as int * p) * q == m * (x as int * k) + x as int) by (nonlinear_arith)
        requires
            p * q == k * m + 1,
    ;
    lemma_mod_multiples_vanish(x as int * k, x as int, m);
    lemma_small_mod(x as nat, m as nat);
}

/// Folding the same byte into two digests keeps them equal or apart.
pub proof fn law_round_is_injective(a: u64, b: u64, byte: u8)
    ensures
        fnv_round(a, byte) == fnv_round(b, byte) <==> a == b,
{
    lemma_prime_undone(a ^ (byte as u64));
    lemma_prime_undone(b ^ (byte as u64));
    let w = byte as u64;
    assert((a ^ w) == (b ^ w) ==> a == b) by (bit_vector);
}

/// Folding the same bytes into two digests keeps them equal or apart.
pub proof fn law_digest_is_injective(a: u64, b: u64, bytes: Seq<u8>)
    ensures
        fnv1a_spec(a, bytes) == fnv1a_spec(b, bytes) <==> a == b,
    decreases bytes.len(),
{
    if bytes.len() > 0 {
        law_digest_is_injective(a, b, bytes.drop_last());
        law_round_is_injective(
            fnv1a_spec(a, bytes.drop_last()),
            fnv1a_spec(b, bytes.drop_last()),
            bytes.last(),
        );
    }
}

/// One block under two histories has one address exactly where the digests of
/// the two parent addresses coincide.
pub proof fn law_same_block_same_address_iff_same_parent_digest(
    a: BlockHash,
    b: BlockHash,
    tokens: Seq<TokenId>,
)
    ensures
        block_hash_spec(a, tokens) == block_hash_spec(b, tokens) <==> parent_digest(a)
            == parent_digest(b),
    decreases tokens.len(),
{
    if tokens.len() > 0 {
        law_same_block_same_address_iff_same_parent_digest(a, b, tokens.drop_last());
        law_digest_is_injective(
            fold_tokens(parent_digest(a), tokens.drop_last()),
            fold_tokens(parent_digest(b), tokens.drop_last()),
            le_bytes32(tokens.last()),
        );
    }
}

/// Tenants do not share addresses: identical tokens under two tenants have
/// different addresses at every position, unless the 64-bit digest collides on
/// two different addresses of the two chains (or on the tenant ids themselves).
pub proof fn law_tenants_have_disjoint_addresses(
    one: Seq<char>,
    other: Seq<char>,
    tokens: Seq<TokenId>,
    block_size: nat,
    blocks: nat,
)
    requires
        tenant_root_spec(one) != tenant_root_spec(other),
        forall|k: nat|
            k < blocks && #[trigger] prefix_address(one, tokens, block_size, k)
                != prefix_address(other, tokens, block_size, k) ==> parent_digest(
                prefix_address(one, tokens, block_size, k),
            ) != parent_digest(prefix_address(other, tokens, block_size, k)),
    ensures
        prefix_address(one, tokens, block_size, blocks) != prefix_address(
            other,
            tokens,
            block_size,
            blocks,
        ),
    decreases blocks,
{
    if blocks > 0 {
        let k = (blocks - 1) as nat;
        law_tenants_have_disjoint_addresses(one, other, tokens, block_size, k);
        law_same_block_same_address_iff_same_parent_digest(
            prefix_address(one, tokens, block_size, k),
            prefix_address(other, tokens, block_size, k),
            tokens.subrange((k * block_size) as int, (blocks * block_size) as int),
        );
    }
}

/// A divergence never heals by itself: once two histories of one tenant have
/// different addresses, the same next block keeps them different, unless the
/// digests of those two addresses collide.
pub proof fn law_divergence_carries_on(
    tenant: Seq<char>,
    a: Seq<TokenId>,
    b: Seq<TokenId>,
    block_size: nat,
    blocks: nat,
)
    requires
        blocks * block_size <= a.len(),
        blocks * block_size <= b.len(),
        blocks > 0,
        a.subrange((blocks - 1) * block_size, (blocks * block_size) as int) == b.subrange(
            (blocks - 1) * block_size,
            (blocks * block_size) as int,
        ),
        parent_digest(prefix_address(tenant, a, block_size, (blocks - 1) as nat))
            != parent_digest(prefix_address(tenant, b, block_size, (blocks - 1) as nat)),
    ensures
        prefix_address(tenant, a, block_size, blocks) != prefix_address(
            tenant,
            b,
            block_size,
            blocks,
        ),
{
    law_same_block_same_address_iff_same_parent_digest(
        prefix_address(tenant, a, block_size, (blocks - 1) as nat),
        prefix_address(tenant, b, block_size, (blocks - 1) as nat),
        a.subrange((blocks - 1) * block_size, (blocks * block_size) as int),
    );
}

/// The address of a prefix depends on the tokens of that prefix alone.
pub proof fn law_address_depends_on_the_prefix_alone(
    tenant: Seq<char>,
    a: Seq<TokenId>,
    b: Seq<TokenId>,
    block_size: nat,
    blocks: nat,
)
    requires
        blocks * block_size <= a.len(),
        blocks * block_size <= b.len(),
        a.take((blocks * block_size) as int) == b.take((blocks * block_size) as int),
    ensures
        prefix_address(tenant, a, block_size, blocks) == prefix_address(
            tenant,
            b,
            block_size,
            blocks,
        ),
    decreases blocks,
{
    if blocks > 0 {
        let k = (blocks - 1) as nat;
        let n = (blocks * block_size) as int;
        assert(0 <= k * block_size <= n) by (nonlinear_arith)
            requires
                k == blocks - 1,
                n == blocks * block_size,
                blocks > 0,
                block_size >= 0,
        ;
        assert(a.take((k * block_size) as int) =~= a.take(n).take((k * block_size) as int));
        assert(b.take((k * block_size) as int) =~= b.take(n).take((k * block_size) as int));
        law_address_depends_on_the_prefix_alone(tenant, a, b, block_size, k);
        assert(a.subrange((k * block_size) as int, n) =~= a.take(n).subrange(
            (k * block_size) as int,
            n,
        ));
        assert(b.subrange((k * block_size) as int, n) =~= b.take(n).subrange(
            (k * block_size) as int,
            n,
        ));
    }
}

/// The chain of a prompt is a prefix of the chain of every continuation of it.
pub proof fn law_chain_is_prefix_stable(
    tenant: Seq<char>,
    tokens: Seq<TokenId>,
    more: Seq<TokenId>,
    block_size: nat,
)
    requires
        block_size > 0,
    ensures
        chain_spec(tenant, tokens, block_size).is_prefix_of(
            chain_spec(tenant, tokens + more, block_size),
        ),
{
    let long = tokens + more;
    let short_chain = chain_spec(tenant, tokens, block_size);
    let long_chain = chain_spec(tenant, long, block_size);
    lemma_div_is_ordered(tokens.len() as int, long.len() as int, block_size as int);
    assert forall|i: int| 0 <= i < short_chain.len() implies short_chain[i] == long_chain[i] by {
        lemma_block_in_bounds(tokens.len() as int, block_size as int, i);
        let n = (i + 1) * block_size;
        assert(tokens.take(n) =~= long.take(n));
        law_address_depends_on_the_prefix_alone(tenant, tokens, long, block_size, (i + 1) as nat);
    }
    assert(short_chain =~= long_chain.take(short_chain.len() as int));
}

/// Block `i` of the `len / size` complete ones ends within `len`.
pub proof fn lemma_block_in_bounds(len: int, size: int, i: int)
    requires
        size > 0,
        0 <= i < len / size,
    ensures
        0 <= i * size <= (i + 1) * size <= len,
        (i + 1) * size == i * size + size,
{
    lemma_fundamental_div_mod(len, size);
    assert((i + 1) * size <= (len / size) * size) by (nonlinear_arith)
        requires
            i + 1 <= len / size,
            size > 0,
    ;
    assert((len / size) * size == size * (len / size)) by (nonlinear_arith);
    assert((i + 1) * size == i * size + size) by (nonlinear_arith);
    assert(0 <= i * size) by (nonlinear_arith)
        requires
            0 <= i,
            size > 0,
    ;
}

} // verus!
