//! How far a digest is guaranteed to tell tokens apart.
//!
//! A digest of 64 bits cannot tell everything apart, but one token is not
//! enough to make it fail: two digests that start equal and take in different
//! tokens stay different, because a round moves a difference of one byte up by
//! forty bits, out of reach of the next three bytes.
use vstd::arithmetic::div_mod::{
    lemma_fundamental_div_mod, lemma_mod_multiples_basic, lemma_mod_multiples_vanish,
};
use vstd::prelude::*;

use super::hash::{
    block_hash_spec, fnv1a_spec, fnv_round, fold_tokens, law_address_depends_on_the_prefix_alone,
    law_digest_is_injective, le_bytes32, lemma_prime_undone, parent_digest, prefix_address,
    BlockHash, FNV_PRIME,
};
use crate::TokenId;

verus! {

/// Digests are counted modulo this.
pub open spec fn modulus() -> int {
    0x1_0000_0000_0000_0000
}

/// `a` and `b` are equal up to a multiple of the modulus.
pub open spec fn congruent(a: int, b: int) -> bool {
    (a - b) % modulus() == 0
}

/// What a byte is folded into.
pub open spec fn mixed(acc: u64, byte: u8) -> u64 {
    acc ^ (byte as u64)
}

/// A byte moves a digest by less than itself can hold.
proof fn lemma_mixed_is_near(acc: u64, byte: u8)
    ensures
        -255 <= mixed(acc, byte) - acc <= 255,
{
    let w = byte as u64;
    assert(w < 256 ==> (acc ^ w) <= acc + 255 && acc <= (acc ^ w) + 255) by (bit_vector);
}

/// Two bytes folded into one digest are apart by less than 256, and apart at all
/// exactly where they differ.
proof fn lemma_mixed_apart(acc: u64, a: u8, b: u8)
    ensures
        -255 <= mixed(acc, a) - mixed(acc, b) <= 255,
        mixed(acc, a) == mixed(acc, b) <==> a == b,
{
    let (x, y) = (a as u64, b as u64);
    assert(x < 256 && y < 256 ==> (acc ^ x) <= (acc ^ y) + 255 && (acc ^ y) <= (acc ^ x) + 255)
        by (bit_vector);
    assert((acc ^ x) == (acc ^ y) ==> x == y) by (bit_vector);
}

/// A round keeps what was folded apart or together.
proof fn lemma_round_keeps_apart(x: u64, a: u8, y: u64, b: u8)
    ensures
        fnv_round(x, a) == fnv_round(y, b) <==> mixed(x, a) == mixed(y, b),
{
    lemma_prime_undone(mixed(x, a));
    lemma_prime_undone(mixed(y, b));
}

/// A round multiplies a difference by the prime.
proof fn lemma_round_scales(x: u64, a: u8, y: u64, b: u8, gap: int)
    requires
        congruent(mixed(x, a) - mixed(y, b), gap),
    ensures
        congruent(fnv_round(x, a) - fnv_round(y, b), gap * FNV_PRIME),
{
    let m = modulus();
    let p = FNV_PRIME as int;
    let (s, t) = (mixed(x, a) as int, mixed(y, b) as int);
    let (u, v) = (fnv_round(x, a) as int, fnv_round(y, b) as int);
    assert(u == (s * p) % m);
    assert(v == (t * p) % m);
    lemma_fundamental_div_mod(s * p, m);
    lemma_fundamental_div_mod(t * p, m);
    lemma_fundamental_div_mod(s - t - gap, m);
    let q = (s - t - gap) / m;
    let k = q * p - (s * p) / m + (t * p) / m;
    assert((s - t - gap) * p == m * (q * p)) by (nonlinear_arith)
        requires
            s - t - gap == m * q,
    ;
    assert((s - t - gap) * p == s * p - t * p - gap * p) by (nonlinear_arith);
    assert(u - v - gap * p == m * k) by (nonlinear_arith)
        requires
            s * p == m * ((s * p) / m) + u,
            t * p == m * ((t * p) / m) + v,
            s * p - t * p - gap * p == m * (q * p),
            k == q * p - (s * p) / m + (t * p) / m,
    ;
    lemma_multiple(m, k);
}

proof fn lemma_multiple(m: int, k: int)
    requires
        m > 0,
    ensures
        (m * k) % m == 0,
{
    lemma_mod_multiples_basic(k, m);
    assert(m * k == k * m) by (nonlinear_arith);
}

/// How far folding moves two digests against each other.
pub open spec fn nudge(x: u64, a: u8, y: u64, b: u8) -> int {
    (mixed(x, a) - mixed(y, b)) - (x - y)
}

/// Digests that are `gap` apart, which is no multiple of the modulus once two
/// bytes are folded in, are apart after the round.
proof fn lemma_stays_apart(x: u64, a: u8, y: u64, b: u8, gap: int)
    requires
        congruent(x - y, gap),
        (gap + nudge(x, a, y, b)) % modulus() != 0,
    ensures
        fnv_round(x, a) != fnv_round(y, b),
        congruent(
            fnv_round(x, a) - fnv_round(y, b),
            (gap + nudge(x, a, y, b)) * FNV_PRIME,
        ),
{
    let e = nudge(x, a, y, b);
    assert(congruent(mixed(x, a) - mixed(y, b), gap + e));
    lemma_round_scales(x, a, y, b, gap + e);
    lemma_round_keeps_apart(x, a, y, b);
    if mixed(x, a) == mixed(y, b) {
        assert((gap + e) % modulus() == 0);
    }
}

proof fn lemma_nudge_is_small(x: u64, a: u8, y: u64, b: u8)
    ensures
        -510 <= nudge(x, a, y, b) <= 510,
{
    lemma_mixed_is_near(x, a);
    lemma_mixed_is_near(y, b);
}

/// Two digests that were equal and took in bytes `d` apart.
pub open spec fn split(x: u64, y: u64, d: int) -> bool {
    &&& d != 0
    &&& -255 <= d <= 255
    &&& congruent(x - y, d * FNV_PRIME)
}

proof fn lemma_split(acc: u64, a: u8, b: u8)
    requires
        a != b,
    ensures
        fnv_round(acc, a) != fnv_round(acc, b),
        split(fnv_round(acc, a), fnv_round(acc, b), mixed(acc, a) - mixed(acc, b)),
{
    lemma_mixed_apart(acc, a, b);
    lemma_round_keeps_apart(acc, a, acc, b);
    lemma_round_scales(acc, a, acc, b, mixed(acc, a) - mixed(acc, b));
}

/// Where two digests stand after a split and one more round: apart, by a
/// difference that two small numbers make up.
pub open spec fn split_once(x: u64, y: u64, d: int, e: int) -> bool {
    &&& d != 0
    &&& -255 <= d <= 255
    &&& -510 <= e <= 510
    &&& congruent(x - y, (d * FNV_PRIME + e) * FNV_PRIME)
}

proof fn lemma_split_once(x: u64, a: u8, y: u64, b: u8, d: int)
    requires
        split(x, y, d),
    ensures
        fnv_round(x, a) != fnv_round(y, b),
        split_once(fnv_round(x, a), fnv_round(y, b), d, nudge(x, a, y, b)),
{
    lemma_nudge_is_small(x, a, y, b);
    let e = nudge(x, a, y, b);
    assert((d * FNV_PRIME + e) % modulus() != 0);
    lemma_stays_apart(x, a, y, b, d * FNV_PRIME);
}

/// Where two digests stand after a split and two more rounds.
pub open spec fn split_twice(x: u64, y: u64, d: int, e: int, f: int) -> bool {
    &&& d != 0
    &&& -255 <= d <= 255
    &&& -510 <= e <= 510
    &&& -510 <= f <= 510
    &&& congruent(x - y, ((d * FNV_PRIME + e) * FNV_PRIME + f) * FNV_PRIME)
}

/// The square of the prime is `2^80 + 870 * 2^40 + 189225`.
proof fn lemma_two_rounds(d: int, e: int, f: int)
    requires
        d != 0,
        -255 <= d <= 255,
        -510 <= e <= 510,
        -510 <= f <= 510,
    ensures
        ((d * 0x100_0000_01b3 + e) * 0x100_0000_01b3 + f) % 0x1_0000_0000_0000_0000 != 0,
{
    let high = 870 * d + e;
    let low = 189_225 * d + 435 * e + f;
    let rest = high * 0x100_0000_0000 + low;
    assert((d * 0x100_0000_01b3 + e) * 0x100_0000_01b3 + f == 0x1_0000_0000_0000_0000 * (d
        * 0x1_0000) + rest);
    lemma_mod_multiples_vanish(d * 0x1_0000, rest, 0x1_0000_0000_0000_0000);
    assert(high != 0);
    assert(rest % 0x1_0000_0000_0000_0000 != 0);
}

proof fn lemma_split_twice(x: u64, a: u8, y: u64, b: u8, d: int, e: int)
    requires
        split_once(x, y, d, e),
    ensures
        fnv_round(x, a) != fnv_round(y, b),
        split_twice(fnv_round(x, a), fnv_round(y, b), d, e, nudge(x, a, y, b)),
{
    lemma_nudge_is_small(x, a, y, b);
    lemma_two_rounds(d, e, nudge(x, a, y, b));
    lemma_stays_apart(x, a, y, b, (d * FNV_PRIME + e) * FNV_PRIME);
}

/// Where `low` is small, a sum of it and a multiple of `2^40` is a multiple of
/// the modulus only if `low` is zero and the multiple is one.
proof fn lemma_low_bits(high: int, low: int)
    requires
        -0x100_0000_0000 < low < 0x100_0000_0000,
        (high * 0x100_0000_0000 + low) % 0x1_0000_0000_0000_0000 == 0,
    ensures
        low == 0,
        high % 0x100_0000 == 0,
{
    let k = (high * 0x100_0000_0000 + low) / 0x1_0000_0000_0000_0000;
    assert(high * 0x100_0000_0000 + low == k * 0x1_0000_0000_0000_0000);
    assert(low == 0x100_0000_0000 * (k * 0x100_0000 - high));
    assert(high == k * 0x100_0000);
}

/// The third power of the prime is a multiple of `2^80` and `567675 * 2^40 +
/// 82312875`.
proof fn lemma_three_rounds(d: int, e: int, f: int, g: int)
    requires
        d != 0,
        -255 <= d <= 255,
        -510 <= e <= 510,
        -510 <= f <= 510,
        -510 <= g <= 510,
    ensures
        (((d * 0x100_0000_01b3 + e) * 0x100_0000_01b3 + f) * 0x100_0000_01b3 + g)
            % 0x1_0000_0000_0000_0000 != 0,
{
    let high = 567_675 * d + 870 * e + f;
    let low = 82_312_875 * d + 189_225 * e + 435 * f + g;
    let whole = d * 0x100_0000_0000_0000 + (1305 * d + e) * 0x1_0000;
    let rest = high * 0x100_0000_0000 + low;
    assert(((d * 0x100_0000_01b3 + e) * 0x100_0000_01b3 + f) * 0x100_0000_01b3 + g
        == 0x1_0000_0000_0000_0000 * whole + rest);
    lemma_mod_multiples_vanish(whole, rest, 0x1_0000_0000_0000_0000);
    if rest % 0x1_0000_0000_0000_0000 == 0 {
        lemma_low_bits(high, low);
        // What is left divides by 435 twice, so the numbers are tiny.
        let r = 189_225 * d + 435 * e + f;
        let u = 435 * d + e;
        assert(435 * r == -g);
        assert(-1 <= r <= 1);
        assert(435 * u == r - f);
        assert(-1 <= u <= 1);
        assert(-1 <= d <= 1);
        assert(high == 189_225 * d + 870 * u + f);
    }
}

proof fn lemma_split_thrice(x: u64, a: u8, y: u64, b: u8, d: int, e: int, f: int)
    requires
        split_twice(x, y, d, e, f),
    ensures
        fnv_round(x, a) != fnv_round(y, b),
{
    lemma_nudge_is_small(x, a, y, b);
    lemma_three_rounds(d, e, f, nudge(x, a, y, b));
    lemma_stays_apart(x, a, y, b, ((d * FNV_PRIME + e) * FNV_PRIME + f) * FNV_PRIME);
}

/// The four bytes of a token, folded in one by one.
proof fn lemma_token_rounds(acc: u64, token: TokenId)
    ensures
        fnv1a_spec(acc, le_bytes32(token)) == fnv_round(
            fnv_round(
                fnv_round(fnv_round(acc, token as u8), (token >> 8) as u8),
                (token >> 16) as u8,
            ),
            (token >> 24) as u8,
        ),
{
    let all = le_bytes32(token);
    let three = all.drop_last();
    let two = three.drop_last();
    let one = two.drop_last();
    assert(one.drop_last() =~= Seq::<u8>::empty());
    assert(fnv1a_spec(acc, one.drop_last()) == acc);
    assert(fnv1a_spec(acc, one) == fnv_round(acc, one.last()));
    assert(fnv1a_spec(acc, two) == fnv_round(fnv1a_spec(acc, one), two.last()));
    assert(fnv1a_spec(acc, three) == fnv_round(fnv1a_spec(acc, two), three.last()));
}

/// Different tokens change a digest differently.
pub proof fn law_different_tokens_give_different_digests(acc: u64, a: TokenId, b: TokenId)
    requires
        a != b,
    ensures
        fnv1a_spec(acc, le_bytes32(a)) != fnv1a_spec(acc, le_bytes32(b)),
{
    lemma_token_rounds(acc, a);
    lemma_token_rounds(acc, b);
    let (a0, a1, a2, a3) = (a as u8, (a >> 8) as u8, (a >> 16) as u8, (a >> 24) as u8);
    let (b0, b1, b2, b3) = (b as u8, (b >> 8) as u8, (b >> 16) as u8, (b >> 24) as u8);
    assert((a as u8) == (b as u8) && ((a >> 8) as u8) == ((b >> 8) as u8) && ((a >> 16) as u8)
        == ((b >> 16) as u8) && ((a >> 24) as u8) == ((b >> 24) as u8) ==> a == b) by (bit_vector);
    let (x0, y0) = (fnv_round(acc, a0), fnv_round(acc, b0));
    let (x1, y1) = (fnv_round(x0, a1), fnv_round(y0, b1));
    let (x2, y2) = (fnv_round(x1, a2), fnv_round(y1, b2));
    if a0 != b0 {
        let d = mixed(acc, a0) - mixed(acc, b0);
        lemma_split(acc, a0, b0);
        lemma_split_once(x0, a1, y0, b1, d);
        lemma_split_twice(x1, a2, y1, b2, d, nudge(x0, a1, y0, b1));
        lemma_split_thrice(x2, a3, y2, b3, d, nudge(x0, a1, y0, b1), nudge(x1, a2, y1, b2));
    } else if a1 != b1 {
        let d = mixed(x0, a1) - mixed(x0, b1);
        lemma_split(x0, a1, b1);
        lemma_split_once(x1, a2, y1, b2, d);
        lemma_split_twice(x2, a3, y2, b3, d, nudge(x1, a2, y1, b2));
    } else if a2 != b2 {
        lemma_split(x1, a2, b2);
        lemma_split_once(x2, a3, y2, b3, mixed(x1, a2) - mixed(x1, b2));
    } else {
        lemma_split(x2, a3, b3);
    }
}

proof fn lemma_folds_apart(acc: u64, a: Seq<TokenId>, b: Seq<TokenId>, i: int)
    requires
        a.len() == b.len(),
        0 <= i < a.len(),
        a[i] != b[i],
        forall|j: int| 0 <= j < a.len() && j != i ==> a[j] == b[j],
    ensures
        fold_tokens(acc, a) != fold_tokens(acc, b),
    decreases a.len(),
{
    let (p, q) = (a.drop_last(), b.drop_last());
    if i == a.len() - 1 {
        assert(p =~= q);
        law_different_tokens_give_different_digests(fold_tokens(acc, p), a.last(), b.last());
    } else {
        assert forall|j: int| 0 <= j < p.len() && j != i implies p[j] == q[j] by {
            assert(a[j] == b[j]);
        }
        lemma_folds_apart(acc, p, q, i);
        assert(a.last() == b.last());
        law_digest_is_injective(fold_tokens(acc, p), fold_tokens(acc, q), le_bytes32(a.last()));
    }
}

/// One changed token changes the address of its block.
pub proof fn law_one_token_changes_the_address(
    parent: BlockHash,
    a: Seq<TokenId>,
    b: Seq<TokenId>,
    i: int,
)
    requires
        a.len() == b.len(),
        0 <= i < a.len(),
        a[i] != b[i],
        forall|j: int| 0 <= j < a.len() && j != i ==> a[j] == b[j],
    ensures
        block_hash_spec(parent, a) != block_hash_spec(parent, b),
{
    lemma_folds_apart(parent_digest(parent), a, b, i);
}

/// A prompt that departs from another in one token of a block shares the
/// addresses of the blocks before it, and not that of this block.
pub proof fn law_one_token_ends_the_shared_prefix(
    tenant: Seq<char>,
    a: Seq<TokenId>,
    b: Seq<TokenId>,
    block_size: nat,
    blocks: nat,
    i: int,
)
    requires
        (blocks + 1) * block_size <= a.len(),
        (blocks + 1) * block_size <= b.len(),
        blocks * block_size <= i < (blocks + 1) * block_size,
        a[i] != b[i],
        forall|j: int| 0 <= j < (blocks + 1) * block_size && j != i ==> a[j] == b[j],
    ensures
        prefix_address(tenant, a, block_size, blocks) == prefix_address(
            tenant,
            b,
            block_size,
            blocks,
        ),
        prefix_address(tenant, a, block_size, blocks + 1) != prefix_address(
            tenant,
            b,
            block_size,
            blocks + 1,
        ),
{
    let from = (blocks * block_size) as int;
    let to = ((blocks + 1) * block_size) as int;
    assert(to == from + block_size) by (nonlinear_arith)
        requires
            from == blocks * block_size,
            to == (blocks + 1) * block_size,
    ;
    assert(from >= 0) by (nonlinear_arith)
        requires
            from == blocks * block_size,
    ;
    assert(a.take(from) =~= b.take(from));
    law_address_depends_on_the_prefix_alone(tenant, a, b, block_size, blocks);
    let (p, q) = (a.subrange(from, to), b.subrange(from, to));
    assert forall|j: int| 0 <= j < p.len() && j != i - from implies p[j] == q[j] by {
        assert(a[from + j] == b[from + j]);
    }
    law_one_token_changes_the_address(
        prefix_address(tenant, a, block_size, blocks),
        p,
        q,
        i - from,
    );
}

} // verus!
