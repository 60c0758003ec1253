//! Which compiled tables of replacements a `tokenizer.json` may hold.
//!
//! A table is a tree of byte strings laid out in an array, and the texts that its
//! leaves stand for, one after the other. Looking a text up goes from unit to
//! unit by exclusive or, and nothing stops it at the end of the array: a table is
//! accepted where no unit leads out of it, nor a leaf out of the texts.
use vstd::prelude::*;
use vstd::utf8::valid_utf8;

use super::tokenizer::{read_utf8, Reading};
use crate::text::chars_of;

verus! {

/// The six bits that a character of base 64 stands for.
pub open spec fn sextet(c: char) -> Option<u8> {
    if 'A' <= c && c <= 'Z' {
        Some((c as u32 - 65) as u8)
    } else if 'a' <= c && c <= 'z' {
        Some((c as u32 - 71) as u8)
    } else if '0' <= c && c <= '9' {
        Some((c as u32 + 4) as u8)
    } else if c == '+' {
        Some(62)
    } else if c == '/' {
        Some(63)
    } else {
        None
    }
}

/// The first byte that two sextets make.
pub open spec fn high(a: u8, b: u8) -> u8 {
    (a * 4 + b / 16) as u8
}

/// The byte between two sextets.
pub open spec fn middle(b: u8, c: u8) -> u8 {
    ((b % 16) * 16 + c / 4) as u8
}

/// The last byte that two sextets make.
pub open spec fn low(c: u8, d: u8) -> u8 {
    ((c % 4) * 64 + d) as u8
}

/// The three bytes of the four characters at `i`.
pub open spec fn group(e: Seq<char>, i: int) -> Option<Seq<u8>> {
    match (sextet(e[i]), sextet(e[i + 1]), sextet(e[i + 2]), sextet(e[i + 3])) {
        (Some(a), Some(b), Some(c), Some(d)) => Some(seq![high(a, b), middle(b, c), low(c, d)]),
        _ => None,
    }
}

/// The bytes of the first `n` groups of four characters.
pub open spec fn groups(e: Seq<char>, n: nat) -> Option<Seq<u8>>
    decreases n,
{
    if n == 0 {
        Some(Seq::empty())
    } else {
        match (groups(e, (n - 1) as nat), group(e, 4 * (n - 1))) {
            (Some(before), Some(here)) => Some(before + here),
            _ => None,
        }
    }
}

/// The bytes of the last four characters, at `i`, which may be padded. Bits that
/// no byte takes up are zero.
pub open spec fn last_group(e: Seq<char>, i: int) -> Option<Seq<u8>> {
    match (sextet(e[i]), sextet(e[i + 1]), sextet(e[i + 2])) {
        (Some(a), Some(b), None) => if e[i + 2] == '=' && e[i + 3] == '=' && b % 16 == 0 {
            Some(seq![high(a, b)])
        } else {
            None
        },
        (Some(a), Some(b), Some(c)) => if e[i + 3] == '=' && c % 4 == 0 {
            Some(seq![high(a, b), middle(b, c)])
        } else {
            group(e, i)
        },
        _ => None,
    }
}

/// The bytes that a text in base 64 stands for.
pub open spec fn from_base64(e: Seq<char>) -> Option<Seq<u8>> {
    if e.len() == 0 || e.len() % 4 != 0 {
        None
    } else {
        match (groups(e, (e.len() / 4 - 1) as nat), last_group(e, e.len() - 4)) {
            (Some(before), Some(last)) => Some(before + last),
            _ => None,
        }
    }
}

/// The little-endian number of 32 bits at `i`.
pub open spec fn le32(b: Seq<u8>, i: int) -> nat {
    (b[i] + b[i + 1] * 0x100 + b[i + 2] * 0x1_0000 + b[i + 3] * 0x100_0000) as nat
}

/// How many units the array has. Its size in bytes stands before it.
pub open spec fn num_units(b: Seq<u8>) -> nat {
    le32(b, 0) / 4
}

pub open spec fn unit(b: Seq<u8>, k: int) -> nat {
    le32(b, 4 + 4 * k)
}

/// The texts behind the array.
pub open spec fn texts(b: Seq<u8>) -> Seq<u8> {
    b.skip(4 + 4 * num_units(b) as int)
}

/// How far from its own place a unit leads.
pub open spec fn offset(u: nat) -> nat {
    if (u / 0x200) % 2 == 1 {
        u / 0x400 * 0x100
    } else {
        u / 0x400
    }
}

/// Where the unit at `k` leads.
pub open spec fn target(k: int, u: nat) -> int {
    ((k as u64) ^ (offset(u) as u64)) as int
}

/// A place in the texts where a character starts, or their end.
pub open spec fn starts_text(t: Seq<u8>, i: int) -> bool {
    i == t.len() || 0 <= i < t.len() && !(0x80 <= t[i] <= 0xBF)
}

/// The unit at `k`, where the lookup may go on from it, leads to a block of 256
/// units within the array, one for every byte that may follow; and where it has a
/// leaf, that stands for a text among the texts.
pub open spec fn unit_is_sound(b: Seq<u8>, k: int) -> bool {
    let u = unit(b, k);
    let t = target(k, u);
    k == 0 || u < 0x8000_0000 ==> {
        &&& t / 256 * 256 + 255 < num_units(b)
        &&& (u / 0x100) % 2 == 1 ==> starts_text(texts(b), (unit(b, t) % 0x8000_0000) as int)
    }
}

/// A table in which every lookup stays within the array and the texts.
pub open spec fn table_is_sound(b: Seq<u8>) -> bool {
    &&& b.len() >= 4
    &&& num_units(b) > 0
    &&& 4 + 4 * num_units(b) <= b.len()
    &&& valid_utf8(texts(b))
    &&& forall|k: int| 0 <= k < num_units(b) ==> #[trigger] unit_is_sound(b, k)
}

/// A text that holds such a table, in base 64.
pub open spec fn charsmap_is_sound(text: Seq<char>) -> bool {
    match from_base64(text) {
        Some(b) => table_is_sound(b),
        None => false,
    }
}

fn read_sextet(c: char) -> (r: Option<u8>)
    ensures
        r == sextet(c),
        r is Some ==> r->0 < 64,
{
    if 'A' <= c && c <= 'Z' {
        Some((c as u32 - 65) as u8)
    } else if 'a' <= c && c <= 'z' {
        Some((c as u32 - 71) as u8)
    } else if '0' <= c && c <= '9' {
        Some((c as u32 + 4) as u8)
    } else if c == '+' {
        Some(62)
    } else if c == '/' {
        Some(63)
    } else {
        None
    }
}

fn push_group(e: &Vec<char>, i: usize, out: &mut Vec<u8>) -> (r: bool)
    requires
        i + 4 <= e@.len(),
    ensures
        match group(e@, i as int) {
            Some(bytes) => r && final(out)@ == old(out)@ + bytes,
            None => !r,
        },
{
    assert(e.len() == e@.len());
    match (
        read_sextet(e[i]),
        read_sextet(e[i + 1]),
        read_sextet(e[i + 2]),
        read_sextet(e[i + 3]),
    ) {
        (Some(a), Some(b), Some(c), Some(d)) => {
            out.push(a * 4 + b / 16);
            out.push((b % 16) * 16 + c / 4);
            out.push((c % 4) * 64 + d);
            assert(out@ =~= old(out)@ + seq![high(a, b), middle(b, c), low(c, d)]);
            true
        },
        _ => false,
    }
}

fn push_last_group(e: &Vec<char>, i: usize, out: &mut Vec<u8>) -> (r: bool)
    requires
        i + 4 <= e@.len(),
    ensures
        match last_group(e@, i as int) {
            Some(bytes) => r && final(out)@ == old(out)@ + bytes,
            None => !r,
        },
{
    assert(e.len() == e@.len());
    match (read_sextet(e[i]), read_sextet(e[i + 1]), read_sextet(e[i + 2])) {
        (Some(a), Some(b), None) => {
            if e[i + 2] == '=' && e[i + 3] == '=' && b % 16 == 0 {
                out.push(a * 4 + b / 16);
                assert(out@ =~= old(out)@ + seq![high(a, b)]);
                true
            } else {
                false
            }
        },
        (Some(a), Some(b), Some(c)) => {
            if e[i + 3] == '=' && c % 4 == 0 {
                out.push(a * 4 + b / 16);
                out.push((b % 16) * 16 + c / 4);
                assert(out@ =~= old(out)@ + seq![high(a, b), middle(b, c)]);
                true
            } else {
                push_group(e, i, out)
            }
        },
        _ => false,
    }
}

proof fn lemma_groups_fail_early(e: Seq<char>, n: nat, m: nat)
    requires
        n <= m,
        groups(e, n) is None,
    ensures
        groups(e, m) is None,
    decreases m - n,
{
    if n < m {
        lemma_groups_fail_early(e, n, (m - 1) as nat);
    }
}

fn read_base64(text: &str) -> (r: Option<Vec<u8>>)
    ensures
        match r {
            Some(bytes) => from_base64(text@) == Some(bytes@),
            None => from_base64(text@) is None,
        },
{
    let e: Vec<char> = chars_of(text);
    if e.len() == 0 || e.len() % 4 != 0 {
        return None;
    }
    let n: usize = e.len() / 4 - 1;
    let mut out: Vec<u8> = Vec::new();
    let mut i: usize = 0;
    while i < n
        invariant
            e@ == text@,
            e@.len() == 4 * (n + 1),
            i <= n,
            groups(e@, i as nat) == Some(out@),
        decreases n - i,
    {
        if !push_group(&e, 4 * i, &mut out) {
            proof {
                assert(groups(e@, (i + 1) as nat) is None);
                lemma_groups_fail_early(e@, (i + 1) as nat, n as nat);
            }
            return None;
        }
        i = i + 1;
    }
    if push_last_group(&e, 4 * n, &mut out) {
        Some(out)
    } else {
        None
    }
}

fn read32(b: &Vec<u8>, i: usize) -> (r: u32)
    requires
        i + 4 <= b@.len(),
    ensures
        r == le32(b@, i as int),
{
    assert(b.len() == b@.len());
    b[i] as u32 + b[i + 1] as u32 * 0x100 + b[i + 2] as u32 * 0x1_0000 + b[i + 3] as u32
        * 0x100_0000
}

fn check_start(b: &Vec<u8>, from: usize, i: u32) -> (r: bool)
    requires
        from <= b@.len(),
    ensures
        r == starts_text(b@.skip(from as int), i as int),
{
    let len: usize = b.len() - from;
    if i as u64 >= len as u64 {
        return i as u64 == len as u64;
    }
    let c: u8 = b[from + i as usize];
    assert(c == b@.skip(from as int)[i as int]);
    !(0x80 <= c && c <= 0xBF)
}

fn check_unit(b: &Vec<u8>, n: usize, k: usize) -> (r: bool)
    requires
        b@.len() >= 4,
        n == num_units(b@),
        4 + 4 * n <= b@.len(),
        k < n,
    ensures
        r == unit_is_sound(b@, k as int),
{
    assert(b.len() == b@.len());
    let u: u32 = read32(b, 4 + 4 * k);
    if k != 0 && u >= 0x8000_0000 {
        return true;
    }
    let off: u64 = if (u / 0x200) % 2 == 1 {
        (u / 0x400) as u64 * 0x100
    } else {
        (u / 0x400) as u64
    };
    assert(off == offset(u as nat));
    let t: u64 = (k as u64) ^ off;
    assert(t == target(k as int, u as nat));
    if t >= n as u64 || t / 256 * 256 + 255 >= n as u64 {
        return false;
    }
    if (u / 0x100) % 2 != 1 {
        return true;
    }
    let leaf: u32 = read32(b, 4 + 4 * (t as usize));
    check_start(b, 4 + 4 * n, leaf % 0x8000_0000)
}

fn check_table(b: &Vec<u8>) -> (r: bool)
    ensures
        r == table_is_sound(b@),
{
    if b.len() < 4 {
        return false;
    }
    let n: usize = (read32(b, 0) / 4) as usize;
    if n == 0 || n > (b.len() - 4) / 4 {
        return false;
    }
    let rest = vstd::slice::slice_subrange(b.as_slice(), 4 + 4 * n, b.len());
    assert(rest@ =~= texts(b@));
    if !matches!(read_utf8(rest), Reading::Valid) {
        return false;
    }
    for k in 0..n
        invariant
            b@.len() >= 4,
            n == num_units(b@),
            4 + 4 * n <= b@.len(),
            forall|j: int| 0 <= j < k ==> #[trigger] unit_is_sound(b@, j),
    {
        if !check_unit(b, n, k) {
            assert(!unit_is_sound(b@, k as int));
            return false;
        }
    }
    true
}

/// Whether a text holds a table, in base 64, in which every lookup stays within
/// the array and the texts.
pub fn check_charsmap(text: &str) -> (r: bool)
    ensures
        r == charsmap_is_sound(text@),
{
    match read_base64(text) {
        Some(b) => check_table(&b),
        None => false,
    }
}

/// Base 64 has an alphabet of 64 characters, each of which stands for its place in
/// it: capitals, small letters, digits, plus and slash.
pub proof fn law_the_alphabet_is_in_order(i: int)
    requires
        0 <= i < 64,
    ensures
        i < 26 ==> sextet(('A' as u32 + i) as char) == Some(i as u8),
        26 <= i < 52 ==> sextet(('a' as u32 + i - 26) as char) == Some(i as u8),
        52 <= i < 62 ==> sextet(('0' as u32 + i - 52) as char) == Some(i as u8),
        i == 62 ==> sextet('+') == Some(i as u8),
        i == 63 ==> sextet('/') == Some(i as u8),
        sextet('=') is None,
{
}

/// Four characters stand for three bytes: the 24 bits are the same, taken six at a
/// time or eight at a time.
pub proof fn law_four_characters_are_three_bytes(e: Seq<char>, i: int)
    requires
        0 <= i,
        i + 4 <= e.len(),
    ensures
        group(e, i) is Some <==> sextet(e[i]) is Some && sextet(e[i + 1]) is Some && sextet(
            e[i + 2],
        ) is Some && sextet(e[i + 3]) is Some,
        group(e, i) is Some ==> {
            let g = group(e, i)->0;
            &&& g.len() == 3
            &&& g[0] * 65_536 + g[1] * 256 + g[2] == sextet(e[i])->0 * 262_144 + sextet(
                e[i + 1],
            )->0 * 4_096 + sextet(e[i + 2])->0 * 64 + sextet(e[i + 3])->0
        },
{
    if group(e, i) is Some {
        let (a, b, c, d) = (
            sextet(e[i])->0 as int,
            sextet(e[i + 1])->0 as int,
            sextet(e[i + 2])->0 as int,
            sextet(e[i + 3])->0 as int,
        );
        assert(a < 64 && b < 64 && c < 64 && d < 64);
        assert(b == b / 16 * 16 + b % 16);
        assert(c == c / 4 * 4 + c % 4);
        let g = group(e, i)->0;
        assert(g[0] == a * 4 + b / 16);
        assert(g[1] == (b % 16) * 16 + c / 4);
        assert(g[2] == (c % 4) * 64 + d);
    }
}

/// A text in base 64 is made of whole groups of four characters, each of three
/// bytes but the last, which may be padded.
pub proof fn law_base64_is_made_of_groups(e: Seq<char>)
    requires
        from_base64(e) is Some,
    ensures
        e.len() > 0,
        e.len() % 4 == 0,
        e.len() / 4 * 3 - 2 <= from_base64(e)->0.len() <= e.len() / 4 * 3,
        e.last() != '=' ==> from_base64(e)->0.len() == e.len() / 4 * 3,
{
    lemma_groups_len(e, (e.len() / 4 - 1) as nat);
}

proof fn lemma_groups_len(e: Seq<char>, n: nat)
    ensures
        groups(e, n) is Some ==> groups(e, n)->0.len() == 3 * n,
    decreases n,
{
    if n > 0 {
        lemma_groups_len(e, (n - 1) as nat);
    }
}

} // verus!
