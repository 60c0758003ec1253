//! Building text piece by piece.
use vstd::prelude::*;

verus! {

/// The decimal digit with value `d`.
pub open spec fn digit_char(d: nat) -> char {
    (48 + d) as char
}

/// `n` in decimal, without leading zeros.
pub open spec fn decimal(n: nat) -> Seq<char>
    decreases n,
{
    if n < 10 {
        seq![digit_char(n)]
    } else {
        decimal(n / 10).push(digit_char(n % 10))
    }
}

fn digit(d: u64) -> (r: &'static str)
    requires
        d < 10,
    ensures
        r@ == seq![digit_char(d as nat)],
{
    proof {
        reveal_strlit("0");
        reveal_strlit("1");
        reveal_strlit("2");
        reveal_strlit("3");
        reveal_strlit("4");
        reveal_strlit("5");
        reveal_strlit("6");
        reveal_strlit("7");
        reveal_strlit("8");
        reveal_strlit("9");
    }
    let r = match d {
        0 => "0",
        1 => "1",
        2 => "2",
        3 => "3",
        4 => "4",
        5 => "5",
        6 => "6",
        7 => "7",
        8 => "8",
        _ => "9",
    };
    assert(r@ =~= seq![digit_char(d as nat)]);
    r
}

/// Append `n` in decimal.
pub fn push_decimal(out: &mut String, n: u64)
    ensures
        final(out)@ == old(out)@ + decimal(n as nat),
    decreases n,
{
    if n >= 10 {
        push_decimal(out, n / 10);
    }
    out.append(digit(n % 10));
    assert(out@ =~= old(out)@ + decimal(n as nat));
}

/// `n` in decimal.
pub fn decimal_text(n: u64) -> (r: String)
    ensures
        r@ == decimal(n as nat),
{
    let mut out = String::new();
    push_decimal(&mut out, n);
    assert(out@ =~= decimal(n as nat));
    out
}

/// `n / unit`, rounded to the nearest integer, and to the even one of two that
/// are equally near.
pub open spec fn nearest(n: nat, unit: nat) -> nat {
    let whole = n / unit;
    let rest = n % unit;
    if 2 * rest > unit || (2 * rest == unit && whole % 2 == 1) {
        whole + 1
    } else {
        whole
    }
}

/// `n / unit` in tenths, rounded.
pub open spec fn tenths(n: nat, unit: nat) -> nat {
    nearest(10 * n, unit)
}

/// `n / unit` with one decimal.
pub open spec fn one_decimal(n: nat, unit: nat) -> Seq<char> {
    decimal(tenths(n, unit) / 10) + "."@ + decimal(tenths(n, unit) % 10)
}

/// Append `n / unit` with one decimal.
pub fn push_one_decimal(out: &mut String, n: u64, unit: u64)
    requires
        unit > 0,
    ensures
        final(out)@ == old(out)@ + one_decimal(n as nat, unit as nat),
{
    let scaled: u128 = 10 * (n as u128);
    let whole: u128 = scaled / (unit as u128);
    let rest: u128 = scaled % (unit as u128);
    assert(whole <= scaled) by (nonlinear_arith)
        requires
            whole == scaled / (unit as u128),
            unit > 0,
    ;
    let rounded: u128 = if 2 * rest > unit as u128 || (2 * rest == unit as u128 && whole % 2 == 1) {
        whole + 1
    } else {
        whole
    };
    assert(rounded == tenths(n as nat, unit as nat));
    push_decimal(out, (rounded / 10) as u64);
    out.append(".");
    push_decimal(out, (rounded % 10) as u64);
    assert(out@ =~= old(out)@ + one_decimal(n as nat, unit as nat));
}

/// Different numbers are written differently.
pub proof fn law_decimal_is_injective(a: nat, b: nat)
    ensures
        decimal(a) == decimal(b) <==> a == b,
    decreases a,
{
    if decimal(a) == decimal(b) {
        law_decimal_length(a);
        law_decimal_length(b);
        assert(decimal(a).last() == digit_char(a % 10)) by {
            if a < 10 {
                assert(a % 10 == a);
            }
        }
        assert(decimal(b).last() == digit_char(b % 10)) by {
            if b < 10 {
                assert(b % 10 == b);
            }
        }
        assert(digit_char(a % 10) as int == 48 + a % 10);
        assert(digit_char(b % 10) as int == 48 + b % 10);
        if a >= 10 {
            assert(decimal(a).drop_last() =~= decimal(a / 10));
            assert(decimal(b).drop_last() =~= decimal(b / 10));
            law_decimal_is_injective(a / 10, b / 10);
        }
    }
}

/// A number has one digit exactly where it is below ten.
pub proof fn law_decimal_length(a: nat)
    ensures
        decimal(a).len() >= 1,
        decimal(a).len() == 1 <==> a < 10,
    decreases a,
{
    if a >= 10 {
        law_decimal_length(a / 10);
    }
}

/// Whether two texts are the same.
pub fn is_same(a: &str, b: &str) -> (r: bool)
    ensures
        r == (a@ == b@),
{
    String::from_str(a) == String::from_str(b)
}

/// Whether a text goes on with `part`, `from` characters after its start.
pub fn has_at(text: &str, from: usize, part: &str) -> (r: bool)
    requires
        from <= text@.len(),
    ensures
        r == part@.is_prefix_of(text@.skip(from as int)),
{
    let n: usize = part.unicode_len();
    if n > text.unicode_len() - from {
        return false;
    }
    let piece = text.substring_char(from, from + n);
    assert(piece@ =~= text@.skip(from as int).take(n as int));
    is_same(piece, part)
}

/// The characters of a text, one by one.
pub fn chars_of(text: &str) -> (r: Vec<char>)
    ensures
        r@ == text@,
{
    broadcast use vstd::string::axiom_spec_iter;

    let mut out: Vec<char> = Vec::new();
    for c in it: text.chars()
        invariant
            it.seq() == text@,
            out@ == text@.take(it.index()),
    {
        assert(text@.take(it.index()).push(c) =~= text@.take(it.index() + 1));
        out.push(c);
    }
    assert(text@.take(text@.len() as int) =~= text@);
    out
}

/// The number that a text of decimal digits stands for.
pub open spec fn value_of(text: Seq<char>) -> int
    decreases text.len(),
{
    if text.len() == 0 {
        0
    } else {
        10 * value_of(text.drop_last()) + (text.last() as int - '0' as int)
    }
}

/// A number is written in decimal digits, which stand for it, and it has no zero in
/// front.
pub proof fn law_decimal_digits_stand_for_the_number(n: nat)
    ensures
        value_of(decimal(n)) == n,
        forall|i: int|
            0 <= i < decimal(n).len() ==> '0' <= #[trigger] decimal(n)[i] && decimal(n)[i] <= '9',
        n > 0 ==> decimal(n)[0] != '0',
        decimal(n).len() >= 1,
    decreases n,
{
    if n < 10 {
        assert(seq![digit_char(n)].drop_last() =~= Seq::<char>::empty());
        assert(value_of(Seq::<char>::empty()) == 0);
    } else {
        law_decimal_digits_stand_for_the_number(n / 10);
        let rest = decimal(n / 10);
        let all = decimal(n);
        assert(all.drop_last() =~= rest);
        assert forall|i: int| 0 <= i < all.len() implies '0' <= #[trigger] all[i] && all[i]
            <= '9' by {
            if i < rest.len() {
                assert(all[i] == rest[i]);
            }
        }
        assert(all[0] == rest[0]);
    }
}

/// Rounding goes to the nearest, and to the even one of two that are equally near.
pub proof fn law_rounding_goes_to_the_nearest(n: nat, unit: nat)
    requires
        unit > 0,
    ensures
        2 * (nearest(n, unit) * unit - n) <= unit,
        2 * (n - nearest(n, unit) * unit) <= unit,
        2 * (nearest(n, unit) * unit - n) == unit || 2 * (n - nearest(n, unit) * unit) == unit
            ==> nearest(n, unit) % 2 == 0,
{
    vstd::arithmetic::div_mod::lemma_fundamental_div_mod(n as int, unit as int);
    vstd::arithmetic::div_mod::lemma_mod_bound(n as int, unit as int);
    let q = n / unit;
    assert(q * unit == unit * q && (q + 1) * unit == unit * q + unit) by (nonlinear_arith);
}

/// A quotient with one decimal is a whole part, a point and one digit, which
/// together stand for its tenths, rounded.
pub proof fn law_one_decimal_stands_for_the_tenths(n: nat, unit: nat)
    requires
        unit > 0,
    ensures
        ({
            let text = one_decimal(n, unit);
            let k = text.len() - 2;
            &&& k >= 1
            &&& text[k] == '.'
            &&& '0' <= text[k + 1] && text[k + 1] <= '9'
            &&& 10 * value_of(text.take(k)) + (text[k + 1] as int - '0' as int) == nearest(
                10 * n,
                unit,
            )
        }),
{
    reveal_strlit(".");
    let t = nearest(10 * n, unit);
    let text = one_decimal(n, unit);
    law_decimal_digits_stand_for_the_number(t / 10);
    assert(t % 10 < 10);
    let whole = decimal(t / 10);
    assert(decimal(t % 10) =~= seq![digit_char(t % 10)]);
    assert(text.take(text.len() - 2) =~= whole);
}

} // verus!
