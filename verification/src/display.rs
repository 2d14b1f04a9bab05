//! Numbers written in decimal.

use crate::decimal::ten;
use crate::double::{one_units, Double, INFINITE};
use crate::natural::Natural;
use crate::rounding::{lemma_nearest_scale, lemma_quotient, nearest};
use crate::text::written;
use vstd::arithmetic::div_mod::*;
use vstd::arithmetic::mul::*;
use vstd::arithmetic::power2::*;
use vstd::prelude::*;

verus! {

/// The character of a digit.
pub open spec fn figure(d: nat) -> char {
    (d + '0' as u32) as char
}

/// The decimal digits of a number, at least `least` of them.
pub open spec fn figures(n: nat, least: nat) -> Seq<char>
    decreases n, least,
{
    if n == 0 && least == 0 {
        Seq::empty()
    } else {
        figures(
            n / 10,
            if least > 0 {
                (least - 1) as nat
            } else {
                0
            },
        ).push(figure(n % 10))
    }
}

/// A number written in decimal.
pub open spec fn integer_text(n: nat) -> Seq<char> {
    figures(n, 1)
}

/// A whole number of parts of a unit, `digits` decimal places each, written with a point.
pub open spec fn point_text(parts: nat, digits: nat) -> Seq<char> {
    let all = figures(parts, digits + 1);
    if digits == 0 {
        all
    } else {
        all.take(all.len() - digits) + seq!['.'] + all.skip(all.len() - digits)
    }
}

/// A double written with a number of decimal places: the nearest such number, the even one
/// of two that are equally near. A sign stands before negative numbers, and before the
/// others where `plus` asks for it.
pub open spec fn fixed_text(x: Double, digits: nat, plus: bool) -> Seq<char> {
    if x.is_nan() {
        "NaN"@
    } else {
        let sign = if x.negative() {
            seq!['-']
        } else if plus {
            seq!['+']
        } else {
            Seq::empty()
        };
        if x.is_infinite() {
            sign + "inf"@
        } else {
            sign + point_text(nearest(x.magnitude() * ten(digits), one_units()), digits)
        }
    }
}

fn figure_char(d: u32) -> (r: char)
    requires
        d < 10,
    ensures
        r == figure(d as nat),
{
    ('0' as u8 + d as u8) as char
}

/// The digits of a number from the last to the first.
fn reversed_figures(n: Natural, least: usize) -> (r: Vec<char>)
    ensures
        r@.reverse() == figures(n@, least as nat),
{
    let ghost n0 = n@;
    let mut n = n;
    let mut left = least;
    let mut out: Vec<char> = Vec::new();
    assert(figures(n0, least as nat) =~= figures(n@, left as nat) + out@.reverse());
    while left > 0 || !n.is_zero()
        invariant
            figures(n0, least as nat) == figures(n@, left as nat) + out@.reverse(),
        decreases n@, left,
    {
        let ghost before = n@;
        let ghost old_left = left;
        let ghost old_out = out@;
        let d = n.divide(10);
        let c = figure_char(d);
        out.push(c);
        if left > 0 {
            left = left - 1;
        }
        proof {
            assert(out@.reverse() =~= seq![c] + old_out.reverse());
            assert(figures(before, old_left as nat) =~= figures(n@, left as nat).push(c));
            assert(figures(before, old_left as nat) + old_out.reverse() =~= figures(n@, left as nat) + out@.reverse());
        }
    }
    assert(figures(0, 0) =~= Seq::empty());
    assert(out@.reverse() =~= figures(n0, least as nat));
    out
}

/// Some characters in the opposite order.
fn reversed(v: &Vec<char>) -> (r: Vec<char>)
    ensures
        r@ == v@.reverse(),
{
    let mut out: Vec<char> = Vec::new();
    let mut i: usize = v.len();
    assert(out@ =~= v@.skip(i as int).reverse());
    while i > 0
        invariant
            i <= v@.len(),
            out@ == v@.skip(i as int).reverse(),
        decreases i,
    {
        i = i - 1;
        out.push(v[i]);
        proof {
            assert(v@.skip(i as int) =~= seq![v@[i as int]] + v@.skip(i + 1));
            assert(out@ =~= v@.skip(i as int).reverse());
        }
    }
    assert(v@.skip(0) =~= v@);
    out
}

/// The natural number that an integer holds.
fn natural(n: u64) -> (r: Natural)
    ensures
        r@ == n,
        r.size() <= 4,
{
    let mut x = Natural::new((n / 0x1_0000_0000) as u32);
    x.scale(0x1_0000, 0);
    x.scale(0x1_0000, 0);
    x.scale(1, (n % 0x1_0000_0000) as u32);
    x
}

/// Writes a number in decimal.
pub fn write_integer(n: u64) -> (r: String)
    ensures
        r@ == integer_text(n as nat),
{
    let v = reversed_figures(natural(n), 1);
    written(&reversed(&v))
}

/// Divides by a power of two and rounds to the nearest integer, ties to even.
fn halve(a: Natural, s: u32) -> (r: Natural)
    requires
        s > 0,
        a.size() < usize::MAX,
    ensures
        r@ == nearest(a@, pow2(s as nat)),
{
    let ghost a0 = a@;
    let mut a = a;
    let ghost size = a.size();
    let mut sticky = false;
    let ghost mut low: nat = 0;
    let mut i: u32 = 0;
    proof {
        lemma2_to64();
        assert(a0 * pow2(0) == a0);
    }
    while i < s - 1
        invariant
            s > 0,
            i <= s - 1,
            a.size() == size,
            a0 == a@ * pow2(i as nat) + low,
            low < pow2(i as nat),
            sticky == (low > 0),
        decreases s - 1 - i,
    {
        let ghost before = a@;
        let bit = a.divide(2);
        proof {
            let p = pow2(i as nat);
            lemma_pow2_unfold((i + 1) as nat);
            lemma_fundamental_div_mod(before as int, 2);
            let q = a@;
            assert(before * p == q * (2 * p) + bit * p) by (nonlinear_arith)
                requires
                    before == 2 * q + bit,
            ;
            assert(bit == 0 || bit == 1);
            assert(1 * p == p);
            assert(0 * p == 0);
            low = (bit * p) as nat + low;
        }
        if bit != 0 {
            sticky = true;
        }
        i = i + 1;
    }
    let ghost before = a@;
    let bit = a.divide(2);
    let odd = a.is_odd();
    proof {
        let p = pow2((s - 1) as nat);
        lemma_pow2_unfold(s as nat);
        lemma_fundamental_div_mod(before as int, 2);
        let q = a@;
        assert(before * p == q * (2 * p) + bit * p) by (nonlinear_arith)
            requires
                before == 2 * q + bit,
        ;
        assert(bit == 0 || bit == 1);
        assert(1 * p == p);
        assert(0 * p == 0);
        lemma_quotient(a0, 2 * p, q, (bit * p) as nat + low);
    }
    if bit != 0 && (sticky || odd) {
        a.scale(1, 1);
    }
    a
}

/// The nearest number of parts of a unit.
fn rounded_parts(x: Double, digits: usize) -> (r: Natural)
    requires
        x.is_finite(),
        digits <= 0xFFFF,
    ensures
        r@ == nearest(x.magnitude() * ten(digits as nat), one_units()),
{
    let (m, k) = x.parts();
    let mut a = natural(m);
    let mut i: usize = 0;
    assert(ten(0) == 1);
    assert(m * 1 == m);
    while i < digits
        invariant
            i <= digits <= 0xFFFF,
            a@ == m * ten(i as nat),
            a.size() <= 4 + i,
        decreases digits - i,
    {
        a.scale(10, 0);
        proof {
            let p = ten(i as nat);
            assert(m * p * 10 == m * (10 * p)) by (nonlinear_arith);
        }
        i = i + 1;
    }
    let ghost t = ten(digits as nat);
    let ghost p = pow2(k as nat);
    let ghost v = (m * t) as nat;
    proof {
        lemma_pow2_pos(k as nat);
        lemma_pow2_pos(1074);
        assert(m * p * t == v * p) by (nonlinear_arith)
            requires
                v == m * t,
        ;
    }
    if k < 1074 {
        let s: u32 = 1074 - k;
        proof {
            lemma_pow2_adds(s as nat, k as nat);
            lemma_pow2_pos(s as nat);
            lemma_nearest_scale(v, pow2(s as nat), p);
        }
        return halve(a, s);
    }
    let mut j: u32 = 1074;
    proof {
        lemma2_to64();
        assert(v * pow2(0) == v);
    }
    while j < k
        invariant
            1074 <= j <= k <= 2045,
            a@ == v * pow2((j - 1074) as nat),
            a.size() <= 4 + digits + j,
            digits <= 0xFFFF,
        decreases k - j,
    {
        a.scale(2, 0);
        proof {
            lemma_pow2_unfold((j + 1 - 1074) as nat);
            let h = pow2((j - 1074) as nat);
            assert(v * h * 2 == v * (2 * h)) by (nonlinear_arith);
        }
        j = j + 1;
    }
    proof {
        let h = pow2((k - 1074) as nat);
        lemma_pow2_adds((k - 1074) as nat, 1074);
        assert(v * (h * one_units()) == v * h * one_units()) by (nonlinear_arith);
        lemma_quotient(v * p, one_units(), v * h, 0);
    }
    a
}

/// Writes a double with a number of decimal places, with a plus sign where asked for.
pub fn write_fixed(x: Double, digits: usize, plus: bool) -> (r: String)
    requires
        digits <= 0xFFFF,
    ensures
        r@ == fixed_text(x, digits as nat, plus),
{
    let code = x.get_code();
    if code > INFINITE {
        return "NaN".to_string();
    }
    let mut out = String::new();
    if x.is_negative() {
        out.push('-');
    } else if plus {
        out.push('+');
    }
    let ghost sign = out@;
    proof {
        assert(sign =~= if x.negative() {
            seq!['-']
        } else if plus {
            seq!['+']
        } else {
            Seq::empty()
        });
    }
    if code == INFINITE {
        out.append("inf");
        return out;
    }
    let parts = rounded_parts(x, digits);
    let ghost n = parts@;
    let v = reversed_figures(parts, digits + 1);
    let v = reversed(&v);
    let ghost all = figures(n, (digits + 1) as nat);
    proof {
        lemma_figures_length(n, (digits + 1) as nat);
    }
    let cut = v.len() - digits;
    let mut i: usize = 0;
    assert(out@ =~= sign + all.take(0));
    while i < cut
        invariant
            i <= cut <= v@.len(),
            v@ == all,
            out@ == sign + all.take(i as int),
        decreases cut - i,
    {
        assert(sign + all.take(i + 1) =~= (sign + all.take(i as int)).push(all[i as int]));
        out.push(v[i]);
        i = i + 1;
    }
    if digits == 0 {
        assert(all.take(cut as int) =~= all);
        return out;
    }
    out.push('.');
    let ghost head = sign + all.take(cut as int) + seq!['.'];
    assert(out@ =~= head + all.subrange(cut as int, cut as int));
    while i < v.len()
        invariant
            cut <= i <= v@.len(),
            v@ == all,
            out@ == head + all.subrange(cut as int, i as int),
        decreases v@.len() - i,
    {
        assert(head + all.subrange(cut as int, i + 1) =~= (head + all.subrange(cut as int, i as int)).push(
            all[i as int],
        ));
        out.push(v[i]);
        i = i + 1;
    }
    assert(out@ =~= sign + point_text(n, digits as nat));
    out
}

proof fn lemma_figures_length(n: nat, least: nat)
    ensures
        figures(n, least).len() >= least,
    decreases n, least,
{
    if n > 0 || least > 0 {
        lemma_figures_length(
            n / 10,
            if least > 0 {
                (least - 1) as nat
            } else {
                0
            },
        );
    }
}

} // verus!
