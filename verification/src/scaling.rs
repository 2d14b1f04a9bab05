//! Arithmetic on doubled numbers: what the results have to do with those on the numbers.

use crate::arith::{quotient_to, sum_to};
use crate::convert::lemma_exact_integer;
use crate::double::{decode, lemma_build, lemma_round_exact, one_units, ratio, round, Double, BINADE, TOP};
use crate::order::total;
use crate::rounding::{encode, lemma_encode_low, lemma_encode_ordered, lemma_encode_scale, lemma_quotient};
use vstd::arithmetic::div_mod::*;
use vstd::arithmetic::power2::*;
use vstd::prelude::*;

verus! {

/// Whether no digit of `n / d` units is lost to the lower end of the range: it is a whole
/// number of units, or not below the numbers of full precision.
pub open spec fn keeps_digits(n: nat, d: nat) -> bool {
    n % d == 0 || n >= BINADE * d
}

/// Whether a finite number is a multiple of another, with the same sign.
pub open spec fn scaled(factor: nat, x: Double, y: Double) -> bool {
    &&& x.is_finite()
    &&& y.is_finite()
    &&& x.negative() == y.negative()
    &&& y.magnitude() == factor * x.magnitude()
}

/// Whether the numbers of a sequence are multiples of those of another.
pub open spec fn all_scaled(factor: nat, s: Seq<Double>, t: Seq<Double>) -> bool {
    s.len() == t.len() && forall|i: int| 0 <= i < s.len() ==> scaled(factor, #[trigger] s[i], t[i])
}

/// Twice a fraction rounds to twice the number.
proof fn lemma_encode_double(n: nat, d: nat)
    requires
        d > 0,
        keeps_digits(n, d),
    ensures
        decode(encode(TOP as nat, 2 * n, d)) == 2 * decode(encode(TOP as nat, n, d)),
        keeps_digits(2 * n, d),
{
    let top = TOP as nat;
    let half = BINADE as nat;
    if n >= BINADE * d {
        assert(d * top == 2 * (half * d)) by (nonlinear_arith)
            requires
                top == 2 * half,
        ;
        lemma_encode_scale(top, n, d, 2);
        assert(encode(top, 2 * n, d) == half + encode(top, n, d));
        assert(n >= d * half) by (nonlinear_arith)
            requires
                n >= half * d,
        ;
        lemma_encode_low(top, n, d, half);
        let c = encode(top, n, d);
        let q = c / half;
        let r = c % half;
        lemma_fundamental_div_mod(c as int, half as int);
        assert(half + c == (q + 1) * half + r) by (nonlinear_arith)
            requires
                c == half * q + r,
        ;
        lemma_quotient(half + c, half, q + 1, r);
        if q == 0 {
            assert(half * 0 == 0);
        }
        let p = pow2((q - 1) as nat);
        lemma_pow2_unfold(q);
        assert((half + r) * (2 * p) == 2 * ((half + r) * p)) by (nonlinear_arith);
        assert(decode(c) == (half + r) * p);
        assert(decode(half + c) == (half + r) * pow2(q));
    } else {
        let q = n / d;
        lemma_fundamental_div_mod(n as int, d as int);
        assert(q < half) by (nonlinear_arith)
            requires
                n == d * q,
                n < half * d,
        ;
        assert(n == q * d) by (nonlinear_arith)
            requires
                n == d * q,
        ;
        assert(2 * n == (2 * q) * d) by (nonlinear_arith)
            requires
                n == d * q,
        ;
        lemma_quotient(n, d, q, 0);
        lemma_quotient(2 * n, d, 2 * q, 0);
        assert(n < d * top && 2 * n < d * top) by (nonlinear_arith)
            requires
                n < half * d,
                top == 2 * half,
        ;
        if 2 * q >= half {
            lemma_quotient(2 * q, half, 1, (2 * q - half) as nat);
            lemma2_to64();
            assert((half + (2 * q - half) as nat) * pow2(0) == 2 * q);
            assert(decode(2 * q) == 2 * q);
        }
        assert(encode(top, n, d) == q);
        assert(encode(top, 2 * n, d) == 2 * q);
    }
}

/// What a multiple is where the factor is two or four.
proof fn lemma_factor(factor: nat, m: int)
    requires
        factor == 2 || factor == 4,
    ensures
        factor * m == if factor == 2 {
            2 * m
        } else {
            4 * m
        },
{
    assert(factor == 2 ==> factor * m == 2 * m) by (nonlinear_arith);
    assert(factor == 4 ==> factor * m == 4 * m) by (nonlinear_arith);
}

/// Twice or four times a fraction rounds to as many times the number.
pub proof fn lemma_round_scaled(factor: nat, negative: bool, n: nat, d: nat)
    requires
        factor == 2 || factor == 4,
        d > 0,
        keeps_digits(n, d),
        round(negative, factor * n, d).is_finite(),
    ensures
        scaled(factor, round(negative, n, d), round(negative, factor * n, d)),
{
    broadcast use lemma_build;

    let top = TOP as nat;
    lemma_encode_double(n, d);
    assert(n * d <= (factor * n) * d) by (nonlinear_arith)
        requires
            factor >= 1,
    ;
    lemma_encode_ordered(top, n, d, factor * n, d);
    if factor == 4 {
        lemma_encode_double(2 * n, d);
        assert(2 * (2 * n) == 4 * n);
    }
}

/// The value of a multiple.
pub proof fn lemma_value_scaled(factor: nat, x: Double, y: Double)
    requires
        factor == 2 || factor == 4,
        scaled(factor, x, y),
    ensures
        y.value() == if factor == 2 {
            2 * x.value()
        } else {
            4 * x.value()
        },
{
    let m = x.magnitude();
    lemma_factor(factor, m as int);
    assert(factor == 2 ==> y.magnitude() == 2 * m);
    assert(factor == 4 ==> y.magnitude() == 4 * m);
}

/// A sum is as many times the sum as its terms are.
pub proof fn lemma_sum_scaled(factor: nat, a: Double, aa: Double, b: Double, bb: Double)
    requires
        factor == 2 || factor == 4,
        scaled(factor, a, aa),
        scaled(factor, b, bb),
        (aa + bb).is_finite(),
    ensures
        scaled(factor, a + b, aa + bb),
{
    broadcast use lemma_build;

    reveal(sum_to);
    let sum = a.value() + b.value();
    lemma_value_scaled(factor, a, aa);
    lemma_value_scaled(factor, b, bb);
    lemma_factor(factor, sum);
    assert(aa.value() + bb.value() == factor * sum);
    if sum < 0 {
        let n = (-sum) as nat;
        assert(-(factor * sum) == factor * n) by (nonlinear_arith)
            requires
                n == -sum,
        ;
        lemma_round_scaled(factor, true, n, 1);
    } else if sum > 0 {
        lemma_round_scaled(factor, false, sum as nat, 1);
    }
}

/// The negation of a multiple is the multiple of the negation.
pub proof fn lemma_neg_scaled(factor: nat, x: Double, y: Double)
    requires
        scaled(factor, x, y),
    ensures
        scaled(factor, x.neg(), y.neg()),
{
    broadcast use lemma_build;

}

/// The product of doubled factors is four times the product.
pub proof fn lemma_product_scaled(x: Double, xx: Double, y: Double, yy: Double)
    requires
        scaled(2, x, xx),
        scaled(2, y, yy),
        keeps_digits(x.magnitude() * y.magnitude(), one_units()),
        (xx * yy).is_finite(),
    ensures
        scaled(4, x * y, xx * yy),
{
    reveal(Double::times);
    lemma_pow2_pos(1074);
    let a = x.magnitude();
    let b = y.magnitude();
    assert((2 * a) * (2 * b) == 4 * (a * b)) by (nonlinear_arith);
    lemma_round_scaled(4, x.negative() != y.negative(), a * b, one_units());
}

/// The quotient of a doubled number is twice the quotient.
pub proof fn lemma_quotient_scaled(a: Double, aa: Double, b: Double)
    requires
        scaled(2, a, aa),
        !b.is_nan(),
        !b.is_zero(),
        b.is_finite() ==> keeps_digits(a.magnitude() * one_units(), b.magnitude()),
        (aa / b).is_finite(),
    ensures
        scaled(2, a / b, aa / b),
{
    broadcast use lemma_build;

    reveal(quotient_to);
    assert(decode(0) == 0);
    b.lemma_magnitude_positive();
    let m = a.magnitude();
    let one = one_units();
    assert((2 * m) * one == 2 * (m * one)) by (nonlinear_arith);
    if b.is_finite() {
        lemma_round_scaled(2, a.negative() != b.negative(), m * one, b.magnitude());
    }
}

/// The quotient of two multiples is that of the numbers.
pub proof fn lemma_quotient_same(factor: nat, a: Double, aa: Double, b: Double, bb: Double)
    requires
        factor > 0,
        scaled(factor, a, aa),
        scaled(factor, b, bb),
        !b.is_zero(),
    ensures
        aa / bb == a / b,
{
    reveal(quotient_to);
    b.lemma_magnitude_positive();
    let m = a.magnitude();
    let n = b.magnitude();
    let one = one_units();
    assert((factor * m) * one == (m * one) * factor) by (nonlinear_arith);
    assert(factor * n == n * factor) by (nonlinear_arith);
    assert(n * factor > 0) by (nonlinear_arith)
        requires
            n > 0,
            factor > 0,
    ;
    assert(decode(0) == 0);
    lemma_encode_scale(TOP as nat, m * one, n, factor);
}

/// Multiplying by two doubles a number.
pub proof fn lemma_doubled(x: Double)
    requires
        (x * ratio(2, 1)).is_finite(),
    ensures
        scaled(2, x, x * ratio(2, 1)),
{
    reveal(Double::times);
    lemma_exact_integer(2);
    lemma_pow2_pos(1074);
    let m = x.magnitude();
    let one = one_units();
    assert(one > 0);
    assert(ratio(2, 1).magnitude() == 2 * one);
    assert(m * (2 * one) == (2 * m) * one) by (nonlinear_arith);
    lemma_encode_scale(TOP as nat, 2 * m, 1, one);
    assert(1 * one == one);
    lemma_round_exact(x);
    lemma_round_scaled(2, x.negative(), m, 1);
}

/// The terms of a finite sum are finite.
pub proof fn lemma_sum_finite(a: Double, b: Double)
    requires
        (a + b).is_finite(),
    ensures
        a.is_finite(),
        b.is_finite(),
{
    reveal(sum_to);
}

/// The factors of a finite product are finite.
pub proof fn lemma_product_finite(a: Double, b: Double)
    requires
        (a * b).is_finite(),
    ensures
        a.is_finite(),
        b.is_finite(),
{
    broadcast use lemma_build;

    reveal(Double::times);
}

/// A finite quotient has a finite dividend.
pub proof fn lemma_quotient_finite(a: Double, b: Double)
    requires
        (a / b).is_finite(),
    ensures
        a.is_finite(),
{
    broadcast use lemma_build;

    reveal(quotient_to);
}

/// The numbers of a finite sum are finite.
pub proof fn lemma_total_finite(s: Seq<Double>, i: int)
    requires
        total(s).is_finite(),
        0 <= i < s.len(),
    ensures
        s[i].is_finite(),
    decreases s.len(),
{
    lemma_sum_finite(total(s.drop_last()), s.last());
    if i < s.len() - 1 {
        lemma_total_finite(s.drop_last(), i);
    }
}

/// A finite sum is as many times the sum as its numbers are.
pub proof fn lemma_total_scaled(factor: nat, s: Seq<Double>, t: Seq<Double>)
    requires
        factor == 2 || factor == 4,
        all_scaled(factor, s, t),
        total(t).is_finite(),
    ensures
        scaled(factor, total(s), total(t)),
    decreases s.len(),
{
    broadcast use lemma_build;

    if s.len() > 0 {
        let a = s.drop_last();
        let b = t.drop_last();
        assert forall|i: int| 0 <= i < a.len() implies scaled(factor, #[trigger] a[i], b[i]) by {
            assert(scaled(factor, s[i], t[i]));
        }
        assert(scaled(factor, s[s.len() - 1], t[s.len() - 1]));
        lemma_sum_finite(total(b), t.last());
        lemma_total_scaled(factor, a, b);
        lemma_sum_scaled(factor, total(a), total(b), s.last(), t.last());
    } else {
        assert(decode(0) == 0);
    }
}

} // verus!
