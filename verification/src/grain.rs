//! Numbers that are multiples of a power of two and not too large: their sums lose no
//! digits at the lower end of the range and do not leave it at the upper end.

use crate::arith::{quotient_to, sum_to};
use crate::convert::{lemma_exact, lemma_exact_integer};
use crate::double::{decode, lemma_build, one_units, ratio, round, Double, BINADE, TOP};
use crate::order::{no_sum, total};
use crate::precision::lemma_decode_ordered;
use crate::rounding::{encode, lemma_encode_monotone, lemma_encode_ordered, lemma_encode_scale, lemma_encode_zero};
use crate::scaling::keeps_digits;
use vstd::arithmetic::div_mod::*;
use vstd::arithmetic::power2::*;
use vstd::prelude::*;

verus! {

/// Whether a finite number is a multiple of two to the `grain` units, and its magnitude
/// at most a bound.
pub open spec fn grained(x: Double, grain: nat, bound: nat) -> bool {
    &&& x.is_finite()
    &&& x.magnitude() % pow2(grain) == 0
    &&& x.magnitude() <= bound
}

/// A larger code stands for no smaller magnitude.
pub proof fn lemma_magnitude_ordered(a: nat, b: nat)
    requires
        a <= b,
    ensures
        decode(a) <= decode(b),
{
    if a < b {
        lemma_decode_ordered(a, b);
    }
}

/// A large number is a multiple of a power of two.
pub proof fn lemma_multiple(x: Double, e: nat)
    requires
        x.is_finite(),
        x.magnitude() >= pow2(e + 52),
    ensures
        x.magnitude() % pow2(e) == 0,
{
    lemma2_to64();
    lemma2_to64_rest();
    lemma_pow2_pos(e);
    let code = x.code();
    let half = BINADE as nat;
    lemma_pow2_adds(e, 52);
    if code < half {
        assert(pow2(e) * half >= half) by (nonlinear_arith)
            requires
                pow2(e) >= 1,
        ;
    } else {
        let s = half + code % half;
        let k = (code / half - 1) as nat;
        assert(x.magnitude() == s * pow2(k));
        if k < e {
            lemma_pow2_adds(k, 1);
            if k + 1 < e {
                lemma_pow2_strictly_increases(k + 1, e);
            }
            let p = pow2(k);
            lemma_pow2_pos(k);
            assert(s * p < (2 * half) * p) by (nonlinear_arith)
                requires
                    s < 2 * half,
                    p > 0,
            ;
            assert((2 * half) * p == half * (p * 2)) by (nonlinear_arith);
            assert(half * (p * 2) <= pow2(e) * half) by (nonlinear_arith)
                requires
                    p * 2 <= pow2(e),
            ;
        }
        lemma_pow2_adds(e, (k - e) as nat);
        let q = pow2((k - e) as nat);
        assert(s * (pow2(e) * q) == (s * q) * pow2(e)) by (nonlinear_arith);
        lemma_mod_multiples_basic((s * q) as int, pow2(e) as int);
    }
}

/// A whole number of units that is a multiple of a power of two rounds to one, and to none
/// beyond a bound that is a number.
pub proof fn lemma_round_grained(negative: bool, n: nat, grain: nat, c: nat, h: nat)
    requires
        n % pow2(grain) == 0,
        n <= c * pow2(h),
        c < TOP,
        h <= 2045,
        grain <= 1900,
    ensures
        grained(round(negative, n, 1), grain, c * pow2(h)),
{
    broadcast use lemma_build;

    let top = TOP as nat;
    let b = c * pow2(h);
    lemma_exact(negative, c, h);
    lemma_encode_monotone(top, n, b, 1);
    let r = round(negative, n, 1);
    assert(r.is_finite());
    lemma_magnitude_ordered(encode(top, n, 1), encode(top, b, 1));
    let p = pow2(grain);
    lemma_pow2_pos(grain);
    lemma2_to64();
    lemma2_to64_rest();
    lemma_pow2_adds(52, grain);
    let limit = pow2(grain + 52);
    if n >= limit {
        lemma_exact(negative, BINADE as nat, grain);
        lemma_encode_monotone(top, limit, n, 1);
        lemma_magnitude_ordered(encode(top, limit, 1), encode(top, n, 1));
        lemma_multiple(r, grain);
    } else {
        let m = n / p;
        lemma_fundamental_div_mod(n as int, p as int);
        assert(m < BINADE) by (nonlinear_arith)
            requires
                n == p * m,
                n < BINADE * p,
        ;
        assert(n == m * p) by (nonlinear_arith)
            requires
                n == p * m,
        ;
        lemma_exact(negative, m, grain);
    }
}

/// Twice a multiple is a multiple.
pub proof fn lemma_double_grained(x: Double, grain: nat, h: nat)
    requires
        grained(x, grain, pow2(h)),
        h <= 2044,
        grain <= 1900,
    ensures
        grained(x * ratio(2, 1), grain, pow2(h + 1)),
{
    reveal(Double::times);
    lemma_exact_integer(2);
    let m = x.magnitude();
    let one = one_units();
    let p = pow2(grain) as int;
    lemma_pow2_pos(1074);
    lemma_pow2_pos(grain);
    lemma_pow2_unfold(h + 1);
    assert(m * (2 * one) == (2 * m) * one) by (nonlinear_arith);
    lemma_encode_scale(TOP as nat, 2 * m, 1, one);
    assert(1 * one == one);
    lemma_fundamental_div_mod(m as int, p);
    assert(2 * (p * (m as int / p)) == (2 * (m as int / p)) * p) by (nonlinear_arith);
    lemma_mod_multiples_basic(2 * (m as int / p), p);
    assert(1 * pow2(h + 1) == pow2(h + 1));
    lemma_round_grained(x.negative() != ratio(2, 1).negative(), 2 * m, grain, 1, h + 1);
}

/// Sums of multiples are multiples.
pub proof fn lemma_sum_grained(x: Double, y: Double, grain: nat, a: nat, b: nat, c: nat, h: nat)
    requires
        grained(x, grain, a),
        grained(y, grain, b),
        a + b <= c * pow2(h),
        c < TOP,
        h <= 2045,
        grain <= 1900,
    ensures
        grained(x + y, grain, c * pow2(h)),
{
    broadcast use lemma_build;

    reveal(sum_to);
    let p = pow2(grain) as int;
    lemma_pow2_pos(grain);
    let sum = x.value() + y.value();
    let m = x.magnitude() as int;
    let n = y.magnitude() as int;
    lemma_fundamental_div_mod(m, p);
    lemma_fundamental_div_mod(n, p);
    let i = m / p;
    let j = n / p;
    assert(p * i + p * j == (i + j) * p) by (nonlinear_arith);
    assert(p * i - p * j == (i - j) * p) by (nonlinear_arith);
    assert(p * j - p * i == (j - i) * p) by (nonlinear_arith);
    lemma_mod_multiples_basic(i + j, p);
    lemma_mod_multiples_basic(i - j, p);
    lemma_mod_multiples_basic(j - i, p);
    assert(decode(0) == 0);
    lemma_small_mod(0, pow2(grain));
    if sum < 0 {
        lemma_round_grained(true, (-sum) as nat, grain, c, h);
    } else if sum > 0 {
        lemma_round_grained(false, sum as nat, grain, c, h);
    }
}

/// A multiple of a power of two is one of a smaller power, within a larger bound.
pub proof fn lemma_coarser(x: Double, grain: nat, bound: nat, less: nat, more: nat)
    requires
        grained(x, grain, bound),
        less <= grain,
        bound <= more,
    ensures
        grained(x, less, more),
{
    let m = x.magnitude() as int;
    let p = pow2(grain) as int;
    lemma_pow2_pos(grain);
    lemma_pow2_pos(less);
    lemma_fundamental_div_mod(m, p);
    lemma_pow2_adds(less, (grain - less) as nat);
    let q = pow2(less) as int;
    let r = pow2((grain - less) as nat) as int;
    assert((q * r) * (m / p) == (r * (m / p)) * q) by (nonlinear_arith);
    lemma_mod_multiples_basic(r * (m / p), q);
}

/// Zero is a multiple of everything.
pub proof fn lemma_nothing_grained(x: Double, grain: nat, bound: nat)
    requires
        x.is_zero(),
    ensures
        grained(x, grain, bound),
{
    lemma_pow2_pos(grain);
    assert(decode(0) == 0);
    lemma_small_mod(0, pow2(grain));
}

/// The sum of some multiples is a multiple.
pub proof fn lemma_total_grained(s: Seq<Double>, grain: nat, h: nat)
    requires
        forall|i: int| 0 <= i < s.len() ==> grained(#[trigger] s[i], grain, pow2(h)),
        s.len() < TOP,
        h <= 2045,
        grain <= 1900,
    ensures
        grained(total(s), grain, s.len() * pow2(h)),
    decreases s.len(),
{
    broadcast use lemma_build;

    if s.len() == 0 {
        lemma_nothing_grained(no_sum(), grain, s.len() * pow2(h));
    } else {
        let rest = s.drop_last();
        assert forall|i: int| 0 <= i < rest.len() implies grained(#[trigger] rest[i], grain, pow2(h)) by {
            assert(rest[i] == s[i]);
        }
        lemma_total_grained(rest, grain, h);
        let n = rest.len();
        lemma_one_more(n, pow2(h));
        assert(grained(s[s.len() - 1], grain, pow2(h)));
        lemma_sum_grained(total(rest), s.last(), grain, n * pow2(h), pow2(h), n + 1, h);
    }
}

/// One more of something.
pub proof fn lemma_one_more(n: nat, p: nat)
    ensures
        n * p + p == (n + 1) * p,
{
    assert(n * p + p == (n + 1) * p) by (nonlinear_arith);
}

/// Fewer than two to the precision of something.
pub proof fn lemma_fewer(n: nat, h: nat)
    requires
        n < TOP,
    ensures
        n * pow2(h) <= pow2(h + 53),
{
    lemma2_to64();
    lemma2_to64_rest();
    lemma_pow2_adds(53, h);
    let p = pow2(h);
    assert(n * p <= TOP * p) by (nonlinear_arith)
        requires
            n < TOP,
    ;
}

/// The quotient of a multiple and a count loses no digits, is a multiple of a smaller power
/// of two, and is not larger.
pub proof fn lemma_share_grained(x: Double, count: nat, grain: nat, c: nat, h: nat)
    requires
        grained(x, grain, c * pow2(h)),
        0 < count < TOP,
        c < TOP,
        h <= 2045,
        105 <= grain <= 1900,
    ensures
        grained(x / ratio(count, 1), (grain - 105) as nat, c * pow2(h)),
        keeps_digits(x.magnitude() * one_units(), ratio(count, 1).magnitude()),
{
    broadcast use lemma_build;

    reveal(quotient_to);
    let top = TOP as nat;
    let one = one_units();
    let m = x.magnitude();
    let b = c * pow2(h);
    lemma_pow2_pos(1074);
    lemma_exact_integer(count);
    assert(count * one > 0) by (nonlinear_arith)
        requires
            count > 0,
            one > 0,
    ;
    if m == 0 {
        lemma_small_mod(0, count * one);
        lemma_encode_zero(top, count * one);
        assert(0 * one == 0);
        assert(decode(0) == 0);
        lemma_nothing_grained(x / ratio(count, 1), (grain - 105) as nat, b);
    } else {
        let negative = x.negative() != ratio(count, 1).negative();
        let r = round(negative, m * one, count * one);
        // At most the bound.
        lemma_exact(negative, c, h);
        assert((m * one) * 1 <= b * (count * one)) by (nonlinear_arith)
            requires
                m <= b,
                count >= 1,
        ;
        lemma_encode_ordered(top, m * one, count * one, b, 1);
        lemma_magnitude_ordered(encode(top, m * one, count * one), encode(top, b, 1));
        // At least the grain over the largest count.
        let p = pow2(grain);
        lemma_pow2_pos(grain);
        lemma_fundamental_div_mod(m as int, p as int);
        assert(m >= p) by (nonlinear_arith)
            requires
                m == p * (m as int / p as int),
                m > 0,
                p > 0,
        ;
        let e = (grain - 53) as nat;
        let q = pow2(e);
        lemma2_to64();
        lemma2_to64_rest();
        lemma_pow2_adds(53, e);
        assert(q * (count * one) <= (m * one) * 1) by (nonlinear_arith)
            requires
                m >= TOP * q,
                count <= TOP,
        ;
        lemma_pow2_adds(52, (e - 52) as nat);
        lemma_exact(negative, BINADE as nat, (e - 52) as nat);
        lemma_encode_ordered(top, q, 1, m * one, count * one);
        lemma_magnitude_ordered(encode(top, q, 1), encode(top, m * one, count * one));
        lemma_multiple(r, (e - 52) as nat);
        lemma_pow2_pos((e - 52) as nat);
        assert(BINADE * (count * one) <= m * one) by (nonlinear_arith)
            requires
                q == BINADE * pow2((e - 52) as nat),
                pow2((e - 52) as nat) >= 1,
                q * (count * one) <= (m * one) * 1,
                count * one > 0,
        ;
    }
}

/// The product of two multiples loses no digits and is bounded.
pub proof fn lemma_product_grained(x: Double, y: Double, grain: nat, h: nat)
    requires
        grained(x, grain, pow2(h)),
        grained(y, grain, pow2(h)),
        grain >= 563,
        537 <= h <= 1500,
    ensures
        keeps_digits(x.magnitude() * y.magnitude(), one_units()),
        grained(x * y, 0, pow2((2 * h - 1074) as nat)),
{
    broadcast use lemma_build;

    reveal(Double::times);
    let top = TOP as nat;
    let one = one_units();
    lemma_pow2_pos(1074);
    lemma2_to64();
    lemma2_to64_rest();
    let a = x.magnitude();
    let b = y.magnitude();
    let l = (2 * h - 1074) as nat;
    lemma_pow2_adds(h, h);
    lemma_pow2_adds(l, 1074);
    let v = pow2(h);
    assert(a * b <= v * v) by (nonlinear_arith)
        requires
            a <= v,
            b <= v,
    ;
    let negative = x.negative() != y.negative();
    lemma_exact(negative, 1, l);
    assert(1 * pow2(l) == pow2(l));
    assert((a * b) * 1 <= pow2(l) * one);
    lemma_encode_ordered(top, a * b, one, pow2(l), 1);
    lemma_magnitude_ordered(encode(top, a * b, one), encode(top, pow2(l), 1));
    if a == 0 || b == 0 {
        assert(a * b == 0) by (nonlinear_arith)
            requires
                a == 0 || b == 0,
        ;
        lemma_small_mod(0, one);
    } else {
        let p = pow2(grain);
        lemma_pow2_pos(grain);
        lemma_fundamental_div_mod(a as int, p as int);
        lemma_fundamental_div_mod(b as int, p as int);
        assert(a >= p) by (nonlinear_arith)
            requires
                a == p * (a as int / p as int),
                a > 0,
                p > 0,
        ;
        assert(b >= p) by (nonlinear_arith)
            requires
                b == p * (b as int / p as int),
                b > 0,
                p > 0,
        ;
        assert(a * b >= p * p) by (nonlinear_arith)
            requires
                a >= p,
                b >= p,
        ;
        lemma_pow2_adds(grain, grain);
        lemma_pow2_adds(52, 1074);
        if 2 * grain > 1126 {
            lemma_pow2_strictly_increases(1126, 2 * grain);
        }
    }
}

} // verus!
