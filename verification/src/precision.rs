//! What the arithmetic of doubles guarantees.

use crate::arith::{quotient_to, sum_to};
use crate::convert::{lemma_exact, lemma_exact_integer, lemma_scaled_mod};
use crate::double::{
    build, decode, lemma_encode_decode, lemma_rebuild, one_units, ratio, round, zero, Double, BINADE, INFINITE, TOP,
};
use crate::rounding::{
    encode, lemma_encode_low, lemma_encode_monotone, lemma_encode_ordered, lemma_encode_scale, lemma_encode_zero,
    lemma_nearest_high, lemma_quotient, nearest,
};
use vstd::arithmetic::div_mod::*;
use vstd::arithmetic::mul::*;
use vstd::arithmetic::power2::*;
use vstd::prelude::*;

verus! {

/// How far two numbers are from each other.
pub open spec fn apart(a: nat, b: nat) -> nat {
    if a < b {
        (b - a) as nat
    } else {
        (a - b) as nat
    }
}

/// The rounded quotient is the nearest integer, and the even one of two.
proof fn lemma_nearest_best(n: nat, d: nat, m: nat)
    requires
        d > 0,
    ensures
        apart(n, d * nearest(n, d)) <= apart(n, d * m),
        apart(n, d * nearest(n, d)) == apart(n, d * m) && m != nearest(n, d) ==> nearest(n, d) % 2
            == 0,
{
    let q = n / d;
    let r = n % d;
    lemma_fundamental_div_mod(n as int, d as int);
    assert(d * (q + 1) == d * q + d) by (nonlinear_arith);
    if m <= q {
        assert(d * m <= d * q) by (nonlinear_arith)
            requires
                m <= q,
        ;
        if m < q {
            assert(d * m + d <= d * q) by (nonlinear_arith)
                requires
                    m < q,
            ;
        }
    } else {
        assert(d * m >= d * q + d) by (nonlinear_arith)
            requires
                m > q,
        ;
        if m > q + 1 {
            assert(d * m >= d * q + 2 * d) by (nonlinear_arith)
                requires
                    m > q + 1,
            ;
        }
    }
}

/// Small codes stand for themselves.
proof fn lemma_decode_small(code: nat)
    requires
        code <= TOP,
    ensures
        decode(code) == code,
{
    lemma2_to64();
    if code == TOP {
        lemma_quotient(code, BINADE as nat, 2, 0);
        assert(BINADE * pow2(1) == TOP);
    } else if code >= BINADE {
        lemma_quotient(code, BINADE as nat, 1, (code - BINADE) as nat);
        assert(code * pow2(0) == code);
    }
}

/// The next binade doubles the number.
proof fn lemma_decode_double(code: nat)
    requires
        code >= BINADE,
    ensures
        decode(code + BINADE as nat) == 2 * decode(code),
{
    let q = code / (BINADE as nat);
    let r = code % (BINADE as nat);
    lemma_fundamental_div_mod(code as int, BINADE as int);
    assert(code + BINADE == (q + 1) * BINADE + r) by (nonlinear_arith)
        requires
            code == BINADE * q + r,
    ;
    lemma_quotient(code + BINADE as nat, BINADE as nat, q + 1, r);
    assert(q >= 1) by {
        if q == 0 {
            assert(BINADE * 0 == 0);
        }
    }
    lemma_pow2_unfold(q);
    let m = (BINADE + r) as nat;
    let h = pow2((q - 1) as nat);
    assert(m * (2 * h) == 2 * (m * h)) by (nonlinear_arith);
}

/// No code stands for a number that is nearer to a quotient than that of its rounding; of
/// two that are equally near, the rounding has the even code.
proof fn lemma_encode_best(n: nat, d: nat, code: nat)
    requires
        d > 0,
    ensures
        ({
            let best = encode(TOP as nat, n, d);
            let x = apart(n, d * decode(best));
            let y = apart(n, d * decode(code));
            x <= y && (x == y && code != best ==> best % 2 == 0)
        }),
    decreases n - d,
{
    let top = TOP as nat;
    if n < d * top {
        lemma_nearest_high(n, d, top);
        lemma_decode_small(nearest(n, d));
        lemma_nearest_best(n, d, decode(code));
        if code != nearest(n, d) && decode(code) == nearest(n, d) {
            lemma_decode_injective(code, nearest(n, d));
        }
    } else {
        let b = BINADE as nat;
        assert(d * top >= 2 * d) by (nonlinear_arith)
            requires
                top >= 2,
        ;
        assert(d * top == 2 * d * b) by (nonlinear_arith)
            requires
                top == 2 * b,
        ;
        let inner = encode(top, n, 2 * d);
        lemma_encode_low(top, n, 2 * d, b);
        lemma_decode_double(inner);
        assert(2 * d * decode(inner) == d * (2 * decode(inner))) by (nonlinear_arith);
        if code >= top {
            let c = (code - b) as nat;
            lemma_encode_best(n, 2 * d, c);
            lemma_decode_double(c);
            assert(2 * d * decode(c) == d * (2 * decode(c))) by (nonlinear_arith);
        } else {
            lemma_encode_best(n, 2 * d, b);
            lemma_decode_small(b);
            lemma_decode_small(code);
            assert(d * code < d * top) by (nonlinear_arith)
                requires
                    code < top,
                    d > 0,
            ;
        }
    }
}

/// A larger code stands for a larger number.
pub proof fn lemma_decode_ordered(a: nat, b: nat)
    requires
        a < b,
    ensures
        decode(a) < decode(b),
    decreases b,
{
    if b <= TOP {
        lemma_decode_small(a);
        lemma_decode_small(b);
    } else {
        let c = BINADE as nat;
        lemma_decode_double((b - c) as nat);
        if a >= TOP {
            lemma_decode_double((a - c) as nat);
            lemma_decode_ordered((a - c) as nat, (b - c) as nat);
        } else {
            lemma_decode_small(a);
            lemma_decode_ordered(c, (b - c) as nat);
            lemma_decode_small(c);
        }
    }
}

proof fn lemma_decode_injective(a: nat, b: nat)
    requires
        decode(a) == decode(b),
    ensures
        a == b,
{
    if a < b {
        lemma_decode_ordered(a, b);
    } else if b < a {
        lemma_decode_ordered(b, a);
    }
}

/// Rounding gives the nearest number: no other is nearer, and of two that are equally near
/// it gives the one whose last bit is zero.
pub proof fn lemma_round_nearest(negative: bool, n: nat, d: nat, other: Double)
    requires
        d > 0,
        round(negative, n, d).is_finite(),
    ensures
        ({
            let best = round(negative, n, d);
            let x = apart(n, d * best.magnitude());
            let y = apart(n, d * other.magnitude());
            x <= y && (x == y && other.code() != best.code() ==> best.code() % 2 == 0)
        }),
{
    lemma_encode_best(n, d, other.code());
}

/// The order of numbers is that of their values.
pub proof fn lemma_value_order(x: Double, y: Double)
    requires
        x.is_finite(),
        y.is_finite(),
    ensures
        x.lt(y) <==> x.value() < y.value(),
        x.le(y) <==> x.value() <= y.value(),
        x.same(y) <==> x.value() == y.value(),
{
    let a = x.code();
    let b = y.code();
    if a < b {
        lemma_decode_ordered(a, b);
    } else if b < a {
        lemma_decode_ordered(b, a);
    }
    if a > 0 {
        x.lemma_magnitude_positive();
    }
    if b > 0 {
        y.lemma_magnitude_positive();
    }
}

/// A whole number of units, rounded.
pub open spec fn rounded(value: int) -> Double {
    if value < 0 {
        round(true, (-value) as nat, 1)
    } else {
        round(false, value as nat, 1)
    }
}

/// Rounding keeps the order.
pub proof fn lemma_rounded_ordered(a: int, b: int)
    requires
        a <= b,
    ensures
        rounded(a).le(rounded(b)),
{
    let top = TOP as nat;
    if a >= 0 {
        lemma_encode_monotone(top, a as nat, b as nat, 1);
    } else if b < 0 {
        lemma_encode_monotone(top, (-b) as nat, (-a) as nat, 1);
    }
}

/// A finite number is its own rounding.
pub proof fn lemma_rounded_exact(x: Double)
    requires
        x.is_finite(),
    ensures
        rounded(x.value()).same(x),
{
    lemma_encode_decode(x.code());
    if x.code() > 0 {
        x.lemma_magnitude_positive();
    }
}

/// A sum of finite numbers is the rounding of the exact sum.
pub proof fn lemma_sum_rounded(x: Double, y: Double)
    requires
        x.is_finite(),
        y.is_finite(),
    ensures
        (x + y).same(rounded(x.value() + y.value())),
        !(x + y).is_nan(),
{
    reveal(sum_to);
    lemma_encode_zero(TOP as nat, 1);
}

/// Addition keeps the order.
pub proof fn lemma_sum_ordered(x: Double, y: Double, z: Double)
    requires
        x.is_finite(),
        y.is_finite(),
        z.is_finite(),
        x.le(y),
    ensures
        (x + z).le(y + z),
{
    lemma_value_order(x, y);
    lemma_sum_rounded(x, z);
    lemma_sum_rounded(y, z);
    lemma_rounded_ordered(x.value() + z.value(), y.value() + z.value());
}

/// Addition does not depend on the order of its terms.
pub proof fn lemma_sum_commutes(x: Double, y: Double)
    ensures
        x + y == y + x,
{
    reveal(sum_to);
    lemma_rebuild(x);
    lemma_rebuild(y);
}

/// Multiplication does not depend on the order of its factors.
pub proof fn lemma_product_commutes(x: Double, y: Double)
    ensures
        x * y == y * x,
{
    reveal(Double::times);
    lemma_mul_is_commutative(x.magnitude() as int, y.magnitude() as int);
}

/// The least remainder that is not negative lies between zero and the divisor.
pub proof fn lemma_rem_euclid_range(x: Double, y: Double)
    requires
        x.is_finite(),
        y.is_finite(),
        zero().lt(y),
    ensures
        zero().le(x.rem_euclid(y)),
        x.rem_euclid(y).le(y),
        x.rem_euclid(y).is_finite(),
{
    reveal(Double::rem_spec);
    let rest = x.rem(y);
    y.lemma_magnitude_positive();
    let m = x.magnitude() % y.magnitude();
    lemma_remainder_exact(x, y);
    lemma_value_order(zero(), rest);
    lemma_rebuild(y);
    assert(y.abs() == y);
    lemma_decode_small(0);
    if rest.lt(zero()) {
        lemma_value_order(rest, zero());
        let v = rest.value() + y.value();
        lemma_sum_rounded(rest, y);
        lemma_rounded_ordered(0, v);
        lemma_rounded_ordered(v, y.value());
        lemma_rounded_exact(y);
        lemma_rounded_exact(zero());
    } else {
        lemma_value_order(rest, y);
        lemma_value_order(rest, zero());
    }
}

/// A remainder is a number: it needs no rounding.
pub proof fn lemma_remainder_exact(x: Double, y: Double)
    requires
        x.is_finite(),
        y.is_finite(),
        y.code() > 0,
    ensures
        x.rem(y).is_finite(),
        x.rem(y).negative() == x.negative(),
        x.rem(y).magnitude() == x.magnitude() % y.magnitude(),
{
    reveal(Double::rem_spec);
    y.lemma_magnitude_positive();
    let m = x.magnitude() % y.magnitude();
    lemma_representable_remainder(x.code(), y.code());
    let c = choose|c: nat| c < INFINITE && decode(c) == m;
    lemma_encode_decode(c);
}

/// The remainder of two numbers is one.
proof fn lemma_representable_remainder(a: nat, b: nat)
    requires
        a < INFINITE,
        0 < b < INFINITE,
    ensures
        exists|c: nat| c < INFINITE && #[trigger] decode(c) == decode(a) % decode(b),
{
    let x = build(false, a);
    let y = build(false, b);
    y.lemma_magnitude_positive();
    if decode(a) < decode(b) {
        lemma_quotient(decode(a), decode(b), 0, decode(a));
        assert(decode(a) == decode(a) % decode(b));
    } else {
        // Both are multiples of the spacing of the smaller one, and so is the remainder,
        // which is smaller still.
        let q = b / (BINADE as nat);
        let k = if b < BINADE {
            0
        } else {
            (q - 1) as nat
        };
        let p = pow2(k);
        lemma_pow2_pos(k);
        lemma2_to64();
        let m = if b < BINADE {
            b
        } else {
            (BINADE + b % (BINADE as nat)) as nat
        };
        lemma_fundamental_div_mod(b as int, BINADE as int);
        assert(b * pow2(0) == b);
        assert(a * pow2(0) == a);
        assert(decode(b) == m * p);
        if a < b {
            lemma_decode_ordered(a, b);
        }
        let ka = if a < BINADE {
            0
        } else {
            (a / (BINADE as nat) - 1) as nat
        };
        let ma = if a < BINADE {
            a
        } else {
            (BINADE + a % (BINADE as nat)) as nat
        };
        lemma_div_is_ordered(b as int, a as int, BINADE as int);
        assert(ka >= k);
        lemma_pow2_adds((ka - k) as nat, k);
        let u = (ma * pow2((ka - k) as nat)) as nat;
        assert(decode(a) == u * p) by (nonlinear_arith)
            requires
                decode(a) == ma * (pow2((ka - k) as nat) * p),
                u == ma * pow2((ka - k) as nat),
        ;
        lemma_scaled_mod(u, m, p);
        let r = u % m;
        lemma_exact(false, r, k);
        let z = round(false, r * p, 1);
        assert(decode(z.code()) == decode(a) % decode(b));
    }
}

/// Half of a positive number is a number that is not larger; it is exact where the number
/// is an even number of units.
pub proof fn lemma_half(x: Double)
    requires
        x.is_finite(),
        !x.negative(),
    ensures
        (x / ratio(2, 1)).is_finite(),
        !(x / ratio(2, 1)).negative(),
        x.magnitude() % 2 == 0 ==> 2 * (x / ratio(2, 1)).magnitude() == x.magnitude(),
{
    reveal(quotient_to);
    let one = one_units();
    let m = x.magnitude();
    lemma_exact_integer(2);
    lemma_pow2_pos(1074);
    lemma_encode_scale(TOP as nat, m, 2, one);
    lemma_encode_decode(x.code());
    lemma_encode_ordered(TOP as nat, m, 2, m, 1);
    if m % 2 == 0 {
        let h = m / 2;
        lemma_encode_scale(TOP as nat, h, 1, 2);
        let code = x.code();
        if code < BINADE {
            lemma2_to64();
            assert(h * pow2(0) == h);
            lemma_exact(false, h, 0);
        } else {
            let s = (BINADE + code % (BINADE as nat)) as nat;
            let k = (code / (BINADE as nat) - 1) as nat;
            assert(k <= 2045);
            if k == 0 {
                lemma2_to64();
                assert(s * pow2(0) == s);
                assert(h * pow2(0) == h);
                lemma_exact(false, h, 0);
            } else {
                lemma_pow2_unfold(k);
                let p = pow2((k - 1) as nat);
                assert(s * (2 * p) == 2 * (s * p)) by (nonlinear_arith);
                lemma_exact(false, s, (k - 1) as nat);
            }
        }
    }
}

} // verus!
