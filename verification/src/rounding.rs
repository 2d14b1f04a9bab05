//! Rounding an exact quotient to the nearest binary floating-point number.
//!
//! Magnitudes are measured in units of the smallest positive number of the
//! format, so every finite magnitude is a natural number. The encoding of a
//! magnitude is the integer that the low bits of the format hold: the numbers
//! below the first binade encode themselves, and every further doubling of the
//! spacing adds half of `top` to the encoding, where `top` is two to the
//! precision. An encoding therefore grows with the number that it stands for.

use vstd::arithmetic::div_mod::*;
use vstd::arithmetic::mul::*;
use vstd::arithmetic::power2::*;
use vstd::bits::*;
use vstd::prelude::*;

verus! {

/// The integer nearest to `n / d`, the even one of two that are equally near.
pub open spec fn nearest(n: nat, d: nat) -> nat {
    let q = n / d;
    let r = n % d;
    if 2 * r > d || (2 * r == d && q % 2 == 1) {
        q + 1
    } else {
        q
    }
}

/// The encoding of `n / d` rounded to the nearest number whose significand lies
/// below `top`, ties to the even significand.
pub open spec fn encode(top: nat, n: nat, d: nat) -> nat
    decreases n - d,
{
    if d == 0 || top < 2 {
        0
    } else if n < d * top {
        nearest(n, d)
    } else {
        proof {
            assert(d * top >= 2 * d) by (nonlinear_arith)
                requires
                    top >= 2,
            ;
        }
        top / 2 + encode(top, n, 2 * d)
    }
}

/// A quotient and a remainder determine a division.
pub proof fn lemma_quotient(n: nat, d: nat, q: nat, r: nat)
    requires
        d > 0,
        r < d,
        n == q * d + r,
    ensures
        n / d == q,
        n % d == r,
{
    lemma_fundamental_div_mod_converse(n as int, d as int, q as int, r as int);
}

/// `nearest` does not depend on a common factor.
pub proof fn lemma_nearest_scale(n: nat, d: nat, c: nat)
    requires
        d > 0,
        c > 0,
    ensures
        nearest(n * c, d * c) == nearest(n, d),
        d * c > 0,
{
    let q = n / d;
    let r = n % d;
    lemma_fundamental_div_mod(n as int, d as int);
    assert(d * c > 0) by (nonlinear_arith)
        requires
            d > 0,
            c > 0,
    ;
    assert(n * c == q * (d * c) + r * c) by (nonlinear_arith)
        requires
            n == d * q + r,
    ;
    assert(r * c < d * c) by (nonlinear_arith)
        requires
            r < d,
            c > 0,
    ;
    lemma_quotient(n * c, d * c, q, r * c);
    assert(2 * (r * c) > d * c <==> 2 * r > d) by (nonlinear_arith)
        requires
            c > 0,
    ;
    assert(2 * (r * c) == d * c <==> 2 * r == d) by (nonlinear_arith)
        requires
            c > 0,
    ;
}

/// `encode` does not depend on a common factor.
pub proof fn lemma_encode_scale(top: nat, n: nat, d: nat, c: nat)
    requires
        d > 0,
        c > 0,
        top >= 2,
    ensures
        encode(top, n * c, d * c) == encode(top, n, d),
    decreases n - d,
{
    lemma_nearest_scale(n, d, c);
    assert(n * c < d * c * top <==> n < d * top) by (nonlinear_arith)
        requires
            c > 0,
    ;
    if n >= d * top {
        assert(d * top >= 2 * d) by (nonlinear_arith)
            requires
                top >= 2,
        ;
        lemma_encode_scale(top, n, 2 * d, c);
        assert(2 * (d * c) == 2 * d * c) by (nonlinear_arith);
    }
}

/// Zero rounds to zero.
pub proof fn lemma_encode_zero(top: nat, d: nat)
    requires
        d > 0,
        top >= 2,
    ensures
        encode(top, 0, d) == 0,
{
    lemma_quotient(0, d, 0, 0);
    assert(d * top > 0) by (nonlinear_arith)
        requires
            d > 0,
            top > 0,
    ;
}

/// Unrolls `encode` down to the binade that holds the quotient.
pub proof fn lemma_encode_unroll(top: nat, n: nat, d: nat, k: nat)
    requires
        d > 0,
        top >= 2,
        n < d * top * pow2(k),
        k > 0 ==> n >= d * top * pow2((k - 1) as nat),
    ensures
        encode(top, n, d) == k * (top / 2) + nearest(n, d * pow2(k)),
    decreases k,
{
    lemma2_to64();
    if k == 0 {
        assert(d * top * pow2(0) == d * top);
        assert(d * pow2(0) == d);
    } else {
        let p = pow2((k - 1) as nat);
        lemma_pow2_unfold(k);
        lemma_pow2_pos((k - 1) as nat);
        assert(d * top * p >= d * top) by (nonlinear_arith)
            requires
                p >= 1,
        ;
        assert(2 * d * top * p == d * top * (2 * p)) by (nonlinear_arith);
        assert(2 * d * p == d * (2 * p)) by (nonlinear_arith);
        if k > 1 {
            let pp = pow2((k - 2) as nat);
            lemma_pow2_unfold((k - 1) as nat);
            assert(2 * d * top * pp == d * top * (2 * pp)) by (nonlinear_arith);
        }
        lemma_encode_unroll(top, n, 2 * d, (k - 1) as nat);
        assert((k - 1) * (top / 2) + top / 2 == k * (top / 2)) by (nonlinear_arith);
    }
}

/// A quotient that is not below a whole number does not round below it.
proof fn lemma_nearest_low(n: nat, d: nat, m: nat)
    requires
        d > 0,
        n >= d * m,
    ensures
        nearest(n, d) >= m,
{
    lemma_fundamental_div_mod(n as int, d as int);
    let q = n / d;
    if q < m {
        assert(d * q + d <= d * m) by (nonlinear_arith)
            requires
                q < m,
        ;
    }
}

/// A quotient below a whole number does not round above it.
pub(crate) proof fn lemma_nearest_high(n: nat, d: nat, m: nat)
    requires
        d > 0,
        n < d * m,
    ensures
        nearest(n, d) <= m,
{
    lemma_fundamental_div_mod(n as int, d as int);
    let q = n / d;
    if q >= m {
        assert(d * q >= d * m) by (nonlinear_arith)
            requires
                q >= m,
        ;
    }
}

/// A larger quotient rounds to no smaller integer.
pub proof fn lemma_nearest_monotone(a: nat, b: nat, d: nat)
    requires
        d > 0,
        a <= b,
    ensures
        nearest(a, d) <= nearest(b, d),
{
    lemma_fundamental_div_mod(a as int, d as int);
    lemma_fundamental_div_mod(b as int, d as int);
    lemma_div_is_ordered(a as int, b as int, d as int);
    if a / d < b / d {
        lemma_nearest_low(b, d, b / d);
        assert(d * (b / d) >= d * (a / d) + d) by (nonlinear_arith)
            requires
                a / d < b / d,
        ;
    }
}

/// A quotient that is not below a whole number within the precision does not round below
/// its encoding.
pub(crate) proof fn lemma_encode_low(top: nat, n: nat, d: nat, m: nat)
    requires
        d > 0,
        top >= 2,
        top % 2 == 0,
        m <= top,
        n >= d * m,
    ensures
        encode(top, n, d) >= m,
    decreases n - d,
{
    if n < d * top {
        lemma_nearest_low(n, d, m);
    } else {
        let half = top / 2;
        assert(d * top >= 2 * d) by (nonlinear_arith)
            requires
                top >= 2,
        ;
        assert(d * top == 2 * d * half) by (nonlinear_arith)
            requires
                top == 2 * half,
        ;
        lemma_encode_low(top, n, 2 * d, half);
    }
}

/// A larger number rounds to no smaller one.
pub proof fn lemma_encode_monotone(top: nat, a: nat, b: nat, d: nat)
    requires
        d > 0,
        top >= 2,
        top % 2 == 0,
        a <= b,
    ensures
        encode(top, a, d) <= encode(top, b, d),
    decreases b - d,
{
    if b < d * top {
        lemma_nearest_monotone(a, b, d);
    } else {
        assert(d * top >= 2 * d) by (nonlinear_arith)
            requires
                top >= 2,
        ;
        if a < d * top {
            lemma_nearest_high(a, d, top);
            lemma_encode_low(top, b, d, top);
        } else {
            lemma_encode_monotone(top, a, b, 2 * d);
        }
    }
}

/// A larger fraction rounds to no smaller number.
pub proof fn lemma_encode_ordered(top: nat, a: nat, b: nat, c: nat, d: nat)
    requires
        b > 0,
        d > 0,
        top >= 2,
        top % 2 == 0,
        a * d <= c * b,
    ensures
        encode(top, a, b) <= encode(top, c, d),
{
    lemma_encode_scale(top, a, b, d);
    lemma_encode_scale(top, c, d, b);
    assert(b * d == d * b) by (nonlinear_arith);
    lemma_mul_strictly_positive(b as int, d as int);
    lemma_encode_monotone(top, a * d, c * b, b * d);
}

/// Rounding of an exact value that is known only to lie in `[m, m + 1)` units of
/// `u`, and whether it is exactly `m` of them.
proof fn lemma_nearest_bracket(value: nat, u: nat, m: nat, half: nat, q: nat, r: nat, exact: bool)
    requires
        u > 0,
        half > 0,
        m == q * (2 * half) + r,
        r < 2 * half,
        m * u <= value < (m + 1) * u,
        exact <==> value == m * u,
    ensures
        nearest(value, 2 * half * u) == if r > half || (r == half && (!exact || q % 2 == 1)) {
            q + 1
        } else {
            q
        },
{
    let s = 2 * half;
    let rem = (value - q * (s * u)) as nat;
    assert(m * u == q * (s * u) + r * u) by (nonlinear_arith)
        requires
            m == q * s + r,
    ;
    assert((m + 1) * u == q * (s * u) + (r + 1) * u) by (nonlinear_arith)
        requires
            m == q * s + r,
    ;
    assert(rem >= r * u && rem < (r + 1) * u);
    assert((r + 1) * u <= s * u) by (nonlinear_arith)
        requires
            r + 1 <= s,
    ;
    assert(s * u > 0) by (nonlinear_arith)
        requires
            s > 0,
            u > 0,
    ;
    lemma_quotient(value, s * u, q, rem);
    assert(s * u == 2 * (half * u)) by (nonlinear_arith)
        requires
            s == 2 * half,
    ;
    if r > half {
        assert(r * u >= half * u + u) by (nonlinear_arith)
            requires
                r >= half + 1,
        ;
    } else if r < half {
        assert((r + 1) * u <= half * u) by (nonlinear_arith)
            requires
                r + 1 <= half,
        ;
    }
}

/// Two to the power of `s`.
pub(crate) fn power_of_two(s: u32) -> (r: u128)
    requires
        s < 128,
    ensures
        r == pow2(s as nat),
{
    proof {
        lemma_shift_one(s);
    }
    1u128 << s
}

proof fn lemma_shift_one(s: u32)
    requires
        s < 128,
    ensures
        1u128 << s == pow2(s as nat),
    decreases s,
{
    if s == 0 {
        lemma2_to64();
        assert(1u128 << 0u32 == 1u128) by (bit_vector);
    } else {
        let t = (s - 1) as u32;
        lemma_shift_one(t);
        lemma_pow2_unfold(s as nat);
        assert(0u32 < s < 128u32 && t == s - 1 ==> 1u128 << s == 2 * (1u128 << t)) by (bit_vector);
    }
}

/// `m` lies between `x` and `x + 1` units of two to the `n`.
#[verifier::opaque]
spec fn spans(m: nat, x: nat, n: nat) -> bool {
    x * pow2(n) <= m < (x + 1) * pow2(n)
}

/// Dropping `s` digits of `x` keeps the span.
proof fn lemma_spans_drop(m: nat, x: nat, n: nat, s: nat)
    requires
        spans(m, x, n),
    ensures
        spans(m, x / pow2(s), n + s),
{
    reveal(spans);
    let c = pow2(s);
    let p = pow2(n);
    let y = x / c;
    let z = x % c;
    lemma_pow2_pos(s);
    lemma_pow2_adds(n, s);
    lemma_fundamental_div_mod(x as int, c as int);
    assert(y * (p * c) <= x * p) by (nonlinear_arith)
        requires
            x == c * y + z,
    ;
    assert(x + 1 <= (y + 1) * c) by (nonlinear_arith)
        requires
            x == c * y + z,
            z + 1 <= c,
    ;
    assert((x + 1) * p <= (y + 1) * (p * c)) by (nonlinear_arith)
        requires
            x + 1 <= (y + 1) * c,
    ;
}

proof fn lemma_spans_one(m: nat, n: nat)
    requires
        spans(m, 1, n),
    ensures
        pow2(n) <= m < pow2(n + 1),
{
    reveal(spans);
    lemma_pow2_unfold(n + 1);
}

/// The number of binary digits of `m`.
pub(crate) fn bit_length(m: u128) -> (r: u32)
    requires
        m > 0,
    ensures
        1 <= r <= 128,
        pow2((r - 1) as nat) <= m < pow2(r as nat),
{
    proof {
        lemma2_to64();
        lemma2_to64_rest();
        assert(spans(m as nat, m as nat, 0)) by {
            reveal(spans);
        }
    }
    let mut x: u128 = m;
    let mut n: u32 = 0;
    if x >= 0x1_0000_0000_0000_0000 {
        proof {
            lemma_spans_drop(m as nat, x as nat, n as nat, 64);
        }
        x = x / 0x1_0000_0000_0000_0000;
        n = n + 64;
    }
    if x >= 0x1_0000_0000 {
        proof {
            lemma_spans_drop(m as nat, x as nat, n as nat, 32);
        }
        x = x / 0x1_0000_0000;
        n = n + 32;
    }
    if x >= 0x1_0000 {
        proof {
            lemma_spans_drop(m as nat, x as nat, n as nat, 16);
        }
        x = x / 0x1_0000;
        n = n + 16;
    }
    if x >= 0x100 {
        proof {
            lemma_spans_drop(m as nat, x as nat, n as nat, 8);
        }
        x = x / 0x100;
        n = n + 8;
    }
    if x >= 0x10 {
        proof {
            lemma_spans_drop(m as nat, x as nat, n as nat, 4);
        }
        x = x / 0x10;
        n = n + 4;
    }
    if x >= 4 {
        proof {
            lemma_spans_drop(m as nat, x as nat, n as nat, 2);
        }
        x = x / 4;
        n = n + 2;
    }
    if x >= 2 {
        proof {
            lemma_spans_drop(m as nat, x as nat, n as nat, 1);
        }
        x = x / 2;
        n = n + 1;
    }
    proof {
        lemma_spans_one(m as nat, n as nat);
    }
    n + 1
}

/// The value that a bracket `(m, e)` of `n / d` describes: `n / d`, in units of
/// two to the minus `base`, lies in `[m, m + 1)` times two to the `e`, and is the
/// lower end exactly when `sticky` is not set.
pub open spec fn brackets(n: nat, d: nat, base: nat, m: nat, e: nat, sticky: bool) -> bool {
    &&& d > 0
    &&& m * (pow2(e) * d) <= n * pow2(base) < (m + 1) * (pow2(e) * d)
    &&& sticky <==> n * pow2(base) != m * (pow2(e) * d)
}

/// How far the spacing of the result exceeds the smallest one.
proof fn lemma_bracket_binade(n: nat, d: nat, base: nat, p: nat, m: nat, e: nat, len: nat, k: nat, sticky: bool)
    requires
        brackets(n, d, base, m, e, sticky),
        len > 0,
        p > 0,
        pow2((len - 1) as nat) <= m < pow2(len),
        k == if len + e > base + p { (len + e - base - p) as nat } else { 0 },
    ensures
        n < d * pow2(p) * pow2(k),
        k > 0 ==> n >= d * pow2(p) * pow2((k - 1) as nat),
{
    let w = pow2(base);
    let u = pow2(e) * d;
    lemma_pow2_pos(base);
    lemma_pow2_pos(e);
    // Upper bound: n * w < (m + 1) * u <= pow2(len) * pow2(e) * d <= d * pow2(p + k + base).
    assert((m + 1) * u <= pow2(len) * u) by (nonlinear_arith)
        requires
            m + 1 <= pow2(len),
    ;
    lemma_pow2_adds(len, e);
    assert(pow2(len) * u == d * pow2(len + e)) by (nonlinear_arith)
        requires
            u == pow2(e) * d,
            pow2(len + e) == pow2(len) * pow2(e),
    ;
    if len + e < base + p + k {
        lemma_pow2_strictly_increases(len + e, base + p + k);
    }
    lemma_pow2_adds(base, p + k);
    lemma_pow2_adds(p, k);
    assert(pow2(base + (p + k)) == pow2(base + p + k));
    assert(d * pow2(len + e) <= (d * pow2(p) * pow2(k)) * w) by (nonlinear_arith)
        requires
            pow2(len + e) <= w * (pow2(p) * pow2(k)),
    ;
    assert(n < d * pow2(p) * pow2(k)) by (nonlinear_arith)
        requires
            n * w < (d * pow2(p) * pow2(k)) * w,
            w > 0,
    ;
    if k > 0 {
        let kk = (k - 1) as nat;
        assert(pow2((len - 1) as nat) * u <= m * u) by (nonlinear_arith)
            requires
                pow2((len - 1) as nat) <= m,
        ;
        lemma_pow2_adds((len - 1) as nat, e);
        assert(pow2((len - 1) as nat) * u == d * pow2((len - 1 + e) as nat)) by (nonlinear_arith)
            requires
                u == pow2(e) * d,
                pow2((len - 1 + e) as nat) == pow2((len - 1) as nat) * pow2(e),
        ;
        lemma_pow2_adds(base, p + kk);
        lemma_pow2_adds(p, kk);
        assert((len - 1 + e) as nat == base + (p + kk));
        assert(d * pow2((len - 1 + e) as nat) == (d * pow2(p) * pow2(kk)) * w) by (nonlinear_arith)
            requires
                pow2((len - 1 + e) as nat) == w * (pow2(p) * pow2(kk)),
        ;
        assert(n >= d * pow2(p) * pow2(kk)) by (nonlinear_arith)
            requires
                n * w >= (d * pow2(p) * pow2(kk)) * w,
                w > 0,
        ;
    }
}

/// Rounding a bracket whose lower end has more digits than the result keeps.
proof fn lemma_bracket_drop(n: nat, d: nat, base: nat, m: nat, e: nat, sticky: bool, k: nat, s: nat)
    requires
        brackets(n, d, base, m, e, sticky),
        s > 0,
        s + e == k + base,
    ensures
        nearest(n, d * pow2(k)) == {
            let q = m / pow2(s);
            let r = m % pow2(s);
            let half = pow2((s - 1) as nat);
            if r > half || (r == half && (sticky || q % 2 == 1)) {
                q + 1
            } else {
                q
            }
        },
{
    let w = pow2(base);
    let u = pow2(e) * d;
    let half = pow2((s - 1) as nat);
    let q = m / pow2(s);
    let r = m % pow2(s);
    lemma_pow2_pos(base);
    lemma_pow2_pos(e);
    lemma_pow2_pos(k);
    lemma_pow2_pos((s - 1) as nat);
    lemma_pow2_unfold(s);
    lemma_fundamental_div_mod(m as int, pow2(s) as int);
    assert(u > 0) by (nonlinear_arith)
        requires
            u == pow2(e) * d,
            pow2(e) > 0,
            d > 0,
    ;
    assert(m == q * (2 * half) + r) by (nonlinear_arith)
        requires
            m == pow2(s) * q + r,
            pow2(s) == 2 * half,
    ;
    lemma_nearest_bracket(n * w, u, m, half, q, r, !sticky);
    assert(d * pow2(k) > 0) by (nonlinear_arith)
        requires
            d > 0,
            pow2(k) > 0,
    ;
    lemma_nearest_scale(n, d * pow2(k), w);
    lemma_pow2_adds(s, e);
    lemma_pow2_adds(k, base);
    assert(d * pow2(k) * w == 2 * half * u) by (nonlinear_arith)
        requires
            pow2(s) == 2 * half,
            u == pow2(e) * d,
            pow2(s) * pow2(e) == pow2(k) * w,
    ;
}

/// Rounding a bracket whose lower end has no more digits than the result keeps:
/// the value is that end, and it is exact.
proof fn lemma_bracket_keep(n: nat, d: nat, base: nat, m: nat, e: nat, k: nat, s: nat)
    requires
        brackets(n, d, base, m, e, false),
        e == k + base + s,
    ensures
        nearest(n, d * pow2(k)) == m * pow2(s),
{
    let w = pow2(base);
    lemma_pow2_pos(base);
    lemma_pow2_pos(k);
    lemma_pow2_adds(k, base);
    lemma_pow2_adds(k + base, s);
    let big = d * pow2(k);
    assert(big > 0) by (nonlinear_arith)
        requires
            d > 0,
            pow2(k) > 0,
            big == d * pow2(k),
    ;
    assert(n * w == m * pow2(s) * big * w) by (nonlinear_arith)
        requires
            n * w == m * (pow2(e) * d),
            pow2(e) == pow2(k) * w * pow2(s),
            big == d * pow2(k),
    ;
    assert(n == m * pow2(s) * big) by (nonlinear_arith)
        requires
            n * w == m * pow2(s) * big * w,
            w > 0,
    ;
    lemma_quotient(n, big, m * pow2(s), 0);
}

/// Rounds a bracketed quotient to `p` binary digits and gives its encoding, or
/// `cap`, the encoding of infinity, where that is smaller.
pub(crate) fn round_parts(
    p: u32,
    base: u32,
    cap: u64,
    m: u128,
    e: u32,
    sticky: bool,
    Ghost(n): Ghost<nat>,
    Ghost(d): Ghost<nat>,
) -> (r: u64)
    requires
        2 <= p <= 53,
        base <= 10000,
        e <= 10000,
        cap <= 2047 * pow2((p - 1) as nat),
        m < pow2(127),
        sticky ==> m >= pow2(p as nat),
        brackets(n, d, base as nat, m as nat, e as nat, sticky),
    ensures
        r == if encode(pow2(p as nat), n, d) < cap {
            encode(pow2(p as nat), n, d)
        } else {
            cap as nat
        },
{
    let ghost top = pow2(p as nat);
    proof {
        lemma2_to64();
        lemma2_to64_rest();
        lemma_pow2_pos(e as nat);
        lemma_pow2_pos(base as nat);
        lemma_pow2_pos((p - 1) as nat);
        lemma_pow2_unfold(p as nat);
        if p < 53 {
            lemma_pow2_strictly_increases(p as nat, 53);
        }
    }
    if m == 0 {
        proof {
            assert(n == 0) by (nonlinear_arith)
                requires
                    n * pow2(base as nat) == 0 * (pow2(e as nat) * d),
                    pow2(base as nat) > 0,
            ;
            assert(d * top > 0) by (nonlinear_arith)
                requires
                    d > 0,
                    top > 0,
            ;
            lemma_quotient(0, d, 0, 0);
        }
        return 0;
    }
    let len = bit_length(m);
    let k: u32 = if len + e > base + p {
        len + e - base - p
    } else {
        0
    };
    proof {
        lemma_bracket_binade(n, d, base as nat, p as nat, m as nat, e as nat, len as nat, k as nat, sticky);
        lemma_encode_unroll(top, n, d, k as nat);
        if len < p + 1 && sticky {
            if len < p {
                lemma_pow2_strictly_increases(len as nat, p as nat);
            }
        }
    }
    if k >= 2047 {
        proof {
            assert(k * (top / 2) >= 2047 * (top / 2)) by (nonlinear_arith)
                requires
                    k >= 2047,
            ;
        }
        return cap;
    }
    let q: u64;
    if k + base > e {
        let s: u32 = k + base - e;
        proof {
            lemma_bracket_drop(n, d, base as nat, m as nat, e as nat, sticky, k as nat, s as nat);
        }
        if s >= 128 {
            proof {
                if s > 128 {
                    lemma_pow2_strictly_increases(127, (s - 1) as nat);
                }
                lemma_pow2_strictly_increases(127, s as nat);
                lemma_quotient(m as nat, pow2(s as nat), 0, m as nat);
            }
            q = 0;
        } else {
            let unit = power_of_two(s);
            let half = power_of_two(s - 1);
            let low = m >> s;
            proof {
                lemma_u128_shr_is_div(m, s as u128);
                lemma_pow2_pos(s as nat);
                lemma_fundamental_div_mod(m as int, unit as int);
                assert(low < pow2(p as nat)) by {
                    assert(len <= p + s);
                    if len < p + s {
                        lemma_pow2_strictly_increases(len as nat, (p + s) as nat);
                    }
                    lemma_pow2_adds(p as nat, s as nat);
                    assert(low < pow2(p as nat)) by (nonlinear_arith)
                        requires
                            unit * low <= m,
                            m < pow2(p as nat) * unit,
                            unit > 0,
                    ;
                }
                assert(unit * low == low * unit) by (nonlinear_arith);
            }
            let rest = m - low * unit;
            let up = rest > half || (rest == half && (sticky || low % 2 == 1));
            q = if up {
                low as u64 + 1
            } else {
                low as u64
            };
        }
    } else {
        let s: u32 = e - k - base;
        proof {
            assert(!sticky);
            assert(len + s <= p);
            lemma_bracket_keep(n, d, base as nat, m as nat, e as nat, k as nat, s as nat);
            lemma_pow2_adds(len as nat, s as nat);
            if len + s < p {
                lemma_pow2_strictly_increases((len + s) as nat, p as nat);
            }
            lemma_pow2_pos(s as nat);
            assert(m * pow2(s as nat) < pow2(p as nat)) by (nonlinear_arith)
                requires
                    m < pow2(len as nat),
                    pow2(len as nat) * pow2(s as nat) <= pow2(p as nat),
                    pow2(s as nat) > 0,
            ;
        }
        let unit = power_of_two(s);
        q = (m * unit) as u64;
    }
    let step: u64 = power_of_two(p - 1) as u64;
    proof {
        assert(k * step <= 2046 * step) by (nonlinear_arith)
            requires
                k <= 2046,
        ;
        assert(k * (top / 2) == k * step);
    }
    let code: u64 = k as u64 * step + q;
    if code < cap {
        code
    } else {
        cap
    }
}

} // verus!
