//! Decimal numerals and the doubles nearest to them.

use crate::arith::{round_double, BASE};
use crate::double::{build, one_units, round, Double, INFINITE, TOP};
use crate::natural::Natural;
use crate::rounding::{brackets, encode, lemma_encode_zero, lemma_quotient};
use vstd::arithmetic::mul::*;
use vstd::arithmetic::power2::*;
use vstd::prelude::*;

verus! {

/// A power of ten.
pub open spec fn ten(k: nat) -> nat
    decreases k,
{
    if k == 0 {
        1
    } else {
        10 * ten((k - 1) as nat)
    }
}

/// The number that a sequence of decimal digits writes.
pub open spec fn digits_value(digits: Seq<u8>) -> nat
    decreases digits.len(),
{
    if digits.len() == 0 {
        0
    } else {
        10 * digits_value(digits.drop_last()) + digits.last() as nat
    }
}

/// The double nearest to `significand` times ten to the `exponent`.
pub open spec fn decimal(negative: bool, significand: nat, exponent: int) -> Double {
    if exponent >= 0 {
        round(negative, significand * ten(exponent as nat) * one_units(), 1)
    } else {
        round(negative, significand * one_units(), ten((-exponent) as nat))
    }
}

proof fn lemma_ten_pow2(k: nat)
    ensures
        pow2(k) <= ten(k) <= pow2(4 * k),
        ten(k) > 0,
    decreases k,
{
    lemma2_to64();
    if k > 0 {
        lemma_ten_pow2((k - 1) as nat);
        lemma_pow2_unfold(k);
        lemma_pow2_adds(4, (4 * (k - 1)) as nat);
    }
}

proof fn lemma_ten_adds(a: nat, b: nat)
    ensures
        ten(a + b) == ten(a) * ten(b),
    decreases a,
{
    if a == 0 {
        assert(1 * ten(b) == ten(b));
    } else {
        lemma_ten_adds((a - 1) as nat, b);
        let x = ten((a - 1) as nat);
        let y = ten(b);
        assert(10 * (x * y) == (10 * x) * y) by (nonlinear_arith);
    }
}

proof fn lemma_digits_bound(digits: Seq<u8>)
    requires
        forall|i: int| 0 <= i < digits.len() ==> digits[i] <= 9,
    ensures
        digits_value(digits) < ten(digits.len()),
    decreases digits.len(),
{
    if digits.len() > 0 {
        lemma_digits_bound(digits.drop_last());
    }
}

/// What lies beyond every double rounds to infinity.
proof fn lemma_encode_huge(n: nat, d: nat, k: nat)
    requires
        d > 0,
        n >= d * pow2(k) * TOP,
    ensures
        encode(TOP as nat, n, d) >= k * (TOP as nat / 2),
    decreases k,
{
    if k > 0 {
        lemma_pow2_unfold(k);
        let h = pow2((k - 1) as nat);
        lemma_pow2_pos((k - 1) as nat);
        assert(d * (2 * h) * TOP == (2 * d) * h * TOP) by (nonlinear_arith);
        assert(d * (2 * h) * TOP >= d * TOP) by (nonlinear_arith)
            requires
                h >= 1,
                d > 0,
        ;
        lemma_encode_huge(n, 2 * d, (k - 1) as nat);
        let half = TOP as nat / 2;
        assert(n >= d * (TOP as nat));
        assert(encode(TOP as nat, n, d) == half + encode(TOP as nat, n, 2 * d));
        assert(k * half == (k - 1) * half + half) by (nonlinear_arith)
            requires
                k > 0,
        ;
    } else {
        assert(0 * (TOP as nat / 2) == 0);
    }
}

/// A fraction that exceeds two to the 2200 rounds to infinity.
proof fn lemma_infinite(negative: bool, a: nat, b: nat)
    requires
        b > 0,
        a >= b * pow2(2200),
    ensures
        round(negative, a * one_units(), b) == build(negative, INFINITE as nat),
{
    let one = one_units();
    lemma2_to64();
    lemma2_to64_rest();
    lemma_pow2_adds(2200, 1074);
    lemma_pow2_adds(2047, 1174);
    lemma_pow2_adds(53, 2047);
    lemma_pow2_adds(2100, 1174);
    lemma_pow2_pos(1174);
    let x = pow2(2200);
    let z = pow2(2047);
    let y = pow2(1174);
    assert(x * one == TOP * z * y);
    assert(a * one >= b * (x * one)) by (nonlinear_arith)
        requires
            a >= b * x,
    ;
    assert(b * (x * one) >= b * z * TOP) by (nonlinear_arith)
        requires
            x * one == TOP * z * y,
            y >= 1,
    ;
    lemma_encode_huge(a * one, b, 2047);
}

/// A fraction below two to the minus 1100 rounds to zero.
proof fn lemma_vanishing(negative: bool, a: nat, b: nat)
    requires
        b > 0,
        a * pow2(1100) <= b,
    ensures
        round(negative, a * one_units(), b) == build(negative, 0),
{
    let one = one_units();
    lemma2_to64();
    lemma_pow2_adds(1074, 26);
    lemma_pow2_pos(1074);
    if a == 0 {
        assert(0 * one == 0);
        lemma_encode_zero(TOP as nat, b);
    } else {
        assert(a * (one * 0x400_0000) == (a * one) * 0x400_0000) by (nonlinear_arith);
        lemma_mul_strictly_positive(a as int, one as int);
        assert(b * TOP >= b) by (nonlinear_arith);
        lemma_quotient(a * one, b, 0, a * one);
    }
}

/// Beyond the range of doubles the exponent does not matter.
pub proof fn lemma_decimal_bounded(negative: bool, digits: Seq<u8>, x: int, y: int)
    requires
        forall|i: int| 0 <= i < digits.len() ==> digits[i] <= 9,
        x == y || (x >= 2200 && y >= 2200) || (x <= -2200 - digits.len() && y <= -2200 - digits.len()),
    ensures
        decimal(negative, digits_value(digits), x) == decimal(negative, digits_value(digits), y),
{
    if x != y {
        lemma_decimal_extreme(negative, digits, x);
        lemma_decimal_extreme(negative, digits, y);
    }
}

/// A numeral with an exponent beyond the range of doubles is infinite or zero.
proof fn lemma_decimal_extreme(negative: bool, digits: Seq<u8>, e: int)
    requires
        forall|i: int| 0 <= i < digits.len() ==> digits[i] <= 9,
        e >= 2200 || e <= -2200 - digits.len(),
    ensures
        decimal(negative, digits_value(digits), e) == if digits_value(digits) > 0 && e > 0 {
            build(negative, INFINITE as nat)
        } else {
            build(negative, 0)
        },
{
    let v = digits_value(digits);
    let one = one_units();
    if e > 0 {
        let k = e as nat;
        lemma_ten_pow2(k);
        if v > 0 {
            if k > 2200 {
                lemma_pow2_strictly_increases(2200, k);
            }
            assert(v * ten(k) >= 1 * pow2(2200)) by (nonlinear_arith)
                requires
                    v >= 1,
                    ten(k) >= pow2(2200),
            ;
            lemma_infinite(negative, v * ten(k), 1);
        } else {
            assert(0 * ten(k) == 0);
            assert(0 * one == 0);
            lemma_encode_zero(TOP as nat, 1);
        }
    } else {
        let k = (-e) as nat;
        let n = digits.len();
        let rest = (k - n) as nat;
        lemma_digits_bound(digits);
        lemma_ten_pow2(k);
        lemma_ten_adds(n, rest);
        lemma_ten_pow2(rest);
        lemma_pow2_strictly_increases(1100, rest);
        assert(v * pow2(1100) <= ten(n) * ten(rest)) by (nonlinear_arith)
            requires
                v <= ten(n),
                pow2(1100) <= ten(rest),
        ;
        lemma_vanishing(negative, v, ten(k));
    }
}

/// Rounds the fraction `a / b`.
fn divide(negative: bool, a: Natural, b: Natural) -> (r: Double)
    requires
        a@ > 0,
        b@ > 0,
        a.size() + 5000 <= usize::MAX,
        b.size() + 5000 <= usize::MAX,
    ensures
        r == round(negative, a@ * one_units(), b@),
{
    let ghost n = a@;
    let ghost d = b@;
    let ghost size_a = a.size();
    let ghost size_b = b.size();
    let mut a = a;
    let mut b = b;
    let mut down: u32 = 0;
    let mut up: u32 = 0;
    proof {
        lemma2_to64();
        assert(n * pow2(0) == n);
        assert(d * pow2(0) == d);
    }
    while down < 2201 && !a.less(&b)
        invariant
            down <= 2201,
            a@ == n,
            b@ == d * pow2(down as nat),
            b@ > 0,
            b.size() <= size_b + down,
            size_b + 5000 <= usize::MAX,
            down > 0 ==> d * pow2((down - 1) as nat) <= n,
        ensures
            a@ < b@ || down == 2201,
        decreases 2201 - down,
    {
        b.scale(2, 0);
        proof {
            lemma_pow2_unfold((down + 1) as nat);
            let p = pow2(down as nat);
            assert(d * p * 2 == d * (2 * p)) by (nonlinear_arith);
        }
        down = down + 1;
    }
    if down == 2201 {
        proof {
            lemma_infinite(negative, n, d);
        }
        return Double::assemble(negative, INFINITE);
    }
    while up < 2200 && a.less(&b)
        invariant
            up <= 2200,
            b@ > 0,
            a@ == n * pow2(up as nat),
            a@ < 2 * b@,
            a.size() <= size_a + up,
            size_a + 5000 <= usize::MAX,
        ensures
            up == 2200 || a@ >= b@,
        decreases 2200 - up,
    {
        a.scale(2, 0);
        proof {
            lemma_pow2_unfold((up + 1) as nat);
            let p = pow2(up as nat);
            assert(n * p * 2 == n * (2 * p)) by (nonlinear_arith);
        }
        up = up + 1;
    }
    if a.less(&b) {
        proof {
            lemma_small(negative, n, d, down as nat);
        }
        return Double::assemble(negative, 0);
    }
    let ghost a0 = a@;
    let mut m: u128 = 0;
    let mut i: u32 = 0;
    while i < 64
        invariant
            i <= 64,
            a0 * pow2(i as nat) == 2 * (m * b@) + a@,
            a@ < 2 * b@,
            m < pow2(i as nat),
            a.size() <= size_a + up + i,
            up <= 2200,
            size_a + 5000 <= usize::MAX,
        decreases 64 - i,
    {
        let ghost m0 = m;
        let ghost x = a@;
        proof {
            lemma2_to64();
            lemma2_to64_rest();
            lemma_pow2_unfold((i + 1) as nat);
            if i < 63 {
                lemma_pow2_strictly_increases((i + 1) as nat, 64);
            }
        }
        let ghost p = pow2(i as nat);
        m = 2 * m;
        if !a.less(&b) {
            a.subtract(&b);
            m = m + 1;
        }
        a.scale(2, 0);
        proof {
            let w = b@;
            let z = m;
            assert(a0 * (2 * p) == 2 * (a0 * p)) by (nonlinear_arith);
            assert((2 * m0) * w == 2 * (m0 * w)) by (nonlinear_arith);
            assert((2 * m0 + 1) * w == 2 * (m0 * w) + w) by (nonlinear_arith);
        }
        i = i + 1;
    }
    let sticky = !a.is_zero();
    let e: u32 = down + 2211 - up;
    proof {
        lemma2_to64();
        lemma2_to64_rest();
        lemma_pow2_adds(64, 63);
        let w = b@;
        assert(m >= 0x8000_0000_0000_0000) by (nonlinear_arith)
            requires
                a0 * pow2(64) == 2 * (m * w) + a@,
                a@ < 2 * w,
                a0 >= w,
                w > 0,
                pow2(64) == 0x1_0000_0000_0000_0000,
        ;
        lemma_divided_bracket(n, d, up as nat, down as nat, m as nat, a@);
    }
    round_double(negative, m, e, sticky, Ghost(n * one_units()), Ghost(d))
}

/// A number that stays below `b` through 2200 doublings rounds to zero.
proof fn lemma_small(negative: bool, n: nat, d: nat, down: nat)
    requires
        n > 0,
        d > 0,
        n * pow2(2200) < d * pow2(down),
        down > 0 ==> d * pow2((down - 1) as nat) <= n,
    ensures
        round(negative, n * one_units(), d) == build(negative, 0),
{
    lemma2_to64();
    if down > 0 {
        lemma_pow2_unfold(down);
        let h = pow2((down - 1) as nat);
        assert(d * (2 * h) == 2 * (d * h)) by (nonlinear_arith);
        lemma_pow2_strictly_increases(1, 2200);
        assert(n * pow2(2200) >= 2 * n) by (nonlinear_arith)
            requires
                pow2(2200) >= 2,
        ;
    }
    assert(d * 1 == d);
    lemma_pow2_strictly_increases(1100, 2200);
    assert(n * pow2(1100) <= n * pow2(2200)) by (nonlinear_arith)
        requires
            pow2(1100) <= pow2(2200),
    ;
    lemma_vanishing(negative, n, d);
}

/// The bracket that 64 steps of a long division leave.
proof fn lemma_divided_bracket(n: nat, d: nat, up: nat, down: nat, m: nat, rest: nat)
    requires
        d > 0,
        up <= 2200,
        n * pow2(up) * pow2(64) == 2 * (m * (d * pow2(down))) + rest,
        rest < 2 * (d * pow2(down)),
    ensures
        brackets(n * one_units(), d, BASE as nat, m, (down + 2211 - up) as nat, rest != 0),
{
    let e = (down + 2211 - up) as nat;
    let t = (2210 - up) as nat;
    let c = pow2(t);
    let x = pow2(up);
    let y = pow2(64);
    let b = d * pow2(down);
    lemma_pow2_adds(1074, BASE as nat);
    lemma_pow2_adds(up, 64);
    lemma_pow2_adds(up + 64, t);
    assert(pow2(2274) == x * y * c);
    let one = one_units();
    let w = pow2(BASE as nat);
    assert(n * one * w == n * (one * w)) by (nonlinear_arith);
    assert(n * (x * y * c) == n * x * y * c) by (nonlinear_arith);
    lemma_pow2_adds(1, t);
    lemma_pow2_adds(down, t + 1);
    lemma2_to64();
    let u = pow2(e) * d;
    assert(u == 2 * (b * c)) by (nonlinear_arith)
        requires
            u == (pow2(down) * (2 * c)) * d,
            b == d * pow2(down),
    ;
    assert((2 * (m * b) + rest) * c == m * (2 * (b * c)) + rest * c) by (nonlinear_arith);
    lemma_pow2_pos(t);
    assert(rest * c < 2 * (b * c)) by (nonlinear_arith)
        requires
            rest < 2 * b,
            c > 0,
    ;
    assert((m + 1) * u == m * u + u) by (nonlinear_arith);
    assert(rest * c == 0 <==> rest == 0) by (nonlinear_arith)
        requires
            c > 0,
    ;
}

/// A natural number as the product of `x` and a power of ten.
fn times_ten(x: Natural, k: u128, Ghost(n): Ghost<nat>) -> (r: Natural)
    requires
        x.compact(),
        x@ < ten(n),
        4 * (n + k) + 32 < 32 * usize::MAX,
    ensures
        r@ == x@ * ten(k as nat),
        32 * r.size() < 4 * (n + k) + 32,
{
    let ghost x0 = x@;
    let mut x = x;
    let mut i: u128 = 0;
    assert(x0 * 1 == x0);
    while i < k
        invariant
            i <= k,
            x@ == x0 * ten(i as nat),
            x.compact(),
            x0 < ten(n),
            4 * (n + k) + 32 < 32 * usize::MAX,
        decreases k - i,
    {
        proof {
            lemma_scaled_size(x, x0, n, i as nat);
        }
        x.scale(10, 0);
        proof {
            let p = ten(i as nat);
            assert(x0 * p * 10 == x0 * (10 * p)) by (nonlinear_arith);
        }
        i = i + 1;
    }
    proof {
        lemma_scaled_size(x, x0, n, k as nat);
    }
    x
}

/// A bound on the digits of a product with a power of ten.
proof fn lemma_scaled_size(x: Natural, x0: nat, n: nat, k: nat)
    requires
        x.compact(),
        x@ == x0 * ten(k),
        x0 < ten(n),
    ensures
        32 * x.size() < 4 * (n + k) + 32,
{
    lemma_ten_adds(n, k);
    lemma_ten_pow2(n + k);
    lemma_ten_pow2(k);
    assert(x0 * ten(k) < ten(n) * ten(k)) by (nonlinear_arith)
        requires
            x0 < ten(n),
            ten(k) > 0,
    ;
    x.lemma_size(4 * (n + k));
}

/// The double nearest to a decimal numeral.
pub fn nearest_decimal(negative: bool, digits: &Vec<u8>, exponent: i128) -> (r: Double)
    requires
        forall|i: int| 0 <= i < digits@.len() ==> digits@[i] <= 9,
    ensures
        r == decimal(negative, digits_value(digits@), exponent as int),
{
    let n = digits.len();
    let mut x = Natural::new(0);
    let mut i: usize = 0;
    while i < n
        invariant
            i <= n,
            n == digits@.len(),
            forall|i: int| 0 <= i < digits@.len() ==> digits@[i] <= 9,
            x@ == digits_value(digits@.take(i as int)),
            x.compact(),
        decreases n - i,
    {
        proof {
            let t = digits@.take(i + 1);
            assert(t.drop_last() =~= digits@.take(i as int));
            assert(t.last() == digits@[i as int]);
            lemma_digits_bound(digits@.take(i as int));
            lemma_ten_pow2(i as nat);
            x.lemma_size(4 * i as nat);
        }
        x.scale(10, digits[i] as u32);
        i = i + 1;
    }
    let ghost v = digits_value(digits@);
    let ghost one = one_units();
    assert(digits@.take(n as int) =~= digits@);
    proof {
        lemma_digits_bound(digits@);
    }
    if x.is_zero() {
        proof {
            lemma_encode_zero(TOP as nat, 1);
            if exponent >= 0 {
                assert(0 * ten(exponent as nat) == 0);
            } else {
                lemma_ten_pow2((-exponent) as nat);
                lemma_encode_zero(TOP as nat, ten((-exponent) as nat));
            }
            assert(0 * one == 0);
        }
        return Double::assemble(negative, 0);
    }
    if exponent >= 0 {
        let ghost k = exponent as nat;
        proof {
            lemma_ten_pow2(k);
            lemma_mul_strictly_positive(v as int, ten(k) as int);
        }
        if exponent >= 2200 {
            proof {
                lemma_decimal_extreme(negative, digits@, exponent as int);
            }
            return Double::assemble(negative, INFINITE);
        }
        let a = times_ten(x, exponent as u128, Ghost(n as nat));
        divide(negative, a, Natural::new(1))
    } else {
        let ghost k = (-exponent) as nat;
        proof {
            lemma_ten_pow2(k);
            lemma_ten_pow2(n as nat);
            x.lemma_size(4 * n as nat);
        }
        if exponent <= -2200 - (n as i128) {
            proof {
                lemma_decimal_extreme(negative, digits@, exponent as int);
            }
            return Double::assemble(negative, 0);
        }
        proof {
            reveal_with_fuel(ten, 2);
            assert(1 * ten(k) == ten(k));
        }
        let b = times_ten(Natural::new(1), (-exponent) as u128, Ghost(1));
        divide(negative, x, b)
    }
}

} // verus!
