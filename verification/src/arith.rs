//! Addition, subtraction, multiplication and division of doubles.

use crate::double::{
    build, decode_single, infinity, lemma_rebuild, lemma_round_exact, nan, one_units, round, round_to,
    single_units, Double, BINADE, INFINITE, NOT_A_NUMBER, SINGLE_BINADE, SINGLE_INFINITE, TOP,
};
use crate::rounding::{brackets, lemma_encode_zero, round_parts};
use vstd::arithmetic::div_mod::*;
use vstd::arithmetic::mul::*;
use vstd::arithmetic::power2::*;
use vstd::prelude::*;
use vstd::std_specs::ops::{AddSpecImpl, DivSpecImpl, MulSpecImpl, SubSpecImpl};

verus! {

/// The offset of the exponents that are handed to the rounding.
pub(crate) const BASE: u32 = 1200;

/// The exact sum of two finite numbers, rounded; the sign of an exact zero is
/// negative only where both numbers are.
pub open spec fn add_finite(single: bool, a: Double, b: Double) -> Double {
    let sum = a.value() + b.value();
    if sum == 0 {
        build(a.negative() && b.negative(), 0)
    } else if sum < 0 {
        round_to(single, true, (-sum) as nat, 1)
    } else {
        round_to(single, false, sum as nat, 1)
    }
}

/// The sum of two numbers, rounded to single or to double precision.
#[verifier::opaque]
pub open spec fn sum_to(single: bool, a: Double, b: Double) -> Double {
    if a.is_nan() || b.is_nan() {
        nan()
    } else if a.is_infinite() {
        if b.is_infinite() && a.negative() != b.negative() {
            nan()
        } else {
            a
        }
    } else if b.is_infinite() {
        b
    } else {
        add_finite(single, a, b)
    }
}

/// The quotient of two numbers, rounded to single or to double precision.
#[verifier::opaque]
pub open spec fn quotient_to(single: bool, a: Double, b: Double) -> Double {
    let negative = a.negative() != b.negative();
    if a.is_nan() || b.is_nan() {
        nan()
    } else if a.is_infinite() {
        if b.is_infinite() {
            nan()
        } else {
            infinity(negative)
        }
    } else if b.is_infinite() {
        build(negative, 0)
    } else if b.is_zero() {
        if a.is_zero() {
            nan()
        } else {
            infinity(negative)
        }
    } else {
        round_to(single, negative, a.magnitude() * one_units(), b.magnitude())
    }
}

impl Double {
    /// The sum of two numbers.
    pub open spec fn plus(self, other: Double) -> Double {
        sum_to(false, self, other)
    }

    /// The difference of two numbers: the sum with the negated subtrahend.
    pub open spec fn minus(self, other: Double) -> Double {
        self.plus(other.neg_spec())
    }

    /// The product of two numbers.
    #[verifier::opaque]
    pub open spec fn times(self, other: Double) -> Double {
        let negative = self.negative() != other.negative();
        if self.is_nan() || other.is_nan() {
            nan()
        } else if self.is_infinite() || other.is_infinite() {
            if self.is_zero() || other.is_zero() {
                nan()
            } else {
                infinity(negative)
            }
        } else {
            round(negative, self.magnitude() * other.magnitude(), one_units())
        }
    }

    /// The quotient of two numbers.
    pub open spec fn over(self, other: Double) -> Double {
        quotient_to(false, self, other)
    }

    /// `+` in specifications.
    #[verifier::inline]
    pub open spec fn spec_add(self, other: Double) -> Double {
        self.plus(other)
    }

    /// `-` in specifications.
    #[verifier::inline]
    pub open spec fn spec_sub(self, other: Double) -> Double {
        self.minus(other)
    }

    /// `*` in specifications.
    #[verifier::inline]
    pub open spec fn spec_mul(self, other: Double) -> Double {
        self.times(other)
    }

    /// `/` in specifications.
    #[verifier::inline]
    pub open spec fn spec_euclidean_or_real_div(self, other: Double) -> Double {
        self.over(other)
    }
}

/// Rounds a bracketed number of units to double precision.
pub(crate) fn round_double(
    negative: bool,
    m: u128,
    e: u32,
    sticky: bool,
    Ghost(n): Ghost<nat>,
    Ghost(d): Ghost<nat>,
) -> (r: Double)
    requires
        e <= 10000,
        m < pow2(127),
        sticky ==> m >= TOP,
        brackets(n, d, BASE as nat, m as nat, e as nat, sticky),
    ensures
        r == round(negative, n, d),
{
    proof {
        lemma2_to64();
        lemma2_to64_rest();
    }
    let code = round_parts(53, BASE, INFINITE, m, e, sticky, Ghost(n), Ghost(d));
    Double::assemble(negative, code)
}

/// Rounds a bracketed number of units to single or to double precision.
pub(crate) fn round_bracket(
    single: bool,
    negative: bool,
    m: u128,
    e: u32,
    sticky: bool,
    Ghost(n): Ghost<nat>,
    Ghost(d): Ghost<nat>,
) -> (r: Double)
    requires
        e <= 10000,
        m < pow2(127),
        sticky ==> m >= TOP,
        brackets(n, d, BASE as nat, m as nat, e as nat, sticky),
    ensures
        r == round_to(single, negative, n, d),
{
    if !single {
        return round_double(negative, m, e, sticky, Ghost(n), Ghost(d));
    }
    proof {
        lemma2_to64();
        lemma2_to64_rest();
        lemma_brackets_single(n, d, m as nat, e as nat, sticky);
        lemma_pow2_adds(64, 63);
    }
    let code = round_parts(
        24,
        BASE + 925,
        SINGLE_INFINITE,
        m,
        e,
        sticky,
        Ghost(n),
        Ghost(d * single_units()),
    );
    if code >= SINGLE_INFINITE {
        return Double::assemble(negative, INFINITE);
    }
    let (m2, k2): (u64, u32) = if code < SINGLE_BINADE {
        proof {
            assert(code * pow2(0) == code);
        }
        (code, 0)
    } else {
        (SINGLE_BINADE + code % SINGLE_BINADE, (code / SINGLE_BINADE - 1) as u32)
    };
    proof {
        lemma_pow2_adds(k2 as nat, 925);
        lemma_mul_is_associative(m2 as int, pow2(k2 as nat) as int, pow2(925) as int);
        lemma_brackets_exact(m2 as nat, (k2 + 925) as nat);
    }
    round_double(
        negative,
        m2 as u128,
        k2 + 925 + BASE,
        false,
        Ghost(decode_single(code as nat) * single_units()),
        Ghost(1),
    )
}

/// A bracket in units is one in the larger units of single precision.
proof fn lemma_brackets_single(n: nat, d: nat, m: nat, e: nat, sticky: bool)
    requires
        brackets(n, d, BASE as nat, m, e, sticky),
    ensures
        brackets(n, d * single_units(), BASE as nat + 925, m, e, sticky),
{
    let c = single_units();
    let w = pow2(BASE as nat);
    let u = pow2(e) * d;
    let v = pow2(e) * (d * c);
    lemma_pow2_adds(BASE as nat, 925);
    lemma_pow2_pos(925);
    lemma_mul_strictly_positive(d as int, c as int);
    assert(v == u * c) by (nonlinear_arith)
        requires
            u == pow2(e) * d,
            v == pow2(e) * (d * c),
    ;
    assert(m * v == (m * u) * c) by (nonlinear_arith)
        requires
            v == u * c,
    ;
    assert((m + 1) * v == ((m + 1) * u) * c) by (nonlinear_arith)
        requires
            v == u * c,
    ;
    assert(n * (w * c) == (n * w) * c) by (nonlinear_arith);
    lemma_mul_inequality((m * u) as int, (n * w) as int, c as int);
    lemma_mul_strict_inequality((n * w) as int, ((m + 1) * u) as int, c as int);
    if sticky {
        lemma_mul_strict_inequality((m * u) as int, (n * w) as int, c as int);
    }
}

/// An exact multiple of a power of two is its own bracket.
pub(crate) proof fn lemma_brackets_exact(m: nat, k: nat)
    ensures
        brackets(m * pow2(k), 1, BASE as nat, m, k + BASE as nat, false),
{
    lemma_pow2_adds(k, BASE as nat);
    lemma_pow2_pos(k + BASE as nat);
    let p = pow2(k);
    let w = pow2(BASE as nat);
    let u = pow2(k + BASE as nat);
    assert(m * p * w == m * (u * 1)) by (nonlinear_arith)
        requires
            u == p * w,
    ;
    assert(m * u < (m + 1) * u) by (nonlinear_arith)
        requires
            u > 0,
    ;
}

/// The bracket of a large multiple of a power of two to which less than one unit
/// is added, or from which less than one unit is taken.
proof fn lemma_brackets_near(big: nat, k: nat, small: nat, minus: bool)
    requires
        0 < small < pow2(k),
        big > 0,
    ensures
        minus ==> brackets((big * pow2(k) - small) as nat, 1, BASE as nat, (big - 1) as nat, k + BASE as nat, true),
        !minus ==> brackets(big * pow2(k) + small, 1, BASE as nat, big, k + BASE as nat, true),
{
    lemma_pow2_adds(k, BASE as nat);
    lemma_pow2_pos(BASE as nat);
    let p = pow2(k);
    let w = pow2(BASE as nat);
    let u = pow2(k + BASE as nat);
    assert(0 < small * w < u) by (nonlinear_arith)
        requires
            u == p * w,
            0 < small < p,
            w > 0,
    ;
    assert(big * p * w == big * u) by (nonlinear_arith)
        requires
            u == p * w,
    ;
    assert((big - 1) * u == big * u - u) by (nonlinear_arith);
    assert((big + 1) * u == big * u + u) by (nonlinear_arith);
    assert(big * p >= p) by (nonlinear_arith)
        requires
            big >= 1,
    ;
    assert((big * p - small) * w == big * p * w - small * w) by (nonlinear_arith);
    assert((big * p + small) * w == big * p * w + small * w) by (nonlinear_arith);
}

/// Adds a magnitude to, or subtracts it from, one with an exponent at least as
/// large; a difference may be negative.
fn add_magnitudes(single: bool, negative: bool, m1: u64, k1: u32, m2: u64, k2: u32, minus: bool) -> (r: Double)
    requires
        m1 < TOP,
        m2 < TOP,
        k2 <= k1 <= 2045,
        k1 > 0 ==> m1 >= BINADE,
        m2 > 0,
        minus ==> m1 * pow2(k1 as nat) != m2 * pow2(k2 as nat),
    ensures
        ({
            let x = m1 * pow2(k1 as nat);
            let y = m2 * pow2(k2 as nat);
            &&& !minus ==> r == round_to(single, negative, (x + y) as nat, 1)
            &&& minus && x > y ==> r == round_to(single, negative, (x - y) as nat, 1)
            &&& minus && x < y ==> r == round_to(single, !negative, (y - x) as nat, 1)
        }),
{
    let ghost x = (m1 * pow2(k1 as nat)) as nat;
    let ghost y = (m2 * pow2(k2 as nat)) as nat;
    let gap = k1 - k2;
    proof {
        lemma2_to64();
        lemma2_to64_rest();
        lemma_pow2_pos(k2 as nat);
    }
    if gap <= 64 {
        let unit: u128 = crate::rounding::power_of_two(gap);
        proof {
            lemma_pow2_adds(gap as nat, k2 as nat);
            if gap < 64 {
                lemma_pow2_strictly_increases(gap as nat, 64);
            }
            lemma_pow2_adds(64, 53);
            lemma_pow2_adds(117, 10);
            assert(m1 * unit <= TOP * 0x1_0000_0000_0000_0000) by (nonlinear_arith)
                requires
                    m1 <= TOP,
                    unit <= 0x1_0000_0000_0000_0000,
            ;
            let c = pow2(k2 as nat);
            assert(x == (m1 * unit) * c) by (nonlinear_arith)
                requires
                    x == m1 * (unit * c),
            ;
        }
        let wide: u128 = m1 as u128 * unit;
        let other: u128 = m2 as u128;
        let ghost c = pow2(k2 as nat);
        if !minus {
            let total: u128 = wide + other;
            proof {
                assert(total * c == x + y) by (nonlinear_arith)
                    requires
                        x == wide * c,
                        y == m2 * c,
                        total == wide + m2,
                ;
                lemma_brackets_exact(total as nat, k2 as nat);
            }
            round_bracket(single, negative, total, k2 + BASE, false, Ghost(x + y), Ghost(1))
        } else if wide >= other {
            let total: u128 = wide - other;
            proof {
                assert(total * c == x - y) by (nonlinear_arith)
                    requires
                        x == wide * c,
                        y == m2 * c,
                        total == wide - m2,
                ;
                lemma_brackets_exact(total as nat, k2 as nat);
            }
            round_bracket(single, negative, total, k2 + BASE, false, Ghost((x - y) as nat), Ghost(1))
        } else {
            let total: u128 = other - wide;
            proof {
                assert(total * c == y - x) by (nonlinear_arith)
                    requires
                        x == wide * c,
                        y == m2 * c,
                        total == m2 - wide,
                ;
                lemma_brackets_exact(total as nat, k2 as nat);
                lemma_mul_strictly_positive(total as int, c as int);
            }
            round_bracket(single, !negative, total, k2 + BASE, false, Ghost((y - x) as nat), Ghost(1))
        }
    } else {
        let k: u32 = k1 - 4;
        let big: u128 = m1 as u128 * 16;
        proof {
            lemma_pow2_adds(4, k as nat);
            let c = pow2(k as nat);
            assert(x == (m1 * 16) * c) by (nonlinear_arith)
                requires
                    x == m1 * (16 * c),
            ;
            lemma_pow2_adds(53, k2 as nat);
            if 53 + k2 < k {
                lemma_pow2_strictly_increases((53 + k2) as nat, k as nat);
            }
            assert(y < TOP * pow2(k2 as nat)) by (nonlinear_arith)
                requires
                    y == m2 * pow2(k2 as nat),
                    m2 < TOP,
                    pow2(k2 as nat) > 0,
            ;
            assert(y > 0) by (nonlinear_arith)
                requires
                    y == m2 * pow2(k2 as nat),
                    m2 > 0,
                    pow2(k2 as nat) > 0,
            ;
            lemma_brackets_near(big as nat, k as nat, y, minus);
            assert(big * c >= c) by (nonlinear_arith)
                requires
                    big >= 1,
            ;
            lemma_pow2_adds(64, 63);
        }
        if minus {
            round_bracket(single, negative, big - 1, k + BASE, true, Ghost((x - y) as nat), Ghost(1))
        } else {
            round_bracket(single, negative, big, k + BASE, true, Ghost(x + y), Ghost(1))
        }
    }
}

/// Adds two finite numbers of which the second is not zero and the first has an
/// exponent at least as large.
fn add_parts(single: bool, a: Double, b: Double, m1: u64, k1: u32, m2: u64, k2: u32) -> (r: Double)
    requires
        a.is_finite(),
        b.is_finite(),
        a.magnitude() == m1 * pow2(k1 as nat),
        b.magnitude() == m2 * pow2(k2 as nat),
        m1 < TOP,
        m2 < TOP,
        k2 <= k1 <= 2045,
        k1 > 0 ==> m1 >= BINADE,
        m2 > 0,
    ensures
        r == add_finite(single, a, b),
{
    let minus = a.is_negative() != b.is_negative();
    proof {
        lemma_pow2_pos(k1 as nat);
        lemma_pow2_pos(k2 as nat);
        lemma_mul_strictly_positive(m2 as int, pow2(k2 as nat) as int);
        lemma_mul_nonnegative(m1 as int, pow2(k1 as nat) as int);
    }
    if minus && k1 == k2 && m1 == m2 {
        return Double::assemble(false, 0);
    }
    proof {
        if minus {
            if k1 == k2 {
                let c = pow2(k1 as nat) as int;
                if m1 < m2 {
                    lemma_mul_strict_inequality(m1 as int, m2 as int, c);
                } else {
                    lemma_mul_strict_inequality(m2 as int, m1 as int, c);
                }
            } else {
                // The larger exponent belongs to a normal number, which is at
                // least as large as any number of the next smaller exponent.
                let c = pow2(k2 as nat) as int;
                lemma_pow2_adds(1, (k1 - 1) as nat);
                lemma2_to64();
                if k2 < k1 - 1 {
                    lemma_pow2_strictly_increases(k2 as nat, (k1 - 1) as nat);
                }
                let h = pow2((k1 - 1) as nat) as int;
                assert(m1 * pow2(k1 as nat) >= TOP * h) by (nonlinear_arith)
                    requires
                        pow2(k1 as nat) == 2 * h,
                        2 * m1 >= TOP,
                        h > 0,
                ;
                assert(m2 * c < TOP * h) by (nonlinear_arith)
                    requires
                        m2 < TOP,
                        0 < c <= h,
                ;
            }
        }
    }
    add_magnitudes(single, a.is_negative(), m1, k1, m2, k2, minus)
}

/// The sum of two numbers, rounded to single or to double precision.
pub(crate) fn add_to(single: bool, x: Double, y: Double) -> (r: Double)
    ensures
        r == sum_to(single, x, y),
{
    reveal(sum_to);
    let a = x.get_code();
    let b = y.get_code();
    proof {
        lemma_rebuild(x);
        lemma_rebuild(y);
    }
    if a >= INFINITE || b >= INFINITE {
        if a > INFINITE || b > INFINITE {
            return Double { bits: NOT_A_NUMBER };
        }
        if a == INFINITE {
            if b == INFINITE && x.is_negative() != y.is_negative() {
                return Double { bits: NOT_A_NUMBER };
            }
            return x;
        }
        return y;
    }
    if b == 0 {
        if a == 0 {
            return Double::assemble(x.is_negative() && y.is_negative(), 0);
        }
        proof {
            x.lemma_magnitude_positive();
        }
        return narrow_to(single, x);
    }
    if a == 0 {
        proof {
            y.lemma_magnitude_positive();
        }
        return narrow_to(single, y);
    }
    let (m1, k1) = x.parts();
    let (m2, k2) = y.parts();
    if k1 >= k2 {
        add_parts(single, x, y, m1, k1, m2, k2)
    } else {
        add_parts(single, y, x, m2, k2, m1, k1)
    }
}

/// Rounds a finite number to single precision, or keeps it.
fn narrow_to(single: bool, x: Double) -> (r: Double)
    requires
        x.is_finite(),
    ensures
        r == round_to(single, x.negative(), x.magnitude(), 1),
{
    if !single {
        proof {
            lemma_round_exact(x);
        }
        return x;
    }
    let (m, k) = x.parts();
    proof {
        lemma_brackets_exact(m as nat, k as nat);
        lemma2_to64();
        lemma2_to64_rest();
        lemma_pow2_adds(64, 63);
    }
    round_bracket(true, x.is_negative(), m as u128, k + BASE, false, Ghost(x.magnitude()), Ghost(1))
}

impl AddSpecImpl for Double {
    open spec fn obeys_add_spec() -> bool {
        true
    }

    open spec fn add_req(self, other: Double) -> bool {
        true
    }

    open spec fn add_spec(self, other: Double) -> Double {
        self.plus(other)
    }
}

impl core::ops::Add for Double {
    type Output = Double;

    fn add(self, other: Double) -> (r: Double) {
        add_to(false, self, other)
    }
}

impl SubSpecImpl for Double {
    open spec fn obeys_sub_spec() -> bool {
        true
    }

    open spec fn sub_req(self, other: Double) -> bool {
        true
    }

    open spec fn sub_spec(self, other: Double) -> Double {
        self.minus(other)
    }
}

impl core::ops::Sub for Double {
    type Output = Double;

    fn sub(self, other: Double) -> (r: Double) {
        self + other.neg()
    }
}

impl MulSpecImpl for Double {
    open spec fn obeys_mul_spec() -> bool {
        true
    }

    open spec fn mul_req(self, other: Double) -> bool {
        true
    }

    open spec fn mul_spec(self, other: Double) -> Double {
        self.times(other)
    }
}

impl core::ops::Mul for Double {
    type Output = Double;

    fn mul(self, other: Double) -> (r: Double) {
        reveal(Double::times);
        let a = self.get_code();
        let b = other.get_code();
        let negative = self.is_negative() != other.is_negative();
        if a >= INFINITE || b >= INFINITE {
            if a > INFINITE || b > INFINITE || a == 0 || b == 0 {
                return Double { bits: NOT_A_NUMBER };
            }
            return Double::assemble(negative, INFINITE);
        }
        proof {
            lemma2_to64();
            lemma2_to64_rest();
            lemma_pow2_pos(1074);
        }
        if a == 0 || b == 0 {
            proof {
                let p = self.magnitude() * other.magnitude();
                assert(p == 0) by (nonlinear_arith)
                    requires
                        p == self.magnitude() * other.magnitude(),
                        self.magnitude() == 0 || other.magnitude() == 0,
                ;
                lemma_encode_zero(TOP as nat, one_units());
            }
            return Double::assemble(negative, 0);
        }
        let (m1, k1) = self.parts();
        let (m2, k2) = other.parts();
        let ghost n = self.magnitude() * other.magnitude();
        let ghost d = one_units();
        proof {
            assert(m1 * m2 <= TOP * TOP) by (nonlinear_arith)
                requires
                    m1 <= TOP,
                    m2 <= TOP,
            ;
            lemma_pow2_adds(64, 63);
        }
        let m: u128 = m1 as u128 * m2 as u128;
        proof {
            let e = (k1 + k2 + 126) as nat;
            lemma_pow2_adds(k1 as nat, k2 as nat);
            lemma_pow2_adds((k1 + k2) as nat, 1200);
            lemma_pow2_adds(e, 1074);
            let x = pow2(k1 as nat);
            let y = pow2(k2 as nat);
            let w = pow2(1200);
            let u = pow2(e) * d;
            assert(u == x * y * w);
            assert(n * w == m * u) by (nonlinear_arith)
                requires
                    n == (m1 * x) * (m2 * y),
                    m == m1 * m2,
                    u == x * y * w,
            ;
            lemma_pow2_pos(e);
            assert(u > 0) by (nonlinear_arith)
                requires
                    u == pow2(e) * d,
                    pow2(e) > 0,
                    d > 0,
            ;
            assert(m * u < (m + 1) * u) by (nonlinear_arith)
                requires
                    u > 0,
            ;
        }
        round_double(negative, m, k1 + k2 + 126, false, Ghost(n), Ghost(d))
    }
}

/// The quotient of two numbers, rounded to single or to double precision.
pub(crate) fn divide_to(single: bool, x: Double, y: Double) -> (r: Double)
    ensures
        r == quotient_to(single, x, y),
{
    reveal(quotient_to);
    let a = x.get_code();
    let b = y.get_code();
    let negative = x.is_negative() != y.is_negative();
    if a > INFINITE || b > INFINITE {
        return Double { bits: NOT_A_NUMBER };
    }
    if a == INFINITE {
        if b == INFINITE {
            return Double { bits: NOT_A_NUMBER };
        }
        return Double::assemble(negative, INFINITE);
    }
    if b == INFINITE {
        return Double::assemble(negative, 0);
    }
    if b == 0 {
        if a == 0 {
            return Double { bits: NOT_A_NUMBER };
        }
        return Double::assemble(negative, INFINITE);
    }
    proof {
        y.lemma_magnitude_positive();
        lemma2_to64();
        lemma2_to64_rest();
    }
    if a == 0 {
        proof {
            assert(0 * one_units() == 0);
            lemma_encode_zero(TOP as nat, y.magnitude());
            lemma_encode_zero(TOP as nat, 1);
            lemma_pow2_pos(925);
            lemma_mul_strictly_positive(y.magnitude() as int, single_units() as int);
            lemma_encode_zero(2 * SINGLE_BINADE as nat, y.magnitude() * single_units());
            assert(decode_single(0) * single_units() == 0);
        }
        return Double::assemble(negative, 0);
    }
    let (m1, k1) = x.parts();
    let (m2, k2) = y.parts();
    let (u, s1) = normalize(m1);
    let (v, s2) = normalize(m2);
    let wide: u128 = u as u128 * 0x400_0000_0000_0000_0000;
    let m: u128 = wide / v as u128;
    let sticky = wide % v as u128 != 0;
    let e: u32 = k1 + 2200 + s2 - s1 - k2;
    proof {
        lemma_divided(x.magnitude(), y.magnitude(), m1, k1, m2, k2, u, s1, v, s2, m, e);
        lemma_pow2_adds(64, 63);
        assert(m >= 0x200_0000_0000_0000_0000 && m <= 0x800_0000_0000_0000_0000) by (nonlinear_arith)
            requires
                m == wide / v as u128,
                wide == u * 0x400_0000_0000_0000_0000,
                BINADE <= u < 2 * BINADE,
                BINADE <= v < 2 * BINADE,
        ;
    }
    round_bracket(
        single,
        negative,
        m,
        e,
        sticky,
        Ghost(x.magnitude() * one_units()),
        Ghost(y.magnitude()),
    )
}

impl DivSpecImpl for Double {
    open spec fn obeys_div_spec() -> bool {
        true
    }

    open spec fn div_req(self, other: Double) -> bool {
        true
    }

    open spec fn div_spec(self, other: Double) -> Double {
        self.over(other)
    }
}

impl core::ops::Div for Double {
    type Output = Double;

    fn div(self, other: Double) -> (r: Double) {
        divide_to(false, self, other)
    }
}

/// Shifts a significand up until its highest bit is in place.
fn normalize(m: u64) -> (r: (u64, u32))
    requires
        0 < m < TOP,
    ensures
        r.0 == m * pow2(r.1 as nat),
        BINADE <= r.0 < TOP,
        r.1 <= 52,
{
    let len = crate::rounding::bit_length(m as u128);
    proof {
        lemma2_to64();
        lemma2_to64_rest();
        if len > 53 {
            lemma_pow2_strictly_increases(53, len as nat);
            if len > 54 {
                lemma_pow2_strictly_increases(53, (len - 1) as nat);
            }
        }
        lemma_pow2_adds(len as nat, (53 - len) as nat);
        lemma_pow2_adds((len - 1) as nat, (53 - len) as nat);
        let p = pow2((53 - len) as nat);
        lemma_pow2_pos((53 - len) as nat);
        assert(m * p < pow2(len as nat) * p) by (nonlinear_arith)
            requires
                m < pow2(len as nat),
                p > 0,
        ;
        assert(m * p >= pow2((len - 1) as nat) * p) by (nonlinear_arith)
            requires
                m >= pow2((len - 1) as nat),
                p > 0,
        ;
        if len > 1 {
            lemma_pow2_strictly_increases((53 - len) as nat, 53);
        }
    }
    let s: u32 = 53 - len;
    let unit: u64 = crate::rounding::power_of_two(s) as u64;
    (m * unit, s)
}

/// The bracket of a quotient of normalized significands.
proof fn lemma_divided(
    n1: nat,
    n2: nat,
    m1: u64,
    k1: u32,
    m2: u64,
    k2: u32,
    x: u64,
    s1: u32,
    y: u64,
    s2: u32,
    m: u128,
    e: u32,
)
    requires
        n1 == m1 * pow2(k1 as nat),
        n2 == m2 * pow2(k2 as nat),
        x == m1 * pow2(s1 as nat),
        y == m2 * pow2(s2 as nat),
        n2 > 0,
        y > 0,
        s1 <= 52,
        s2 <= 52,
        k1 <= 2045,
        k2 <= 2045,
        m == (x * 0x400_0000_0000_0000_0000) / y as int,
        e == k1 + 2200 + s2 - s1 - k2,
    ensures
        brackets(
            n1 * one_units(),
            n2,
            BASE as nat,
            m as nat,
            e as nat,
            (x * 0x400_0000_0000_0000_0000) % y as int != 0,
        ),
{
    let t = (k1 + 2200 - s1) as nat;
    let big = pow2(t);
    let wide = x * 0x400_0000_0000_0000_0000;
    let w = pow2(BASE as nat);
    let u = pow2(e as nat) * n2;
    let rem = wide % y as int;
    lemma2_to64();
    lemma2_to64_rest();
    lemma_pow2_adds(64, 10);
    assert(pow2(74) == 0x400_0000_0000_0000_0000);
    lemma_fundamental_div_mod(wide, y as int);
    lemma_pow2_pos(t);
    // n1 * 2^1074 * 2^1200 == wide * 2^t
    lemma_pow2_adds(1074, BASE as nat);
    lemma_pow2_adds(k1 as nat, 2274);
    lemma_pow2_adds(s1 as nat, t);
    lemma_pow2_adds((s1 + t) as nat, 74);
    let a = pow2(k1 as nat);
    let b = pow2(s1 as nat);
    assert(a * (pow2(1074) * w) == b * big * pow2(74));
    assert((n1 * pow2(1074)) * w == wide * big) by (nonlinear_arith)
        requires
            n1 == m1 * a,
            wide == (m1 * b) * pow2(74),
            a * (pow2(1074) * w) == b * big * pow2(74),
    ;
    // y * 2^t == 2^e * n2
    lemma_pow2_adds(s2 as nat, t);
    lemma_pow2_adds(e as nat, k2 as nat);
    let c = pow2(s2 as nat);
    let f = pow2(k2 as nat);
    assert(c * big == pow2(e as nat) * f);
    assert(y * big == u) by (nonlinear_arith)
        requires
            y == m2 * c,
            u == pow2(e as nat) * (m2 * f),
            c * big == pow2(e as nat) * f,
    ;
    assert(wide * big == m * u + rem * big) by (nonlinear_arith)
        requires
            wide == y * m + rem,
            y * big == u,
    ;
    assert(0 <= rem * big < u) by (nonlinear_arith)
        requires
            0 <= rem < y,
            big > 0,
            y * big == u,
    ;
    assert(rem * big == 0 <==> rem == 0) by (nonlinear_arith)
        requires
            big > 0,
    ;
    assert((m + 1) * u == m * u + u) by (nonlinear_arith);
}

} // verus!
