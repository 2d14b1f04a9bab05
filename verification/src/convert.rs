//! Conversions between doubles and integers, and remainders.

use crate::arith::{quotient_to, round_double};
use crate::double::{
    decode, lemma_encode_decode, lemma_rebuild, lemma_round_exact, nan, one_units, ratio, round, zero, Double,
    BINADE, INFINITE, NOT_A_NUMBER, TOP,
};
use crate::rounding::{lemma_encode_ordered, lemma_encode_scale, lemma_encode_zero, lemma_quotient, power_of_two};
use vstd::arithmetic::div_mod::*;
use vstd::arithmetic::mul::*;
use vstd::arithmetic::power2::*;
use vstd::prelude::*;

verus! {

/// The number nearest to an integer.
pub open spec fn whole(x: int) -> Double {
    if x < 0 {
        round(true, (-x) as nat * one_units(), 1)
    } else {
        ratio(x as nat, 1)
    }
}

impl Double {
    /// The whole part of the magnitude of a finite number.
    pub open spec fn whole(self) -> nat {
        self.magnitude() / one_units()
    }

    /// The number cut to a whole one and brought into the range of `usize`; 0 for
    /// what is not a number.
    #[verifier::opaque]
    pub open spec fn to_index(self) -> nat {
        if self.is_nan() || self.negative() {
            0
        } else if self.is_infinite() || self.whole() > usize::MAX {
            usize::MAX as nat
        } else {
            self.whole()
        }
    }

    /// The nearest whole number, the one farther from zero of two that are equally
    /// near; what is not finite stays as it is.
    #[verifier::opaque]
    pub open spec fn round_spec(self) -> Double {
        if !self.is_finite() {
            self
        } else {
            let rest = self.magnitude() % one_units();
            let near = if 2 * rest >= one_units() {
                self.whole() + 1
            } else {
                self.whole()
            };
            round(self.negative(), near * one_units(), 1)
        }
    }

    /// The remainder of the division that cuts its quotient to a whole number; it
    /// has the sign of the dividend.
    #[verifier::opaque]
    pub open spec fn rem_spec(self, other: Double) -> Double {
        if self.is_nan() || other.is_nan() || self.is_infinite() || other.is_zero() {
            nan()
        } else if other.is_infinite() {
            self
        } else {
            round(self.negative(), self.magnitude() % other.magnitude(), 1)
        }
    }

    /// The least remainder that is not negative.
    pub open spec fn rem_euclid_spec(self, other: Double) -> Double {
        let rest = self.rem_spec(other);
        if rest.lt(zero()) {
            rest + other.abs_spec()
        } else {
            rest
        }
    }

    /// The number nearest to an unsigned integer.
    pub fn from_u64(x: u64) -> (r: Double)
        ensures
            r == ratio(x as nat, 1),
    {
        let ghost n = x * one_units();
        proof {
            let w = pow2(1200);
            lemma_pow2_adds(1074, 1200);
            lemma_pow2_pos(2274);
            lemma2_to64();
            lemma2_to64_rest();
            lemma_pow2_adds(64, 63);
            let u = pow2(2274);
            assert(n * w == x * (u * 1)) by (nonlinear_arith)
                requires
                    n == x * pow2(1074),
                    u == pow2(1074) * w,
            ;
            assert(x * u < (x + 1) * u) by (nonlinear_arith)
                requires
                    u > 0,
            ;
        }
        round_double(false, x as u128, 2274, false, Ghost(n as nat), Ghost(1))
    }

    /// A signed integer.
    pub fn from_i32(x: i32) -> (r: Double)
        ensures
            r == whole(x as int),
    {
        if x < 0 {
            Double::from_u64((-(x as i64)) as u64).neg()
        } else {
            Double::from_u64(x as u64)
        }
    }

    /// The number nearest to a `usize`.
    pub fn from_index(x: usize) -> (r: Double)
        ensures
            r == ratio(x as nat, 1),
    {
        Double::from_u64(x as u64)
    }

    /// The number nearest to a fraction.
    pub fn from_ratio(n: u64, d: u64) -> (r: Double)
        requires
            n < TOP,
            0 < d < TOP,
        ensures
            r == ratio(n as nat, d as nat),
    {
        let a = Double::from_u64(n);
        let b = Double::from_u64(d);
        proof {
            let one = one_units();
            lemma_exact_integer(n as nat);
            lemma_exact_integer(d as nat);
            lemma_pow2_pos(1074);
            lemma_mul_strictly_positive(d as int, one as int);
            reveal(quotient_to);
            lemma_encode_scale(TOP as nat, n as nat * one, d as nat, one);
        }
        a / b
    }

    /// Cuts to a whole number in the range of `usize`.
    pub fn truncate(self) -> (r: usize)
        ensures
            r == self.to_index(),
    {
        reveal(Double::to_index);
        let code = self.get_code();
        if code > INFINITE || self.is_negative() {
            return 0;
        }
        if code == INFINITE {
            return usize::MAX;
        }
        let (m, k) = self.parts();
        let ghost p = pow2(k as nat);
        let ghost one = one_units();
        proof {
            lemma2_to64();
            lemma2_to64_rest();
            lemma_pow2_pos(1074);
            lemma_pow2_pos(k as nat);
        }
        if k >= 1074 {
            let s: u32 = k - 1074;
            proof {
                lemma_pow2_adds(s as nat, 1074);
                lemma_pow2_pos(s as nat);
                assert(m * p == (m * pow2(s as nat)) * one) by (nonlinear_arith)
                    requires
                        p == pow2(s as nat) * one,
                ;
                lemma_quotient((m * p) as nat, one, (m * pow2(s as nat)) as nat, 0);
            }
            if s >= 12 {
                proof {
                    if s > 12 {
                        lemma_pow2_strictly_increases(12, s as nat);
                    }
                    assert(m * pow2(s as nat) >= 0x1_0000_0000_0000_0000) by (nonlinear_arith)
                        requires
                            m >= BINADE,
                            pow2(s as nat) >= 4096,
                    ;
                }
                return usize::MAX;
            }
            proof {
                lemma_pow2_strictly_increases(s as nat, 12);
                assert(m * pow2(s as nat) < 0x2_0000_0000_0000_0000) by (nonlinear_arith)
                    requires
                        m < TOP,
                        0 < pow2(s as nat) < 4096,
                ;
            }
            let whole: u128 = m as u128 * power_of_two(s);
            if whole > usize::MAX as u128 {
                usize::MAX
            } else {
                whole as usize
            }
        } else {
            let s: u32 = 1074 - k;
            proof {
                lemma_pow2_adds(s as nat, k as nat);
                lemma_pow2_pos(s as nat);
                let unit = pow2(s as nat);
                let q = m as nat / unit;
                let rest = m as nat % unit;
                lemma_fundamental_div_mod(m as int, unit as int);
                assert(m * p == q * one + rest * p) by (nonlinear_arith)
                    requires
                        m == unit * q + rest,
                        one == unit * p,
                ;
                assert(rest * p < one) by (nonlinear_arith)
                    requires
                        rest < unit,
                        p > 0,
                        one == unit * p,
                ;
                lemma_quotient((m * p) as nat, one, q, rest * p);
                assert(self.whole() == q);
            }
            if s >= 64 {
                proof {
                    if s > 64 {
                        lemma_pow2_strictly_increases(64, s as nat);
                    }
                    lemma_quotient(m as nat, pow2(s as nat), 0, m as nat);
                }
                0
            } else {
                proof {
                    vstd::bits::lemma_u64_shr_is_div(m, s as u64);
                }
                let whole: u64 = m >> s;
                if whole > usize::MAX as u64 {
                    usize::MAX
                } else {
                    whole as usize
                }
            }
        }
    }

    /// The nearest whole number, ties away from zero.
    #[verifier::when_used_as_spec(round_spec)]
    pub fn round(self) -> (r: Double)
        ensures
            r == self.round_spec(),
    {
        reveal(Double::round_spec);
        let code = self.get_code();
        if code >= INFINITE {
            return self;
        }
        let (m, k) = self.parts();
        let negative = self.is_negative();
        let ghost p = pow2(k as nat);
        let ghost one = one_units();
        proof {
            lemma2_to64();
            lemma2_to64_rest();
            lemma_pow2_pos(1074);
            lemma_pow2_pos(k as nat);
            lemma_rebuild(self);
        }
        if k >= 1074 {
            proof {
                let s = (k - 1074) as nat;
                lemma_pow2_adds(s, 1074);
                let q = (m * pow2(s)) as nat;
                lemma_mul_nonnegative(m as int, pow2(s) as int);
                assert(m * p == q * one) by (nonlinear_arith)
                    requires
                        p == pow2(s) * one,
                        q == m * pow2(s),
                ;
                lemma_quotient((m * p) as nat, one, q, 0);
                lemma_round_exact(self);
            }
            return self;
        }
        let s: u32 = 1074 - k;
        proof {
            lemma_pow2_adds(s as nat, k as nat);
            lemma_pow2_unfold(s as nat);
            lemma_pow2_pos((s - 1) as nat);
            let unit = pow2(s as nat);
            let q = m as nat / unit;
            let rest = m as nat % unit;
            lemma_fundamental_div_mod(m as int, unit as int);
            assert(m * p == q * one + rest * p) by (nonlinear_arith)
                requires
                    m == unit * q + rest,
                    one == unit * p,
            ;
            assert(rest * p < one) by (nonlinear_arith)
                requires
                    rest < unit,
                    p > 0,
                    one == unit * p,
            ;
            lemma_quotient((m * p) as nat, one, q, rest * p);
            assert(2 * (rest * p) >= one <==> rest >= pow2((s - 1) as nat)) by (nonlinear_arith)
                requires
                    p > 0,
                    one == 2 * pow2((s - 1) as nat) * p,
            ;
        }
        if s >= 64 {
            proof {
                if s > 64 {
                    lemma_pow2_strictly_increases(64, s as nat);
                    if s > 65 {
                        lemma_pow2_strictly_increases(64, (s - 1) as nat);
                    }
                }
                lemma_quotient(m as nat, pow2(s as nat), 0, m as nat);
                assert(0 * one == 0);
                lemma_encode_zero(TOP as nat, 1);
            }
            return Double::assemble(negative, 0);
        }
        let unit: u128 = power_of_two(s);
        let half: u128 = power_of_two(s - 1);
        let whole: u64 = (m as u128 / unit) as u64;
        let near: u64 = if m as u128 % unit >= half {
            whole + 1
        } else {
            whole
        };
        let r = Double::from_u64(near);
        if negative {
            r.neg()
        } else {
            r
        }
    }

    /// The remainder with the sign of the dividend.
    #[verifier::when_used_as_spec(rem_spec)]
    pub fn rem(self, other: Double) -> (r: Double)
        ensures
            r == self.rem_spec(other),
    {
        reveal(Double::rem_spec);
        let a = self.get_code();
        let b = other.get_code();
        if a >= INFINITE || b > INFINITE || b == 0 {
            return Double { bits: NOT_A_NUMBER };
        }
        if b == INFINITE {
            return self;
        }
        let (m1, k1) = self.parts();
        let (m2, k2) = other.parts();
        let ghost x = self.magnitude();
        let ghost y = other.magnitude();
        let negative = self.is_negative();
        proof {
            other.lemma_magnitude_positive();
            lemma2_to64();
            lemma2_to64_rest();
            lemma_pow2_pos(k1 as nat);
            lemma_pow2_pos(k2 as nat);
            lemma_pow2_adds(64, 63);
        }
        if k1 <= k2 {
            let s: u32 = k2 - k1;
            let ghost c = pow2(k1 as nat);
            proof {
                lemma_pow2_adds(s as nat, k1 as nat);
                lemma_pow2_pos(s as nat);
                assert(y == (m2 * pow2(s as nat)) * c) by (nonlinear_arith)
                    requires
                        y == m2 * (pow2(s as nat) * c),
                ;
            }
            let rest: u64 = if s >= 64 {
                proof {
                    if s > 64 {
                        lemma_pow2_strictly_increases(64, s as nat);
                    }
                    assert(m2 * pow2(s as nat) > m1) by (nonlinear_arith)
                        requires
                            m2 >= 1,
                            pow2(s as nat) > m1,
                    ;
                    lemma_scaled_mod(m1 as nat, (m2 * pow2(s as nat)) as nat, c);
                    lemma_quotient(m1 as nat, (m2 * pow2(s as nat)) as nat, 0, m1 as nat);
                }
                m1
            } else {
                proof {
                    if s < 63 {
                        lemma_pow2_strictly_increases(s as nat, 63);
                    }
                    lemma_mul_strictly_positive(m2 as int, pow2(s as nat) as int);
                    assert(m2 * pow2(s as nat) <= TOP * pow2(63)) by (nonlinear_arith)
                        requires
                            m2 <= TOP,
                            pow2(s as nat) <= pow2(63),
                    ;
                    lemma_scaled_mod(m1 as nat, (m2 * pow2(s as nat)) as nat, c);
                    lemma_mod_decreases(m1 as nat, (m2 * pow2(s as nat)) as nat);
                }
                (m1 as u128 % (m2 as u128 * power_of_two(s))) as u64
            };
            proof {
                crate::arith::lemma_brackets_exact(rest as nat, k1 as nat);
            }
            return round_double(negative, rest as u128, k1 + 1200, false, Ghost(x % y), Ghost(1));
        }
        let mut rest: u64 = m1 % m2;
        let mut left: u32 = k1 - k2;
        let ghost c = pow2(k2 as nat);
        proof {
            lemma_pow2_adds(left as nat, k2 as nat);
            lemma_scaled_mod(m1 as nat, m2 as nat, c);
            assert(x == m1 * pow2(left as nat) * c) by (nonlinear_arith)
                requires
                    x == m1 * (pow2(left as nat) * c),
            ;
            lemma_mul_nonnegative(m1 as int, pow2(left as nat) as int);
            lemma_scaled_mod((m1 * pow2(left as nat)) as nat, m2 as nat, c);
            lemma_mul_mod_noop_left(m1 as int, pow2(left as nat) as int, m2 as int);
        }
        while left > 0
            invariant
                0 < m2 < TOP,
                rest < m2,
                (rest * pow2(left as nat)) % (m2 as int) == (m1 * pow2((k1 - k2) as nat)) % (m2 as int),
            decreases left,
        {
            proof {
                lemma_pow2_unfold(left as nat);
                let p = pow2((left - 1) as nat);
                assert(rest * (2 * p) == (2 * rest) * p) by (nonlinear_arith);
                lemma_mul_mod_noop_left((2 * rest) as int, p as int, m2 as int);
            }
            rest = (2 * rest) % m2;
            left = left - 1;
        }
        proof {
            lemma2_to64();
            lemma_small_mod(rest as nat, m2 as nat);
            assert(rest * pow2(0) == rest);
            crate::arith::lemma_brackets_exact(rest as nat, k2 as nat);
        }
        round_double(negative, rest as u128, k2 + 1200, false, Ghost(x % y), Ghost(1))
    }

    /// The least remainder that is not negative.
    #[verifier::when_used_as_spec(rem_euclid_spec)]
    pub fn rem_euclid(self, other: Double) -> (r: Double)
        ensures
            r == self.rem_euclid_spec(other),
    {
        let rest = self.rem(other);
        if rest.less(Double { bits: 0 }) {
            rest + other.abs()
        } else {
            rest
        }
    }
}

/// A product of a significand and a power of two in range is a number.
pub proof fn lemma_exact(negative: bool, m: nat, k: nat)
    requires
        m < TOP,
        k <= 2045,
    ensures
        ({
            let x = round(negative, m * pow2(k), 1);
            &&& x.is_finite()
            &&& x.negative() == negative
            &&& x.magnitude() == m * pow2(k)
        }),
    decreases k,
{
    lemma2_to64();
    if k == 0 || m >= BINADE {
        let code = if m < BINADE {
            m
        } else {
            (k + 1) * (BINADE as nat) + (m - BINADE) as nat
        };
        if m >= BINADE {
            lemma_quotient(code, BINADE as nat, k + 1, (m - BINADE) as nat);
            assert((k + 1) * BINADE <= 2046 * BINADE) by (nonlinear_arith)
                requires
                    k <= 2045,
            ;
        } else {
            assert(m * pow2(0) == m);
        }
        assert(decode(code) == m * pow2(k));
        lemma_encode_decode(code);
    } else {
        lemma_pow2_unfold(k);
        let h = pow2((k - 1) as nat);
        assert(m * (2 * h) == (2 * m) * h) by (nonlinear_arith);
        lemma_exact(negative, 2 * m, (k - 1) as nat);
    }
}

/// An integer below two to the precision is a number.
pub proof fn lemma_exact_integer(n: nat)
    requires
        n < TOP,
    ensures
        ratio(n, 1).is_finite(),
        !ratio(n, 1).negative(),
        ratio(n, 1).magnitude() == n * one_units(),
{
    lemma_exact(false, n, 1074);
}

/// A fraction of positive integers, the lower one below two to the precision, is positive.
pub proof fn lemma_ratio_positive(n: nat, d: nat)
    requires
        0 < n,
        0 < d < TOP,
    ensures
        zero().lt(ratio(n, d)),
{
    let one = one_units();
    lemma2_to64();
    lemma2_to64_rest();
    lemma_pow2_strictly_increases(53, 1074);
    assert(n * one >= one) by (nonlinear_arith)
        requires
            n >= 1,
    ;
    if n * one < d * (TOP as nat) {
        let q = (n * one) / d;
        lemma_fundamental_div_mod((n * one) as int, d as int);
        if q == 0 {
            assert(d * 0 == 0);
        }
    }
}

/// The numbers nearest to fractions are in the order of the fractions.
pub proof fn lemma_ratio_ordered(a: nat, b: nat, c: nat, d: nat)
    requires
        b > 0,
        d > 0,
        a * d <= c * b,
    ensures
        ratio(a, b).le(ratio(c, d)),
{
    let one = one_units();
    assert((a * one) * d <= (c * one) * b) by (nonlinear_arith)
        requires
            a * d <= c * b,
    ;
    lemma_encode_ordered(TOP as nat, a * one, b, c * one, d);
}

/// A common factor of both sides is a factor of the remainder.
pub(crate) proof fn lemma_scaled_mod(a: nat, b: nat, c: nat)
    requires
        b > 0,
        c > 0,
    ensures
        (a * c) % (b * c) == (a % b) * c,
        b * c > 0,
{
    let q = a / b;
    let r = a % b;
    lemma_fundamental_div_mod(a as int, b as int);
    assert(a * c == q * (b * c) + r * c) by (nonlinear_arith)
        requires
            a == b * q + r,
    ;
    assert(r * c < b * c) by (nonlinear_arith)
        requires
            r < b,
            c > 0,
    ;
    lemma_quotient(a * c, b * c, q, r * c);
}

} // verus!
