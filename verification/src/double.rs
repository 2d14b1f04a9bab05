//! Double-precision numbers of the IEEE 754 binary format, held as their bits.
//!
//! A finite number is a whole number of units of two to the minus 1074, the
//! smallest positive number of the format. The specification of every operation
//! takes the exact result in these units and rounds it once.

use crate::rounding::{encode, lemma_encode_unroll, lemma_quotient, nearest};
use vstd::arithmetic::div_mod::*;
use vstd::arithmetic::mul::*;
use vstd::arithmetic::power2::*;
use vstd::prelude::*;

verus! {

/// The weight of the sign bit.
pub const SIGN: u64 = 0x8000_0000_0000_0000;

/// The code of infinity: the largest code of a number.
pub const INFINITE: u64 = 0x7FF0_0000_0000_0000;

/// The bits of the one value that is not a number which operations produce.
pub const NOT_A_NUMBER: u64 = 0x7FF8_0000_0000_0000;

/// Two to the number of stored significand bits.
pub const BINADE: u64 = 0x10_0000_0000_0000;

/// Two to the precision.
pub const TOP: u64 = 0x20_0000_0000_0000;

/// A double-precision number. `==` compares bits; see [`Double::equals`] for
/// the comparison of numbers.
#[derive(Clone, Copy, Debug, PartialEq, Eq, Structural)]
pub struct Double {
    pub bits: u64,
}

/// The magnitude, in units, that a finite code stands for.
pub open spec fn decode(code: nat) -> nat {
    if code < BINADE {
        code
    } else {
        (BINADE + code % (BINADE as nat)) as nat * pow2((code / (BINADE as nat) - 1) as nat)
    }
}

/// Two to the number of stored significand bits of a single-precision number.
pub const SINGLE_BINADE: u64 = 0x80_0000;

/// The code of infinity among single-precision numbers.
pub const SINGLE_INFINITE: u64 = 0x7F80_0000;

/// The number of units in the smallest positive single-precision number.
pub open spec fn single_units() -> nat {
    pow2(925)
}

/// The magnitude that a finite single-precision code stands for, in units of the
/// smallest positive single-precision number.
pub open spec fn decode_single(code: nat) -> nat {
    if code < SINGLE_BINADE {
        code
    } else {
        (SINGLE_BINADE + code % (SINGLE_BINADE as nat)) as nat * pow2((code / (SINGLE_BINADE as nat) - 1) as nat)
    }
}

/// The number of units in one.
pub open spec fn one_units() -> nat {
    pow2(1074)
}

/// The number with the given sign and code.
pub open spec fn build(negative: bool, code: nat) -> Double {
    Double { bits: (if negative { SIGN + code } else { code as int }) as u64 }
}

/// `n / d` units, with the given sign, rounded to the nearest number.
pub open spec fn round(negative: bool, n: nat, d: nat) -> Double {
    let code = encode(TOP as nat, n, d);
    build(negative, if code < INFINITE { code } else { INFINITE as nat })
}

/// `n / d` units, with the given sign, rounded to the nearest single-precision
/// number.
pub open spec fn round_single(negative: bool, n: nat, d: nat) -> Double {
    let code = encode(2 * SINGLE_BINADE as nat, n, d * single_units());
    if code < SINGLE_INFINITE {
        round(negative, decode_single(code) * single_units(), 1)
    } else {
        infinity(negative)
    }
}

/// `n / d` units, with the given sign, rounded to single or to double precision.
pub open spec fn round_to(single: bool, negative: bool, n: nat, d: nat) -> Double {
    if single {
        round_single(negative, n, d)
    } else {
        round(negative, n, d)
    }
}

/// The number nearest to the fraction `n / d`.
pub open spec fn ratio(n: nat, d: nat) -> Double {
    round(false, n * one_units(), d)
}

/// Zero.
pub open spec fn zero() -> Double {
    build(false, 0)
}

/// The value that is not a number which operations produce.
pub open spec fn nan() -> Double {
    Double { bits: NOT_A_NUMBER }
}

/// Infinity with the given sign.
pub open spec fn infinity(negative: bool) -> Double {
    build(negative, INFINITE as nat)
}

impl Double {
    /// Whether the sign bit is set.
    pub open spec fn negative(self) -> bool {
        self.bits >= SIGN
    }

    /// The bits below the sign.
    pub open spec fn code(self) -> nat {
        self.bits as nat % (SIGN as nat)
    }

    pub open spec fn is_nan(self) -> bool {
        self.code() > INFINITE
    }

    pub open spec fn is_infinite(self) -> bool {
        self.code() == INFINITE
    }

    pub open spec fn is_finite(self) -> bool {
        self.code() < INFINITE
    }

    pub open spec fn is_zero(self) -> bool {
        self.code() == 0
    }

    /// The magnitude of a finite number, in units.
    pub open spec fn magnitude(self) -> nat {
        decode(self.code())
    }

    /// A finite number, in units.
    pub open spec fn value(self) -> int {
        if self.negative() {
            -(self.magnitude() as int)
        } else {
            self.magnitude() as int
        }
    }

    /// The place of a number among all numbers; both zeros have place 0.
    pub open spec fn place(self) -> int {
        if self.negative() {
            -(self.code() as int)
        } else {
            self.code() as int
        }
    }

    pub open spec fn abs_spec(self) -> Double {
        build(false, self.code())
    }

    pub open spec fn neg_spec(self) -> Double {
        build(!self.negative(), self.code())
    }

    pub open spec fn lt(self, other: Double) -> bool {
        !self.is_nan() && !other.is_nan() && self.place() < other.place()
    }

    pub open spec fn le(self, other: Double) -> bool {
        !self.is_nan() && !other.is_nan() && self.place() <= other.place()
    }

    pub open spec fn same(self, other: Double) -> bool {
        !self.is_nan() && !other.is_nan() && self.place() == other.place()
    }

    /// The larger of two numbers, or the one that is a number.
    pub open spec fn max_spec(self, other: Double) -> Double {
        if self.is_nan() || self.lt(other) {
            other
        } else {
            self
        }
    }

    /// The smaller of two numbers, or the one that is a number.
    pub open spec fn min_spec(self, other: Double) -> Double {
        if self.is_nan() || other.lt(self) {
            other
        } else {
            self
        }
    }

    /// The nearest number that is neither below `low` nor above `high`.
    pub open spec fn clamp_spec(self, low: Double, high: Double) -> Double {
        if self.lt(low) {
            low
        } else if high.lt(self) {
            high
        } else {
            self
        }
    }

    /// The place of a value in the total order of all bit patterns: negative
    /// before positive, and beyond the infinities the values that are not numbers.
    pub open spec fn total_place(self) -> int {
        if self.negative() {
            -(self.code() as int) - 1
        } else {
            self.code() as int
        }
    }

    /// Only zero has no magnitude.
    pub proof fn lemma_magnitude_positive(self)
        requires
            self.code() > 0,
        ensures
            self.magnitude() > 0,
    {
        if self.code() >= BINADE {
            let k = (self.code() / (BINADE as nat) - 1) as nat;
            lemma_pow2_pos(k);
            lemma_mul_strictly_positive((BINADE + self.code() % (BINADE as nat)) as int, pow2(k) as int);
        }
    }

    pub fn from_bits(bits: u64) -> (r: Double)
        ensures
            r.bits == bits,
    {
        Double { bits }
    }

    pub fn to_bits(self) -> (r: u64)
        ensures
            r == self.bits,
    {
        self.bits
    }

    pub fn is_negative(self) -> (r: bool)
        ensures
            r == self.negative(),
    {
        self.bits >= SIGN
    }

    pub(crate) fn get_code(self) -> (r: u64)
        ensures
            r == self.code(),
            r < SIGN,
    {
        self.bits % SIGN
    }

    pub(crate) fn assemble(negative: bool, code: u64) -> (r: Double)
        requires
            code < SIGN,
        ensures
            r == build(negative, code as nat),
            r.negative() == negative,
            r.code() == code,
    {
        if negative {
            Double { bits: SIGN + code }
        } else {
            Double { bits: code }
        }
    }

    /// Whether two values are the same number; both zeros are.
    #[verifier::when_used_as_spec(same)]
    pub fn equals(self, other: Double) -> (r: bool)
        ensures
            r == self.same(other),
    {
        let a = self.get_code();
        let b = other.get_code();
        a <= INFINITE && b <= INFINITE && (self.bits == other.bits || (a == 0 && b == 0))
    }

    #[verifier::when_used_as_spec(lt)]
    pub fn less(self, other: Double) -> (r: bool)
        ensures
            r == self.lt(other),
    {
        let a = self.get_code();
        let b = other.get_code();
        if a > INFINITE || b > INFINITE {
            false
        } else if self.is_negative() {
            if other.is_negative() {
                b < a
            } else {
                a > 0 || b > 0
            }
        } else {
            !other.is_negative() && a < b
        }
    }

    #[verifier::when_used_as_spec(le)]
    pub fn at_most(self, other: Double) -> (r: bool)
        ensures
            r == self.le(other),
    {
        let a = self.get_code();
        let b = other.get_code();
        if a > INFINITE || b > INFINITE {
            false
        } else {
            !other.less(self)
        }
    }

    #[verifier::when_used_as_spec(abs_spec)]
    pub fn abs(self) -> (r: Double)
        ensures
            r == self.abs_spec(),
    {
        Double { bits: self.get_code() }
    }

    #[verifier::when_used_as_spec(neg_spec)]
    pub fn neg(self) -> (r: Double)
        ensures
            r == self.neg_spec(),
    {
        Double::assemble(!self.is_negative(), self.get_code())
    }

    #[verifier::when_used_as_spec(max_spec)]
    pub fn max(self, other: Double) -> (r: Double)
        ensures
            r == self.max_spec(other),
    {
        if self.get_code() > INFINITE || self.less(other) {
            other
        } else {
            self
        }
    }

    #[verifier::when_used_as_spec(min_spec)]
    pub fn min(self, other: Double) -> (r: Double)
        ensures
            r == self.min_spec(other),
    {
        if self.get_code() > INFINITE || other.less(self) {
            other
        } else {
            self
        }
    }

    #[verifier::when_used_as_spec(clamp_spec)]
    pub fn clamp(self, low: Double, high: Double) -> (r: Double)
        ensures
            r == self.clamp_spec(low, high),
    {
        if self.less(low) {
            low
        } else if high.less(self) {
            high
        } else {
            self
        }
    }

    /// Whether `self` stands before `other` in the total order.
    pub fn total_before(self, other: Double) -> (r: bool)
        ensures
            r == (self.total_place() < other.total_place()),
    {
        if self.is_negative() {
            !other.is_negative() || other.get_code() < self.get_code()
        } else {
            !other.is_negative() && self.get_code() < other.get_code()
        }
    }

    /// The significand and the exponent of a finite number.
    pub(crate) fn parts(self) -> (r: (u64, u32))
        requires
            self.is_finite(),
        ensures
            self.magnitude() == r.0 * pow2(r.1 as nat),
            r.0 < TOP,
            r.1 <= 2045,
            r.1 > 0 ==> r.0 >= BINADE,
            r.0 == 0 <==> self.code() == 0,
    {
        let code = self.get_code();
        if code < BINADE {
            proof {
                lemma2_to64();
                assert(code * pow2(0) == code);
            }
            (code, 0)
        } else {
            let m: u64 = BINADE + code % BINADE;
            let k: u32 = (code / BINADE - 1) as u32;
            (m, k)
        }
    }
}

/// A sign and a code determine a number.
pub broadcast proof fn lemma_build(negative: bool, code: nat)
    requires
        code < SIGN,
    ensures
        (#[trigger] build(negative, code)).negative() == negative,
        build(negative, code).code() == code,
{
}

/// A number is built of its sign and its code.
pub proof fn lemma_rebuild(x: Double)
    ensures
        build(x.negative(), x.code()) == x,
        x.code() < SIGN,
{
}

/// Every finite number is its own nearest number.
pub proof fn lemma_encode_decode(code: nat)
    requires
        code < INFINITE,
    ensures
        encode(TOP as nat, decode(code), 1) == code,
{
    lemma2_to64();
    if code < BINADE {
        lemma_quotient(code, 1, code, 0);
    } else {
        let m = (BINADE + code % (BINADE as nat)) as nat;
        let k = (code / (BINADE as nat) - 1) as nat;
        let p = pow2(k);
        lemma_pow2_pos(k);
        lemma_fundamental_div_mod(code as int, BINADE as int);
        assert(m * p < TOP * p) by (nonlinear_arith)
            requires
                m < TOP,
                p > 0,
        ;
        if k > 0 {
            lemma_pow2_unfold(k);
            let h = pow2((k - 1) as nat);
            assert(m * (2 * h) >= TOP * h) by (nonlinear_arith)
                requires
                    2 * m >= TOP,
            ;
        }
        assert(1 * TOP * p == TOP * p);
        lemma_encode_unroll(TOP as nat, m * p, 1, k);
        lemma_quotient(m * p, p, m, 0);
        assert(1 * p == p);
        assert(TOP / 2 == BINADE);
        assert(code == BINADE * (k + 1) + code % (BINADE as nat));
        assert(BINADE * (k + 1) == k * BINADE + BINADE) by (nonlinear_arith);
    }
}

/// A finite number is its own rounding.
pub proof fn lemma_round_exact(x: Double)
    requires
        x.is_finite(),
    ensures
        round(x.negative(), x.magnitude(), 1) == x,
{
    lemma_encode_decode(x.code());
}

} // verus!
