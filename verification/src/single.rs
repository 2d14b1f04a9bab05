//! Single-precision arithmetic. A single-precision number is held as the double
//! of the same value.

use crate::arith::{add_to, divide_to, lemma_brackets_exact, quotient_to, round_bracket, sum_to};
use crate::double::{infinity, nan, round_to, Double, INFINITE, NOT_A_NUMBER};
use vstd::arithmetic::power2::*;
use vstd::prelude::*;

verus! {

impl Double {
    /// The number rounded to single precision.
    pub open spec fn single_spec(self) -> Double {
        if self.is_nan() {
            nan()
        } else if self.is_infinite() {
            infinity(self.negative())
        } else {
            round_to(true, self.negative(), self.magnitude(), 1)
        }
    }

    /// The sum rounded to single precision.
    pub open spec fn single_sum_spec(self, other: Double) -> Double {
        sum_to(true, self, other)
    }

    /// The quotient rounded to single precision.
    pub open spec fn single_quotient_spec(self, other: Double) -> Double {
        quotient_to(true, self, other)
    }

    /// Rounds to single precision.
    #[verifier::when_used_as_spec(single_spec)]
    pub fn single(self) -> (r: Double)
        ensures
            r == self.single_spec(),
    {
        let code = self.get_code();
        if code > INFINITE {
            return Double { bits: NOT_A_NUMBER };
        }
        if code == INFINITE {
            return Double::assemble(self.is_negative(), INFINITE);
        }
        let (m, k) = self.parts();
        proof {
            lemma_brackets_exact(m as nat, k as nat);
            lemma2_to64();
            lemma2_to64_rest();
            lemma_pow2_adds(64, 63);
        }
        round_bracket(
            true,
            self.is_negative(),
            m as u128,
            k + 1200,
            false,
            Ghost(self.magnitude()),
            Ghost(1),
        )
    }

    /// Adds in single precision.
    #[verifier::when_used_as_spec(single_sum_spec)]
    pub fn single_sum(self, other: Double) -> (r: Double)
        ensures
            r == self.single_sum_spec(other),
    {
        add_to(true, self, other)
    }

    /// Divides in single precision.
    #[verifier::when_used_as_spec(single_quotient_spec)]
    pub fn single_quotient(self, other: Double) -> (r: Double)
        ensures
            r == self.single_quotient_spec(other),
    {
        divide_to(true, self, other)
    }
}

} // verus!
