//! What leading-edge energy is: how much louder the audio is from a sample on than before.

use crate::convert::{lemma_exact, lemma_ratio_positive};
use crate::double::{lemma_build, ratio, round, zero, Double, TOP};
use crate::offset::{amplitude, slopes_of, sum_after, sum_before};
use crate::rounding::lemma_encode_zero;
use vstd::arithmetic::power2::*;
use vstd::prelude::*;

verus! {

/// The sum of `n` loudnesses from `from` on.
pub open spec fn loudness(loud: Seq<nat>, from: int, n: int) -> nat
    decreases n,
{
    if n <= 0 {
        0
    } else {
        loudness(loud, from, n - 1) + loud[from + n - 1]
    }
}

/// The number of `n` parts of two to the `e` units each.
pub open spec fn in_parts(n: nat, e: nat) -> Double {
    round(false, n * pow2(e), 1)
}

/// Whether the magnitudes of samples are whole numbers of parts, which add up to a number
/// below two to the precision, so that no sum of them is rounded.
pub open spec fn has_loudness(samples: Seq<Double>, loud: Seq<nat>, e: nat) -> bool {
    &&& e <= 2045
    &&& samples.len() == loud.len()
    &&& forall|i: int| 0 <= i < samples.len() ==> (#[trigger] samples[i]).abs() == in_parts(loud[i], e)
    &&& loudness(loud, 0, loud.len() as int) < TOP
}

/// Sums and differences of parts below two to the precision are exact.
proof fn lemma_part_sums(a: nat, b: nat, e: nat)
    requires
        a < TOP,
        b < TOP,
        e <= 2045,
    ensures
        a + b < TOP ==> in_parts(a, e) + in_parts(b, e) == in_parts(a + b, e),
        a >= b ==> in_parts(a, e) - in_parts(b, e) == in_parts((a - b) as nat, e),
        in_parts(0, e) == zero(),
{
    broadcast use lemma_build;

    reveal(crate::arith::sum_to);
    let p = pow2(e);
    lemma_pow2_pos(e);
    lemma_exact(false, a, e);
    lemma_exact(false, b, e);
    lemma_encode_zero(TOP as nat, 1);
    assert(0 * p == 0);
    assert(a * p + b * p == (a + b) * p) by (nonlinear_arith);
    assert((a + b) * p == 0 <==> a + b == 0) by (nonlinear_arith)
        requires
            p > 0,
    ;
    if a >= b {
        let d = (a - b) as nat;
        assert(a * p - b * p == d * p) by (nonlinear_arith)
            requires
                d == a - b,
        ;
        assert(d * p == 0 <==> d == 0) by (nonlinear_arith)
            requires
                p > 0,
        ;
    }
}

/// What comes first and what comes behind it.
proof fn lemma_split(loud: Seq<nat>, from: int, a: int, b: int)
    requires
        0 <= a,
        0 <= b,
    ensures
        loudness(loud, from, a + b) == loudness(loud, from, a) + loudness(loud, from + a, b),
    decreases b,
{
    if b > 0 {
        lemma_split(loud, from, a, b - 1);
    }
}

/// A part is not louder than the whole.
proof fn lemma_part(loud: Seq<nat>, from: int, n: int)
    requires
        0 <= from,
        0 <= n,
        from + n <= loud.len(),
    ensures
        loudness(loud, from, n) <= loudness(loud, 0, loud.len() as int),
{
    lemma_split(loud, 0, from, n);
    lemma_split(loud, 0, from + n, loud.len() - from - n);
}

/// The window one sample later.
proof fn lemma_slide(loud: Seq<nat>, from: int, n: int)
    requires
        n > 0,
    ensures
        loudness(loud, from + 1, n) + loud[from] == loudness(loud, from, n) + loud[from + n],
        loud[from] <= loudness(loud, from, n),
{
    lemma_split(loud, from, 1, n);
    lemma_split(loud, from, n, 1);
    lemma_split(loud, from, 1, n - 1);
    assert(loudness(loud, from, 1) == loud[from]) by {
        reveal_with_fuel(loudness, 2);
    }
    assert(loudness(loud, from + n, 1) == loud[from + n]) by {
        reveal_with_fuel(loudness, 2);
    }
}

/// A sum of magnitudes is exact.
proof fn lemma_amplitude(samples: Seq<Double>, loud: Seq<nat>, e: nat, from: int, n: int)
    requires
        has_loudness(samples, loud, e),
        0 <= from,
        0 <= n,
        from + n <= loud.len(),
    ensures
        amplitude(samples, from, n) == in_parts(loudness(loud, from, n), e),
        loudness(loud, from, n) < TOP,
    decreases n,
{
    lemma_part(loud, from, n);
    if n > 0 {
        lemma_amplitude(samples, loud, e, from, n - 1);
        assert(samples[from + n - 1].abs() == in_parts(loud[from + n - 1], e));
        lemma_part_sums(loudness(loud, from, n - 1), loud[from + n - 1], e);
    } else {
        lemma_part_sums(0, 0, e);
    }
}

/// The running sum one sample later is exact.
proof fn lemma_running(samples: Seq<Double>, loud: Seq<nat>, e: nat, from: int, half: int)
    requires
        has_loudness(samples, loud, e),
        0 <= from,
        0 < half,
        from + 1 + half <= loud.len(),
    ensures
        in_parts(loudness(loud, from, half), e) - samples[from].abs() + samples[from + half].abs() == in_parts(
            loudness(loud, from + 1, half),
            e,
        ),
{
    lemma_part(loud, from, half);
    lemma_part(loud, from + 1, half);
    lemma_slide(loud, from, half);
    let s = loudness(loud, from, half);
    let x = loud[from];
    let y = loud[from + half];
    assert(samples[from].abs() == in_parts(x, e));
    assert(samples[from + half].abs() == in_parts(y, e));
    lemma_part_sums(s, x, e);
    lemma_part(loud, from, half + 1);
    assert(y < TOP) by {
        lemma_split(loud, from, half, 1);
        reveal_with_fuel(loudness, 2);
    }
    lemma_part_sums((s - x) as nat, y, e);
}

/// The running sums are those of the windows before a sample and from it on.
proof fn lemma_windows(samples: Seq<Double>, loud: Seq<nat>, e: nat, half: int, i: int)
    requires
        has_loudness(samples, loud, e),
        0 < half <= i,
        i + half <= loud.len(),
    ensures
        sum_before(samples, half, i) == in_parts(loudness(loud, i - half, half), e),
        sum_after(samples, half, i) == in_parts(loudness(loud, i, half), e),
    decreases i,
{
    if i == half {
        lemma_amplitude(samples, loud, e, 0, half);
        lemma_amplitude(samples, loud, e, half, half);
    } else {
        lemma_windows(samples, loud, e, half, i - 1);
        lemma_running(samples, loud, e, i - 1 - half, half);
        lemma_running(samples, loud, e, i - 1, half);
    }
}

/// Where no sum is rounded, the leading-edge energy at a sample is the loudness of the window
/// of 50 ms from it on less that of the window of 50 ms before it, divided by the length of a
/// window; it is zero where the audio does not get louder.
pub proof fn lemma_edge(samples: Seq<Double>, loud: Seq<nat>, e: nat, sample_rate: u32, i: int)
    requires
        has_loudness(samples, loud, e),
        sample_rate >= 20,
        sample_rate / 20 <= i,
        i + sample_rate / 20 < samples.len(),
    ensures
        ({
            let half = sample_rate as int / 20;
            let after = loudness(loud, i, half);
            let before = loudness(loud, i - half, half);
            let found = slopes_of(samples, sample_rate)[i];
            &&& after > before ==> found == in_parts((after - before) as nat, e) * (ratio(1, 1) / ratio(half as nat, 1))
            &&& after <= before ==> found.same(zero())
        }),
{
    broadcast use lemma_build;

    let half = sample_rate as int / 20;
    let after = loudness(loud, i, half);
    let before = loudness(loud, i - half, half);
    lemma_windows(samples, loud, e, half, i);
    lemma_part(loud, i, half);
    lemma_part(loud, i - half, half);
    lemma_part_sums(after, before, e);
    let share = ratio(1, 1) / ratio(half as nat, 1);
    lemma_share(half as nat);
    if after > before {
        lemma_product_sign((after - before) as nat, e, share);
    } else {
        lemma_fall(after, before, e, share);
    }
}

/// A share is a positive number.
proof fn lemma_share(half: nat)
    requires
        0 < half < TOP,
    ensures
        (ratio(1, 1) / ratio(half, 1)).is_finite(),
        !(ratio(1, 1) / ratio(half, 1)).negative(),
{
    broadcast use lemma_build;

    reveal(crate::arith::quotient_to);
    let one = crate::double::one_units();
    let top = TOP as nat;
    lemma_pow2_pos(1074);
    crate::convert::lemma_exact_integer(half);
    crate::convert::lemma_exact_integer(1);
    lemma_ratio_positive(half, 1);
    assert(half * one > 0) by (nonlinear_arith)
        requires
            half > 0,
            one > 0,
    ;
    assert((1 * one * one) * 1 <= (1 * one) * (half * one)) by (nonlinear_arith)
        requires
            half >= 1,
    ;
    crate::rounding::lemma_encode_ordered(top, 1 * one * one, half * one, 1 * one, 1);
}

/// A product of numbers that are not negative is not below zero.
proof fn lemma_product_sign(n: nat, e: nat, share: Double)
    requires
        n < TOP,
        e <= 2045,
        share.is_finite(),
        !share.negative(),
    ensures
        (in_parts(n, e) * share).max(zero()) == in_parts(n, e) * share,
{
    broadcast use lemma_build;

    reveal(Double::times);
    lemma_exact(false, n, e);
}

/// Where the audio does not get louder, nothing remains.
proof fn lemma_fall(after: nat, before: nat, e: nat, share: Double)
    requires
        after <= before < TOP,
        e <= 2045,
        share.is_finite(),
        !share.negative(),
    ensures
        ((in_parts(after, e) - in_parts(before, e)) * share).max(zero()).same(zero()),
{
    broadcast use lemma_build;

    reveal(Double::times);
    reveal(crate::arith::sum_to);
    lemma_exact(false, after, e);
    lemma_exact(false, before, e);
    let one = crate::double::one_units();
    let p = pow2(e);
    lemma_pow2_pos(1074);
    lemma_pow2_pos(e);
    let d = in_parts(after, e) - in_parts(before, e);
    assert(after * p <= before * p) by (nonlinear_arith)
        requires
            after <= before,
    ;
    if after == before {
        assert(0 * share.magnitude() == 0);
        lemma_encode_zero(TOP as nat, one);
        assert(crate::double::decode(0) == 0);
    } else {
        let k = (before - after) as nat;
        assert(before * p - after * p == k * p) by (nonlinear_arith)
            requires
                k == before - after,
        ;
        lemma_exact(true, k, e);
        assert(k * p > 0) by (nonlinear_arith)
            requires
                k > 0,
                p > 0,
        ;
        assert(d.negative());
        assert(d.is_finite());
    }
}

} // verus!
