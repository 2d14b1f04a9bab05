//! What the peaks of an onset detection function are.

use crate::arith::{quotient_to, sum_to};
use crate::convert::{lemma_exact, lemma_exact_integer, lemma_ratio_ordered, lemma_ratio_positive};
use crate::double::{decode, lemma_build, lemma_round_exact, one_units, ratio, round, zero, Double, TOP};
use crate::grain::lemma_magnitude_ordered;
use crate::onset::{
    is_local_max, is_peak, lemma_peaks, min_gap, near_begin, near_end, onset_at, parabola_top, peak_onsets, peaks,
    surroundings, threshold,
};
use crate::order::{ascending, lemma_ordered, ordered};
use crate::phase::lemma_half_product;
use crate::precision::{
    lemma_half, lemma_product_commutes, lemma_rounded_exact, lemma_rounded_ordered, lemma_sum_ordered,
    lemma_sum_rounded, lemma_value_order, rounded,
};
use crate::rounding::{encode, lemma_encode_ordered, lemma_encode_scale, lemma_encode_zero, lemma_quotient};
use crate::scaling::{lemma_doubled, lemma_value_scaled};
use vstd::arithmetic::div_mod::*;
use vstd::arithmetic::power2::*;
use vstd::prelude::*;

verus! {

/// 20 ms of frames that are 256 samples apart, not rounded to whole frames.
spec fn gap_frames(sample_rate: u32) -> Double {
    ratio(sample_rate as nat, 1) * ratio(2, 100) / ratio(256, 1)
}

/// A fiftieth lies between two numbers that are close to each other.
proof fn lemma_fiftieth()
    ensures
        ratio(2, 100).is_finite(),
        !ratio(2, 100).negative(),
        10_995_116_277 * pow2(1035) <= ratio(2, 100).magnitude() <= 10_995_116_278 * pow2(1035),
        ratio(2, 100).magnitude() <= one_units(),
        one_units() == 0x80_0000_0000 * pow2(1035),
        one_units() == 64 * pow2(1068),
        pow2(1068) == 0x2_0000_0000 * pow2(1035),
{
    broadcast use lemma_build;

    let top = TOP as nat;
    let p = pow2(1035);
    let one = one_units();
    lemma2_to64();
    lemma2_to64_rest();
    lemma_pow2_adds(39, 1035);
    lemma_pow2_adds(33, 1035);
    lemma_pow2_adds(6, 1068);
    lemma_pow2_pos(1035);
    lemma_exact(false, 10_995_116_277, 1035);
    lemma_exact(false, 10_995_116_278, 1035);
    lemma_encode_ordered(top, 10_995_116_277 * p, 1, 2 * one, 100);
    lemma_encode_ordered(top, 2 * one, 100, 10_995_116_278 * p, 1);
    let low = encode(top, 10_995_116_277 * p, 1);
    let mid = encode(top, 2 * one, 100);
    let high = encode(top, 10_995_116_278 * p, 1);
    lemma_magnitude_ordered(low, mid);
    lemma_magnitude_ordered(mid, high);
}

/// The product of the rate and a fiftieth is at least, or at most, any number that the exact
/// product is at least, or at most.
proof fn lemma_product_bound(sample_rate: u32, m: nat, k: nat)
    requires
        m < TOP,
        k <= 1100,
    ensures
        ({
            let f = ratio(2, 100).magnitude();
            let r = sample_rate as nat;
            let x = ratio(r, 1) * ratio(2, 100);
            &&& x.is_finite()
            &&& !x.negative()
            &&& m * pow2(k) <= r * f ==> m * pow2(k) <= x.magnitude()
            &&& r * f <= m * pow2(k) ==> x.magnitude() <= m * pow2(k)
        }),
{
    broadcast use lemma_build;

    reveal(Double::times);
    let top = TOP as nat;
    let one = one_units();
    let r = sample_rate as nat;
    let f = ratio(2, 100).magnitude();
    let b = m * pow2(k);
    lemma_pow2_pos(1074);
    lemma_fiftieth();
    lemma_exact_integer(r);
    lemma_exact(false, m, k);
    let n = (r * one) * f;
    assert(n == (r * f) * one) by (nonlinear_arith)
        requires
            n == (r * one) * f,
    ;
    lemma_encode_scale(top, r * f, 1, one);
    assert(1 * one == one);
    let code = encode(top, r * f, 1);
    assert(r * f <= r * one) by (nonlinear_arith)
        requires
            f <= one,
    ;
    lemma_encode_ordered(top, r * f, 1, r * one, 1);
    if b <= r * f {
        lemma_encode_ordered(top, b, 1, r * f, 1);
        lemma_magnitude_ordered(encode(top, b, 1), code);
    }
    if r * f <= b {
        lemma_encode_ordered(top, r * f, 1, b, 1);
        lemma_magnitude_ordered(code, encode(top, b, 1));
    }
}

/// A part in 256 keeps such bounds.
proof fn lemma_part_bound(x: Double, m: nat, k: nat)
    requires
        x.is_finite(),
        !x.negative(),
        m < TOP,
        k <= 1100,
    ensures
        ({
            let q = x / ratio(256, 1);
            &&& q.is_finite()
            &&& !q.negative()
            &&& q.magnitude() <= x.magnitude()
            &&& m * pow2(k + 8) <= x.magnitude() ==> m * pow2(k) <= q.magnitude()
            &&& x.magnitude() <= m * pow2(k + 8) ==> q.magnitude() <= m * pow2(k)
        }),
{
    broadcast use lemma_build;

    reveal(quotient_to);
    let top = TOP as nat;
    let one = one_units();
    let a = x.magnitude();
    let b = m * pow2(k);
    lemma_pow2_pos(1074);
    lemma_pow2_pos(k);
    lemma2_to64();
    lemma_pow2_adds(8, k);
    lemma_exact_integer(256);
    lemma_exact(false, m, k);
    assert(256 * one > 0);
    assert(m * pow2(k + 8) == 256 * b) by (nonlinear_arith)
        requires
            pow2(k + 8) == 256 * pow2(k),
            b == m * pow2(k),
    ;
    lemma_encode_scale(top, a, 256, one);
    let code = encode(top, a, 256);
    assert(ratio(256, 1).code() != 0) by {
        assert(decode(0) == 0);
    }
    lemma_round_exact(x);
    lemma_encode_ordered(top, a, 256, a, 1);
    lemma_magnitude_ordered(code, encode(top, a, 1));
    if 256 * b <= a {
        lemma_encode_ordered(top, b, 1, a, 256);
        lemma_magnitude_ordered(encode(top, b, 1), code);
    }
    if a <= 256 * b {
        lemma_encode_ordered(top, a, 256, b, 1);
        lemma_magnitude_ordered(code, encode(top, b, 1));
    }
}

/// The nearest whole number of a number that is not negative and not too large, at least 1.
proof fn lemma_whole_gap(q: Double, k: nat)
    requires
        q.is_finite(),
        !q.negative(),
        q.magnitude() <= 0x100_0000 * one_units(),
    ensures
        ({
            let g = q.round().max(ratio(1, 1)).to_index();
            &&& g >= 1
            &&& 2 * q.magnitude() + one_units() >= 2 * k * one_units() ==> g >= k
            &&& k >= 1 && 2 * q.magnitude() < (2 * k - 1) * one_units() ==> g < k || g == 1
        }),
{
    broadcast use lemma_build;

    reveal(Double::round_spec);
    reveal(Double::to_index);
    let one = one_units();
    lemma_pow2_pos(1074);
    let w = q.whole();
    let rest = q.magnitude() % one;
    lemma_fundamental_div_mod(q.magnitude() as int, one as int);
    let near = if 2 * rest >= one {
        w + 1
    } else {
        w
    };
    assert(w <= 0x100_0000) by (nonlinear_arith)
        requires
            one * w <= 0x100_0000 * one,
            one > 0,
    ;
    lemma_exact_integer(near);
    lemma_exact_integer(1);
    lemma_value_order(q.round(), ratio(1, 1));
    let g = q.round().max(ratio(1, 1)).to_index();
    assert(near < 1 ==> near * one == 0) by (nonlinear_arith);
    assert(near >= 1 ==> near * one >= 1 * one) by (nonlinear_arith);
    let x = if near >= 1 {
        near
    } else {
        1
    };
    lemma_quotient(x * one, one, x, 0);
    if 2 * q.magnitude() + one >= 2 * k * one && near < k {
        assert(false) by (nonlinear_arith)
            requires
                2 * q.magnitude() + one >= 2 * k * one,
                q.magnitude() == one * w + rest,
                rest < one,
                near == if 2 * rest >= one { w + 1 } else { w },
                near < k,
                one > 0,
        ;
    }
    if k >= 1 && 2 * q.magnitude() < (2 * k - 1) * one && near >= k {
        assert(false) by (nonlinear_arith)
            requires
                2 * q.magnitude() < (2 * k - 1) * one,
                q.magnitude() == one * w + rest,
                near == if 2 * rest >= one { w + 1 } else { w },
                near >= k,
                one > 0,
        ;
    }
}

/// Where the rate is far enough from a tie, so are 20 ms in frames.
proof fn lemma_gap_frames(sample_rate: u32, t: nat)
    requires
        t <= 85_900_000,
    ensures
        ({
            let q = gap_frames(sample_rate);
            &&& q.is_finite()
            &&& !q.negative()
            &&& q.magnitude() <= 0x100_0000 * one_units()
            &&& sample_rate >= 50 * t + 1 ==> q.magnitude() >= t * pow2(1066)
            &&& t > 0 && sample_rate + 1 <= 50 * t ==> q.magnitude() <= (64 * t - 1) * pow2(1060)
        }),
{
    let r = sample_rate as nat;
    let f = ratio(2, 100).magnitude();
    let p = pow2(1035);
    let one = one_units();
    let x = ratio(r, 1) * ratio(2, 100);
    lemma_fiftieth();
    lemma_pow2_pos(1035);
    lemma2_to64();
    lemma_pow2_adds(8, 1074);
    // It is not too large.
    lemma_product_bound(sample_rate, 0x1_0000_0000, 1074);
    assert(r * f <= 0x1_0000_0000 * one) by (nonlinear_arith)
        requires
            r <= 0x1_0000_0000,
            f <= one,
    ;
    lemma_part_bound(x, 0x100_0000, 1074);
    if r >= 50 * t + 1 {
        lemma_product_bound(sample_rate, t, 1074);
        assert(t * one <= r * f) by (nonlinear_arith)
            requires
                r >= 50 * t + 1,
                t <= 85_900_000,
                f >= 10_995_116_277 * p,
                one == 0x80_0000_0000 * p,
                p > 0,
        ;
        lemma_part_bound(x, t, 1066);
    }
    if t > 0 && r + 1 <= 50 * t {
        let m = (64 * t - 1) as nat;
        lemma_product_bound(sample_rate, m, 1068);
        let u = pow2(1068);
        assert(r * f <= m * u) by (nonlinear_arith)
            requires
                r + 1 <= 50 * t,
                0 < t <= 85_900_000,
                f <= 10_995_116_278 * p,
                u == 0x2_0000_0000 * p,
                m == 64 * t - 1,
                p > 0,
        ;
        lemma_part_bound(x, m, 1060);
    }
}

/// The least distance between onsets is the whole number of frames nearest to 20 ms, but at
/// least one frame. A frame every 256 samples makes 12800 times the distance the number of
/// samples per second, to within half a frame.
pub proof fn lemma_min_gap(sample_rate: u32)
    ensures
        min_gap(sample_rate) >= 1,
        min_gap(sample_rate) == 1 || 12_800 * min_gap(sample_rate) <= sample_rate + 6_400,
        sample_rate <= 12_800 * min_gap(sample_rate) + 6_400,
{
    let q = gap_frames(sample_rate);
    let g = min_gap(sample_rate);
    let one = one_units();
    lemma2_to64();
    lemma_pow2_adds(8, 1066);
    lemma_pow2_adds(6, 1060);
    lemma_gap_frames(sample_rate, 0);
    lemma_whole_gap(q, 0);
    let h = pow2(1066);
    if sample_rate > 12_800 * g + 6_400 {
        let t = 128 * (2 * g + 1);
        lemma_gap_frames(sample_rate, t);
        lemma_whole_gap(q, g + 1);
        assert(2 * q.magnitude() + one >= 2 * (g + 1) * one) by (nonlinear_arith)
            requires
                q.magnitude() >= t * h,
                t == 128 * (2 * g + 1),
                one == 256 * h,
        ;
    }
    if g > 1 && 12_800 * g > sample_rate + 6_400 {
        let l = ((sample_rate + 6_400) / 12_800 + 1) as nat;
        let t = (128 * (2 * l - 1)) as nat;
        assert(l <= g);
        lemma_gap_frames(sample_rate, t);
        lemma_whole_gap(q, l);
        let v = pow2(1060);
        lemma_pow2_pos(1060);
        assert(2 * q.magnitude() < (2 * l - 1) * one) by (nonlinear_arith)
            requires
                q.magnitude() <= (64 * t - 1) * v,
                t == 128 * (2 * l - 1),
                one == 256 * (64 * v),
                v > 0,
        ;
    }
}

/// Whether no frame within a distance of a frame exceeds it.
pub open spec fn is_highest_near(odf: Seq<Double>, n: int, distance: nat) -> bool {
    forall|j: int| 0 <= j < odf.len() && n - distance <= j <= n + distance ==> (#[trigger] odf[j]).le(odf[n])
}

/// Whether a frame has neighbors, is the highest within the least distance, and exceeds its
/// threshold.
pub open spec fn stands_out(odf: Seq<Double>, n: int, sample_rate: u32) -> bool {
    &&& 0 < n < odf.len() - 1
    &&& is_highest_near(odf, n, min_gap(sample_rate))
    &&& threshold(odf, n).lt(odf[n])
}

/// Two ways to tell that a frame is the highest nearby.
proof fn lemma_highest(odf: Seq<Double>, n: int, distance: nat)
    requires
        0 <= n < odf.len(),
    ensures
        is_local_max(odf, n, distance as int) == is_highest_near(odf, n, distance),
{
    let from = near_begin(n, distance as int);
    let to = near_end(n, distance as int, odf.len() as int);
    if is_local_max(odf, n, distance as int) {
        assert forall|j: int| 0 <= j < odf.len() && n - distance <= j <= n + distance implies (#[trigger] odf[j]).le(
            odf[n],
        ) by {
            assert(from <= j < to);
        }
    }
    if is_highest_near(odf, n, distance) {
        assert forall|j: int| from <= j < to implies (#[trigger] odf[j]).le(odf[n]) by {
            assert(0 <= j < odf.len() && n - distance <= j <= n + distance);
        }
    }
}

/// Whether a frame is at most so far behind one of some frames.
pub open spec fn follows(frames: Seq<nat>, n: int, distance: nat) -> bool {
    exists|k: int| 0 <= k < frames.len() && (#[trigger] frames[k]) <= n && n - frames[k] < distance
}

/// Every frame that stands out is a peak or follows one closely.
proof fn lemma_followed(odf: Seq<Double>, gap: nat, m: int, n: int)
    requires
        0 < n < m,
        m <= odf.len() - 1,
        gap >= 1,
        is_local_max(odf, n, gap as int),
        threshold(odf, n).lt(odf[n]),
    ensures
        follows(peaks(odf, gap, m), n, gap),
    decreases m,
{
    let before = peaks(odf, gap, m - 1);
    let all = peaks(odf, gap, m);
    if n < m - 1 {
        lemma_followed(odf, gap, m - 1, n);
        let k = choose|k: int| 0 <= k < before.len() && (#[trigger] before[k]) <= n && n - before[k] < gap;
        assert(all[k] == before[k]);
    } else {
        let last = if before.len() > 0 {
            Some(before.last())
        } else {
            None
        };
        if is_peak(odf, n, gap, last) {
            assert(all[before.len() as int] == n);
        } else {
            let k = before.len() - 1;
            lemma_peaks(odf, gap, m - 1, k);
            assert(all[k] == before.last());
        }
    }
}

/// Peaks keep their distance, also from those that are not next to them.
proof fn lemma_peaks_apart(odf: Seq<Double>, gap: nat, m: int, k: int, l: int)
    requires
        0 <= k < l < peaks(odf, gap, m).len(),
    ensures
        peaks(odf, gap, m)[l] - peaks(odf, gap, m)[k] >= gap,
    decreases l - k,
{
    lemma_peaks(odf, gap, m, l);
    if k < l - 1 {
        lemma_peaks_apart(odf, gap, m, k, l - 1);
    }
}

/// The onsets are those of certain frames: all of these stand out, they are at least the
/// least distance apart, and no other frame is missed: every frame that stands out is one of
/// them or less than the least distance behind one. A detection function of less than nine
/// frames has no onsets.
pub proof fn lemma_peak_onsets(odf: Seq<Double>, sample_rate: u32)
    ensures
        odf.len() < 9 ==> peak_onsets(odf, sample_rate).len() == 0,
        odf.len() >= 9 ==> exists|frames: Seq<nat>|
            {
                &&& #[trigger] frames.len() == peak_onsets(odf, sample_rate).len()
                &&& forall|k: int|
                    0 <= k < frames.len() ==> {
                        &&& stands_out(odf, #[trigger] frames[k] as int, sample_rate)
                        &&& peak_onsets(odf, sample_rate)[k] == onset_at(odf, frames[k] as int)
                    }
                &&& forall|k: int, l: int|
                    0 <= k < l < frames.len() ==> (#[trigger] frames[l]) - (#[trigger] frames[k]) >= min_gap(sample_rate)
                &&& forall|n: int|
                    stands_out(odf, n, sample_rate) ==> #[trigger] follows(frames, n, min_gap(sample_rate))
            },
{
    if odf.len() >= 9 {
        let gap = min_gap(sample_rate);
        let m = odf.len() - 1;
        let frames = peaks(odf, gap, m);
        lemma_min_gap(sample_rate);
        assert forall|k: int| 0 <= k < frames.len() implies {
            &&& stands_out(odf, #[trigger] frames[k] as int, sample_rate)
            &&& peak_onsets(odf, sample_rate)[k] == onset_at(odf, frames[k] as int)
        } by {
            lemma_peaks(odf, gap, m, k);
            lemma_highest(odf, frames[k] as int, gap);
        }
        assert forall|k: int, l: int| 0 <= k < l < frames.len() implies (#[trigger] frames[l]) - (
        #[trigger] frames[k]) >= gap by {
            lemma_peaks_apart(odf, gap, m, k, l);
        }
        assert forall|n: int| stands_out(odf, n, sample_rate) implies #[trigger] follows(frames, n, gap) by {
            lemma_highest(odf, n, gap);
            lemma_followed(odf, gap, m, n);
        }
        assert(frames.len() == peak_onsets(odf, sample_rate).len());
    }
}

/// The other frames within three frames of a frame.
pub open spec fn neighbors(odf: Seq<Double>, n: int) -> Seq<Double> {
    let from = if n < 3 {
        0
    } else {
        n - 3
    };
    let to = if odf.len() < n + 4 {
        odf.len() as int
    } else {
        n + 4
    };
    odf.subrange(from, n) + odf.subrange(n + 1, to)
}

/// A peak has to exceed one and a half times the median of the other frames within three
/// frames, and a millionth. The median is the middle one in order, or the mean of the two
/// in the middle.
pub proof fn lemma_threshold(odf: Seq<Double>, n: int)
    requires
        0 < n < odf.len() - 1,
    ensures
        exists|o: Seq<Double>|
            {
                let mid = o.len() as int / 2;
                &&& #[trigger] ascending(o)
                &&& o.to_multiset() =~= neighbors(odf, n).to_multiset()
                &&& o.len() == neighbors(odf, n).len()
                &&& o.len() % 2 == 1 ==> threshold(odf, n) == o[mid] * ratio(3, 2) + ratio(1, 1_000_000)
                &&& o.len() % 2 == 0 ==> threshold(odf, n) == (o[mid - 1] + o[mid]) / ratio(2, 1) * ratio(3, 2) + ratio(
                    1,
                    1_000_000,
                )
            },
{
    let s = neighbors(odf, n);
    assert(surroundings(odf, n) == s);
    lemma_ordered(s);
    let one = one_units();
    lemma_encode_scale(TOP as nat, 3 * one, 2, 5);
    assert(15 * one == (3 * one) * 5);
    assert(ratio(15, 10) == ratio(3, 2));
    assert(ascending(ordered(s)));
}

/// Whether a number is finite and less than two to the 900, so that the sum of a few like
/// it is finite too.
pub open spec fn is_moderate(x: Double) -> bool {
    x.is_finite() && x.magnitude() <= pow2(1974)
}

/// A rounded number of units that is not too large is finite, and not larger than that.
proof fn lemma_rounded_moderate(v: int, k: nat)
    requires
        -(pow2(k) as int) <= v <= pow2(k),
        k <= 2045,
    ensures
        rounded(v).is_finite(),
        rounded(v).magnitude() <= pow2(k),
{
    broadcast use lemma_build;

    let top = TOP as nat;
    let n = if v < 0 {
        (-v) as nat
    } else {
        v as nat
    };
    lemma_exact(false, 1, k);
    assert(1 * pow2(k) == pow2(k));
    lemma_encode_ordered(top, n, 1, pow2(k), 1);
    lemma_magnitude_ordered(encode(top, n, 1), encode(top, pow2(k), 1));
}

/// Twice a moderate number is exact.
pub(crate) proof fn lemma_twice(x: Double)
    requires
        is_moderate(x),
    ensures
        (ratio(2, 1) * x).is_finite(),
        (ratio(2, 1) * x).value() == 2 * x.value(),
{
    broadcast use lemma_build;

    reveal(Double::times);
    let top = TOP as nat;
    let one = one_units();
    let m = x.magnitude();
    lemma_product_commutes(ratio(2, 1), x);
    lemma_exact_integer(2);
    lemma_pow2_pos(1074);
    lemma_pow2_unfold(1975);
    lemma_exact(false, 1, 1975);
    assert(1 * pow2(1975) == pow2(1975));
    assert(m * (2 * one) == (2 * m) * one) by (nonlinear_arith);
    lemma_encode_scale(top, 2 * m, 1, one);
    assert(1 * one == one);
    lemma_encode_ordered(top, 2 * m, 1, pow2(1975), 1);
    lemma_doubled(x);
    lemma_value_scaled(2, x, x * ratio(2, 1));
}

/// The bend of the parabola through a peak and its neighbors, as it is computed.
spec fn bend(before: Double, peak: Double, after: Double) -> Double {
    before - ratio(2, 1) * peak + after
}

/// A peak bends down, at least as much as its neighbors differ.
proof fn lemma_bend(before: Double, peak: Double, after: Double)
    requires
        is_moderate(before),
        is_moderate(peak),
        is_moderate(after),
        before.le(peak),
        after.le(peak),
    ensures
        bend(before, peak, after).is_finite(),
        bend(before, peak, after).value() <= 0,
        (before - after).is_finite(),
        (before - after).magnitude() <= pow2(1975),
        after.le(before) ==> (before - after).value() >= 0 && (before - after).value() <= -bend(
            before,
            peak,
            after,
        ).value(),
        before.le(after) ==> (before - after).value() <= 0,
{
    broadcast use lemma_build;

    let twice = ratio(2, 1) * peak;
    let minus_a = before.neg();
    let minus_b = after.neg();
    lemma_twice(peak);
    lemma_value_order(before, peak);
    lemma_value_order(after, peak);
    lemma_value_order(after, before);
    lemma_value_order(before, after);
    lemma_pow2_unfold(1975);
    lemma_pow2_unfold(1976);
    lemma_pow2_unfold(1977);
    assert(zero().value() == 0);
    let x = before - twice;
    lemma_sum_bounded(before, twice.neg(), minus_a, 1976);
    lemma_sum_bounded(before, twice.neg(), minus_b, 1976);
    let d = bend(before, peak, after);
    lemma_sum_bounded(x, after, zero(), 1977);
    let n = before - after;
    lemma_sum_bounded(before, minus_b, zero(), 1975);
    if after.le(before) {
        lemma_value_order(x, minus_a);
        lemma_sum_ordered(x, minus_a, after);
        let other = minus_a + after;
        lemma_sum_bounded(minus_a, after, zero(), 1975);
        lemma_value_order(d, other);
        lemma_sum_negated(before, after);
    }
}

/// A sum that is not too large, and what it is at most or at least.
pub(crate) proof fn lemma_sum_bounded(x: Double, y: Double, w: Double, k: nat)
    requires
        x.is_finite(),
        y.is_finite(),
        w.is_finite(),
        -(pow2(k) as int) <= x.value() + y.value() <= pow2(k),
        k <= 2045,
    ensures
        (x + y).is_finite(),
        (x + y).magnitude() <= pow2(k),
        x.value() + y.value() <= w.value() ==> (x + y).value() <= w.value(),
        x.value() + y.value() >= w.value() ==> (x + y).value() >= w.value(),
{
    let v = x.value() + y.value();
    let r = rounded(v);
    lemma_sum_rounded(x, y);
    lemma_rounded_moderate(v, k);
    lemma_value_order(x + y, r);
    lemma_rounded_exact(w);
    lemma_value_order(x + y, w);
    lemma_value_order(w, x + y);
    if v <= w.value() {
        lemma_rounded_ordered(v, w.value());
    }
    if v >= w.value() {
        lemma_rounded_ordered(w.value(), v);
    }
}

/// A difference the other way round.
proof fn lemma_sum_negated(a: Double, b: Double)
    requires
        a.is_finite(),
        b.is_finite(),
        (a - b).is_finite(),
        (a.neg() + b).is_finite(),
    ensures
        (a.neg() + b).value() == -(a - b).value(),
{
    broadcast use lemma_build;

    reveal(sum_to);
    assert(decode(0) == 0);
}

/// The top of the parabola lies on the side of the higher neighbor, and not more than half a
/// frame before the peak.
proof fn lemma_top(before: Double, peak: Double, after: Double)
    requires
        is_moderate(before),
        is_moderate(peak),
        is_moderate(after),
        before.le(peak),
        after.le(peak),
    ensures
        ({
            let t = parabola_top(before, peak, after);
            &&& t.is_finite()
            &&& t.magnitude() <= pow2(2015)
            &&& after.le(before) ==> -(pow2(1073) as int) <= t.value() <= 0
            &&& before.le(after) ==> t.value() >= 0
        }),
{
    broadcast use lemma_build;

    let top = TOP as nat;
    let one = one_units();
    let d = bend(before, peak, after);
    let n = before - after;
    let least = ratio(1, 1_000_000_000_000);
    lemma_bend(before, peak, after);
    lemma_pow2_unfold(1074);
    lemma_pow2_pos(1073);
    assert(zero().value() == 0);
    lemma_ratio_positive(1, 1_000_000_000_000);
    if !d.abs().lt(least) {
        let h = ratio(1, 2) * n;
        let t = h / d;
        assert(parabola_top(before, peak, after) == t);
        lemma_least_bend();
        lemma_value_order(d.abs(), least);
        let m = d.magnitude();
        assert(m >= pow2(1034));
        lemma_pow2_pos(1034);
        assert(d.code() != 0) by {
            assert(decode(0) == 0);
        }
        lemma_halved(n);
        reveal(quotient_to);
        lemma_quotient_moderate(h, d);
        if after.le(before) {
            let k = h.magnitude();
            assert(2 * k <= m) by {
                if n.magnitude() % 2 != 0 {
                    lemma2_to64();
                    lemma2_to64_rest();
                    lemma_pow2_strictly_increases(54, 1034);
                    lemma_pow2_unfold(54);
                    if n.magnitude() >= pow2(53) {
                        crate::grain::lemma_multiple(n, 1);
                    }
                }
            }
            assert((k * one) * 1 <= pow2(1073) * m) by (nonlinear_arith)
                requires
                    2 * k <= m,
                    one == 2 * pow2(1073),
            ;
            lemma_encode_ordered(top, k * one, m, pow2(1073), 1);
            lemma_exact(false, 1, 1073);
            assert(1 * pow2(1073) == pow2(1073));
            lemma_magnitude_ordered(encode(top, k * one, m), encode(top, pow2(1073), 1));
            if k == 0 {
                assert(0 * one == 0);
                lemma_encode_zero(top, m);
                assert(decode(0) == 0);
            }
        }
        if before.le(after) {
            if h.magnitude() == 0 {
                assert(0 * one == 0);
                lemma_encode_zero(top, m);
                assert(decode(0) == 0);
            }
        }
    }
}

/// A quotient of such numbers is not too large.
proof fn lemma_quotient_moderate(h: Double, d: Double)
    requires
        h.is_finite(),
        d.is_finite(),
        d.code() != 0,
        h.magnitude() <= pow2(1975),
        d.magnitude() >= pow2(1034),
    ensures
        (h / d).is_finite(),
        (h / d).magnitude() <= pow2(2015),
{
    broadcast use lemma_build;

    reveal(quotient_to);
    let top = TOP as nat;
    let one = one_units();
    let k = h.magnitude();
    let m = d.magnitude();
    lemma_pow2_pos(1034);
    lemma_pow2_adds(1975, 1074);
    lemma_pow2_adds(2015, 1034);
    assert((k * one) * 1 <= pow2(2015) * m) by (nonlinear_arith)
        requires
            k <= pow2(1975),
            m >= pow2(1034),
            pow2(1975) * one == pow2(2015) * pow2(1034),
    ;
    lemma_encode_ordered(top, k * one, m, pow2(2015), 1);
    lemma_exact(false, 1, 2015);
    assert(1 * pow2(2015) == pow2(2015));
    lemma_magnitude_ordered(encode(top, k * one, m), encode(top, pow2(2015), 1));
}

/// The least bend that counts is not too small.
proof fn lemma_least_bend()
    ensures
        ratio(1, 1_000_000_000_000).is_finite(),
        ratio(1, 1_000_000_000_000).value() >= pow2(1034),
{
    broadcast use lemma_build;

    let top = TOP as nat;
    lemma2_to64();
    lemma2_to64_rest();
    lemma_pow2_adds(40, 1034);
    lemma_exact(false, 1, 1034);
    assert(1 * pow2(1034) == pow2(1034));
    lemma_encode_ordered(top, pow2(1034), 1, 1 * one_units(), 1_000_000_000_000);
    lemma_magnitude_ordered(encode(top, pow2(1034), 1), encode(top, 1 * one_units(), 1_000_000_000_000));
    lemma_ratio_ordered(1, 1_000_000_000_000, 1, 1);
    lemma_exact_integer(1);
}

/// Half of a number has its sign, is not larger, and is exact where the number is even.
pub(crate) proof fn lemma_halved(n: Double)
    requires
        n.is_finite(),
    ensures
        (ratio(1, 2) * n).is_finite(),
        (ratio(1, 2) * n).negative() == n.negative(),
        (ratio(1, 2) * n).magnitude() <= n.magnitude(),
        n.magnitude() % 2 == 0 ==> 2 * (ratio(1, 2) * n).magnitude() == n.magnitude(),
{
    broadcast use lemma_build;

    let a = n.abs();
    lemma_half_product(a);
    lemma_half(a);
    lemma_product_commutes(ratio(1, 2), n);
    lemma_ratio_positive(1, 2);
    lemma_ratio_ordered(1, 2, 1, 1);
    lemma_exact_integer(1);
    reveal(Double::times);
}

/// The sample of a place between frames.
spec fn sample_of(frame: Double) -> nat {
    (frame * ratio(256, 1) + ratio(600, 1)).max(zero()).to_index()
}

/// 256 times a number that is not negative.
proof fn lemma_samples(frame: Double, m: nat)
    requires
        frame.is_finite(),
        !frame.negative(),
        frame.magnitude() <= pow2(2016),
        m < TOP,
    ensures
        ({
            let x = frame * ratio(256, 1);
            &&& x.is_finite()
            &&& !x.negative()
            &&& x.magnitude() <= pow2(2024)
            &&& m * pow2(1073) <= frame.magnitude() ==> m * pow2(1081) <= x.magnitude()
            &&& frame.magnitude() <= m * pow2(1073) ==> x.magnitude() <= m * pow2(1081)
        }),
{
    broadcast use lemma_build;

    reveal(Double::times);
    let top = TOP as nat;
    let one = one_units();
    let a = frame.magnitude();
    let p = pow2(1073);
    lemma_pow2_pos(1074);
    lemma2_to64();
    lemma_pow2_adds(8, 1073);
    lemma_pow2_adds(8, 2016);
    lemma_exact_integer(256);
    lemma_exact(false, m, 1081);
    lemma_exact(false, 1, 2024);
    assert(1 * pow2(2024) == pow2(2024));
    assert(a * (256 * one) == (256 * a) * one) by (nonlinear_arith);
    lemma_encode_scale(top, 256 * a, 1, one);
    assert(1 * one == one);
    let code = encode(top, 256 * a, 1);
    let b = m * pow2(1081);
    assert(b == 256 * (m * p)) by (nonlinear_arith)
        requires
            b == m * pow2(1081),
            pow2(1081) == 256 * p,
    ;
    lemma_encode_ordered(top, 256 * a, 1, pow2(2024), 1);
    lemma_magnitude_ordered(code, encode(top, pow2(2024), 1));
    if m * p <= a {
        lemma_encode_ordered(top, b, 1, 256 * a, 1);
        lemma_magnitude_ordered(encode(top, b, 1), code);
    }
    if a <= m * p {
        lemma_encode_ordered(top, 256 * a, 1, b, 1);
        lemma_magnitude_ordered(code, encode(top, b, 1));
    }
}

/// The sample of a place between frames, from half frames.
proof fn lemma_sample_of(frame: Double, m: nat)
    requires
        frame.is_finite(),
        !frame.negative(),
        frame.magnitude() <= pow2(2016),
        m <= 0x200_0000_0000,
        128 * m + 600 <= usize::MAX,
    ensures
        m * pow2(1073) <= frame.magnitude() ==> 128 * m + 600 <= sample_of(frame),
        frame.magnitude() <= m * pow2(1073) ==> sample_of(frame) <= 128 * m + 600,
{
    broadcast use lemma_build;

    let one = one_units();
    let x = frame * ratio(256, 1);
    lemma_samples(frame, m);
    lemma_exact_integer(600);
    let w = 128 * m + 600;
    lemma_exact_integer(w);
    lemma2_to64();
    lemma_pow2_adds(7, 1074);
    lemma_pow2_pos(1074);
    lemma_pow2_unfold(2025);
    lemma_pow2_adds(10, 1074);
    lemma_pow2_strictly_increases(1084, 2024);
    lemma_sum_bounded(x, ratio(600, 1), ratio(w, 1), 2025);
    lemma_sum_bounded(x, ratio(600, 1), zero(), 2025);
    assert(zero().value() == 0);
    let y = x + ratio(600, 1);
    assert(m * pow2(1081) == (128 * m) * one) by (nonlinear_arith)
        requires
            pow2(1081) == 128 * one,
    ;
    assert(w * one == (128 * m) * one + 600 * one) by (nonlinear_arith)
        requires
            w == 128 * m + 600,
    ;
    lemma_value_order(y, zero());
    lemma_value_order(zero(), y);
    reveal(Double::to_index);
    let z = y.max(zero());
    assert(z.value() == y.value());
    if m * pow2(1073) <= frame.magnitude() {
        assert(y.value() >= w * one);
        assert(w * one > 0) by (nonlinear_arith)
            requires
                w > 0,
                one > 0,
        ;
        lemma_div_is_ordered((w * one) as int, z.magnitude() as int, one as int);
        lemma_quotient(w * one, one, w, 0);
    }
    if frame.magnitude() <= m * pow2(1073) {
        assert(y.value() <= w * one);
        if z.negative() {
            assert(z.magnitude() == 0);
        } else {
            lemma_div_is_ordered(z.magnitude() as int, (w * one) as int, one as int);
            lemma_quotient(w * one, one, w, 0);
        }
    }
}

/// The onset of a frame lies at the top of the parabola through the frame and its neighbors:
/// half the difference of the neighbors, divided by the bend, in frames from the frame. Where
/// there is hardly any bend, it lies at the frame. Frames are 256 samples apart, and 600
/// samples are added.
pub proof fn lemma_onset_place(odf: Seq<Double>, n: int)
    requires
        0 < n < odf.len() - 1,
    ensures
        ({
            let bend = (odf[n - 1] - ratio(2, 1) * odf[n]) + odf[n + 1];
            let top = if bend.abs().lt(ratio(1, 1_000_000_000_000)) {
                zero()
            } else {
                ratio(1, 2) * (odf[n - 1] - odf[n + 1]) / bend
            };
            let place = (ratio(n as nat, 1) + top) * ratio(256, 1) + ratio(600, 1);
            &&& onset_at(odf, n).pos as nat == place.max(zero()).to_index()
            &&& onset_at(odf, n).strength == odf[n]
        }),
{
    reveal(Double::to_index);
}

/// The onset of a frame that is higher than its neighbors lies 600 samples behind its start
/// where both are equally high. Else it lies on the side of the higher one, and not more than
/// half the distance between frames before that. It is as strong as the frame is high.
pub proof fn lemma_onset_at(odf: Seq<Double>, n: int)
    requires
        0 < n < odf.len() - 1,
        n <= 0x100_0000_0000,
        256 * n + 600 <= usize::MAX,
        is_moderate(odf[n - 1]),
        is_moderate(odf[n]),
        is_moderate(odf[n + 1]),
        odf[n - 1].le(odf[n]),
        odf[n + 1].le(odf[n]),
    ensures
        onset_at(odf, n).strength == odf[n],
        odf[n + 1].le(odf[n - 1]) ==> 256 * n + 472 <= onset_at(odf, n).pos <= 256 * n + 600,
        odf[n - 1].le(odf[n + 1]) ==> onset_at(odf, n).pos >= 256 * n + 600,
{
    broadcast use lemma_build;

    let t = parabola_top(odf[n - 1], odf[n], odf[n + 1]);
    let m = n as nat;
    let one = one_units();
    let p = pow2(1073);
    let frame = ratio(m, 1) + t;
    lemma_top(odf[n - 1], odf[n], odf[n + 1]);
    lemma_exact_integer(m);
    lemma_pow2_unfold(1074);
    lemma_pow2_pos(1073);
    lemma2_to64();
    lemma2_to64_rest();
    lemma_pow2_adds(41, 1074);
    lemma_pow2_strictly_increases(1115, 2015);
    lemma_pow2_unfold(2016);
    let v = m * one;
    assert(v <= pow2(1115)) by (nonlinear_arith)
        requires
            v == m * one,
            m <= 0x100_0000_0000,
            pow2(1115) == 0x200_0000_0000 * one,
    ;
    assert(v == (2 * m) * p) by (nonlinear_arith)
        requires
            v == m * one,
            one == 2 * p,
    ;
    let low = (2 * m - 1) as nat;
    lemma_exact(false, low, 1073);
    let w = round(false, low * p, 1);
    assert(low * p == v - p) by (nonlinear_arith)
        requires
            v == (2 * m) * p,
            low == 2 * m - 1,
    ;
    lemma_sum_bounded(ratio(m, 1), t, ratio(m, 1), 2016);
    lemma_sum_bounded(ratio(m, 1), t, w, 2016);
    lemma_sum_bounded(ratio(m, 1), t, zero(), 2016);
    assert(low * p > 0) by (nonlinear_arith)
        requires
            low > 0,
            p > 0,
    ;
    if odf[n + 1].le(odf[n - 1]) {
        assert(frame.value() > 0);
        lemma_sample_of(frame, low);
        lemma_sample_of(frame, 2 * m);
    }
    if odf[n - 1].le(odf[n + 1]) {
        assert(frame.value() > 0);
        lemma_sample_of(frame, 2 * m);
    }
    assert(onset_at(odf, n).pos as nat == sample_of(frame)) by {
        reveal(Double::to_index);
    }
}

} // verus!
