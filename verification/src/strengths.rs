//! The meter depends on how strong onsets are relative to each other: twice the strengths
//! give the same estimate.

use crate::convert::lemma_ratio_positive;
use crate::double::{decode, lemma_build, lemma_rebuild, one_units, ratio, zero, Double, TOP};
use crate::grain::{
    grained, lemma_coarser, lemma_double_grained, lemma_fewer, lemma_multiple, lemma_nothing_grained, lemma_one_more,
    lemma_product_grained, lemma_share_grained, lemma_sum_grained, lemma_total_grained,
};
use crate::interval::samples_per_minute;
use crate::meter::{
    accent, accents, accents_meter, beat_grid, centered, correlation, covered, earliest, energy, grouping, latest,
    meter_of, scores, strongest, uniform, weakest,
};
use crate::order::{mean, no_sum, total};
use crate::precision::{lemma_sum_rounded, lemma_value_order};
use crate::scaling::{
    all_scaled, keeps_digits, lemma_doubled, lemma_neg_scaled, lemma_product_finite, lemma_product_scaled,
    lemma_quotient_finite, lemma_quotient_same, lemma_quotient_scaled, lemma_sum_finite, lemma_sum_scaled,
    lemma_total_finite, lemma_total_scaled, lemma_value_scaled, scaled,
};
use crate::Onset;
use vstd::arithmetic::power2::*;
use vstd::prelude::*;

verus! {

/// Onsets with twice the strength.
pub open spec fn doubled(onsets: Seq<Onset>) -> Seq<Onset> {
    onsets.map_values(|o: Onset| Onset { strength: o.strength * ratio(2, 1), ..o })
}

/// The accents of the beats that the estimate of a meter counts.
pub open spec fn counted_accents(
    onsets: Seq<Onset>,
    samples: Seq<Double>,
    sample_rate: u32,
    bpm: Double,
    offset: Double,
) -> Seq<Double> {
    let interval = samples_per_minute(sample_rate) / bpm;
    match beat_grid(offset * ratio(sample_rate as nat, 1), interval, samples.len()) {
        None => Seq::empty(),
        Some(all) => accents(onsets, samples, sample_rate, covered(all, onsets), interval),
    }
}

/// Whether numbers `lag` apart are multiplied: each with itself, and at the lags of the
/// groupings that have enough bars.
pub open spec fn is_compared(lag: int, len: nat) -> bool {
    lag == 0 || exists|k: int| 0 <= k < 5 && lag == #[trigger] grouping(k) && len >= 4 * grouping(k)
}

/// Whether the mean of some accents, and the products of what remains without it, are not
/// so small that digits are lost.
pub open spec fn no_underflow(accents: Seq<Double>) -> bool {
    let c = centered(accents);
    &&& keeps_digits(total(accents).magnitude() * one_units(), ratio(accents.len(), 1).magnitude())
    &&& forall|i: int, j: int|
        0 <= i <= j < c.len() && is_compared(j - i, c.len()) ==> keeps_digits(
            (#[trigger] c[i]).magnitude() * (#[trigger] c[j]).magnitude(),
            one_units(),
        )
}

/// Whether the sums that some accents make are finite.
pub open spec fn no_overflow(accents: Seq<Double>) -> bool {
    let c = centered(accents);
    &&& energy(c).is_finite()
    &&& forall|k: int|
        0 <= k < 5 && c.len() >= 4 * grouping(k) ==> (#[trigger] correlation(
            c,
            grouping(k) as int,
            c.len() - grouping(k),
        )).is_finite()
}

/// The accent of a beat doubles with the strengths.
proof fn lemma_accent_doubled(onsets: Seq<Onset>, beat: usize, distance: Double, n: int)
    requires
        0 <= n <= onsets.len(),
        forall|i: int| 0 <= i < onsets.len() ==> (#[trigger] doubled(onsets)[i]).strength.is_finite(),
        accent(doubled(onsets), beat, distance, n).is_finite(),
    ensures
        scaled(2, accent(onsets, beat, distance, n), accent(doubled(onsets), beat, distance, n)),
    decreases n,
{
    broadcast use lemma_build;

    if n > 0 {
        let two = doubled(onsets);
        let o = onsets[n - 1];
        assert(two[n - 1].strength.is_finite());
        lemma_doubled(o.strength);
        let near = (ratio(o.pos as nat, 1) - ratio(beat as nat, 1)).abs().le(distance);
        if near {
            lemma_sum_finite(accent(two, beat, distance, n - 1), two[n - 1].strength);
            lemma_accent_doubled(onsets, beat, distance, n - 1);
            lemma_sum_scaled(
                2,
                accent(onsets, beat, distance, n - 1),
                accent(two, beat, distance, n - 1),
                o.strength,
                two[n - 1].strength,
            );
        } else {
            lemma_accent_doubled(onsets, beat, distance, n - 1);
        }
    } else {
        assert(decode(0) == 0);
    }
}

/// The earliest and the latest onset do not depend on the strengths.
proof fn lemma_covered_doubled(onsets: Seq<Onset>, n: int)
    requires
        onsets.len() > 0,
        n <= onsets.len(),
    ensures
        earliest(doubled(onsets), n) == earliest(onsets, n),
        latest(doubled(onsets), n) == latest(onsets, n),
    decreases n,
{
    if n > 1 {
        lemma_covered_doubled(onsets, n - 1);
    }
}

/// The weakest and the strongest onset stay what they are.
proof fn lemma_extremes_doubled(onsets: Seq<Onset>, n: int)
    requires
        1 <= n <= onsets.len(),
        forall|i: int| 0 <= i < onsets.len() ==> (#[trigger] doubled(onsets)[i]).strength.is_finite(),
    ensures
        scaled(2, weakest(onsets, n), weakest(doubled(onsets), n)),
        scaled(2, strongest(onsets, n), strongest(doubled(onsets), n)),
        weakest(onsets, n).value() <= strongest(onsets, n).value(),
    decreases n,
{
    let two = doubled(onsets);
    assert(two[n - 1].strength.is_finite());
    lemma_doubled(onsets[n - 1].strength);
    if n > 1 {
        lemma_extremes_doubled(onsets, n - 1);
        let x = onsets[n - 1].strength;
        let y = two[n - 1].strength;
        lemma_value_order(x, weakest(onsets, n - 1));
        lemma_value_order(y, weakest(two, n - 1));
        lemma_value_order(strongest(onsets, n - 1), x);
        lemma_value_order(strongest(two, n - 1), y);
    }
}

/// A difference that is large enough still is when doubled.
proof fn lemma_difference_doubled(hi: Double, hi2: Double, lo: Double, lo2: Double, least: Double)
    requires
        scaled(2, hi, hi2),
        scaled(2, lo, lo2),
        lo.value() <= hi.value(),
        zero().lt(least),
        !(hi - lo).lt(least),
    ensures
        !(hi2 - lo2).lt(least),
{
    broadcast use lemma_build;

    lemma_neg_scaled(2, lo, lo2);
    lemma_value_scaled(2, lo, lo2);
    lemma_value_scaled(2, hi, hi2);
    let d = hi - lo;
    let d2 = hi2 - lo2;
    lemma_sum_rounded(hi2, lo2.neg());
    if d2.is_finite() {
        lemma_sum_scaled(2, hi, hi2, lo.neg(), lo2.neg());
        lemma_value_scaled(2, d, d2);
        if least.is_finite() {
            lemma_value_order(d, least);
            lemma_value_order(d2, least);
            lemma_value_order(zero(), least);
            assert(zero().value() == 0);
        }
    }
}

/// Strengths that carry information still do when doubled.
proof fn lemma_uniform_doubled(onsets: Seq<Onset>)
    requires
        !uniform(onsets),
        forall|i: int| 0 <= i < onsets.len() ==> (#[trigger] doubled(onsets)[i]).strength.is_finite(),
    ensures
        !uniform(doubled(onsets)),
{
    let n = onsets.len() as int;
    lemma_extremes_doubled(onsets, n);
    lemma_ratio_positive(5, 100);
    lemma_difference_doubled(
        strongest(onsets, n),
        strongest(doubled(onsets), n),
        weakest(onsets, n),
        weakest(doubled(onsets), n),
        ratio(5, 100),
    );
}

/// The difference from the mean doubles with the accents.
proof fn lemma_centered_doubled(s: Seq<Double>, t: Seq<Double>)
    requires
        s.len() > 0,
        all_scaled(2, s, t),
        keeps_digits(total(s).magnitude() * one_units(), ratio(s.len(), 1).magnitude()),
        forall|i: int| 0 <= i < t.len() ==> (#[trigger] centered(t)[i]).is_finite(),
    ensures
        all_scaled(2, centered(s), centered(t)),
{
    let count = ratio(s.len(), 1);
    lemma_ratio_positive(s.len(), 1);
    assert(centered(t)[0].is_finite());
    lemma_sum_finite(t[0], mean(t).neg());
    assert(mean(t).is_finite()) by {
        broadcast use lemma_build;

        lemma_rebuild(mean(t));
    }
    lemma_quotient_finite(total(t), count);
    lemma_total_scaled(2, s, t);
    lemma_quotient_scaled(total(s), total(t), count);
    lemma_neg_scaled(2, mean(s), mean(t));
    assert forall|i: int| 0 <= i < s.len() implies scaled(2, #[trigger] centered(s)[i], centered(t)[i]) by {
        assert(centered(t)[i].is_finite());
        assert(scaled(2, s[i], t[i]));
        lemma_sum_scaled(2, s[i], t[i], mean(s).neg(), mean(t).neg());
    }
}

/// The energy of doubled numbers is four times the energy.
proof fn lemma_energy_doubled(c: Seq<Double>, d: Seq<Double>)
    requires
        all_scaled(2, c, d),
        energy(d).is_finite(),
        forall|i: int|
            0 <= i < c.len() ==> keeps_digits((#[trigger] c[i]).magnitude() * c[i].magnitude(), one_units()),
    ensures
        scaled(4, energy(c), energy(d)),
{
    let s = c.map_values(|x: Double| x * x);
    let t = d.map_values(|x: Double| x * x);
    assert forall|i: int| 0 <= i < s.len() implies scaled(4, #[trigger] s[i], t[i]) by {
        lemma_total_finite(t, i);
        assert(scaled(2, c[i], d[i]));
        lemma_product_scaled(c[i], d[i], c[i], d[i]);
    }
    lemma_total_scaled(4, s, t);
}

/// The correlation of doubled numbers is four times the correlation.
proof fn lemma_correlation_doubled(c: Seq<Double>, d: Seq<Double>, lag: int, n: int)
    requires
        all_scaled(2, c, d),
        0 <= lag,
        n + lag <= c.len(),
        correlation(d, lag, n).is_finite(),
        forall|i: int|
            0 <= i < n ==> keeps_digits((#[trigger] c[i]).magnitude() * c[i + lag].magnitude(), one_units()),
    ensures
        scaled(4, correlation(c, lag, n), correlation(d, lag, n)),
    decreases n,
{
    broadcast use lemma_build;

    if n > 0 {
        let i = n - 1;
        lemma_sum_finite(correlation(d, lag, n - 1), d[i] * d[i + lag]);
        lemma_correlation_doubled(c, d, lag, n - 1);
        assert(scaled(2, c[i], d[i]));
        assert(scaled(2, c[i + lag], d[i + lag]));
        lemma_product_scaled(c[i], d[i], c[i + lag], d[i + lag]);
        lemma_sum_scaled(
            4,
            correlation(c, lag, n - 1),
            correlation(d, lag, n - 1),
            c[i] * c[i + lag],
            d[i] * d[i + lag],
        );
    } else {
        assert(decode(0) == 0);
    }
}

/// Doubled accents have the same scores.
proof fn lemma_scores_doubled(s: Seq<Double>, t: Seq<Double>, k: int)
    requires
        0 <= k <= 5,
        all_scaled(2, centered(s), centered(t)),
        scaled(4, energy(centered(s)), energy(centered(t))),
        !energy(centered(s)).is_zero(),
        no_underflow(s),
        no_overflow(t),
    ensures
        scores(centered(t), k) == scores(centered(s), k),
    decreases k,
{
    if k > 0 {
        lemma_scores_doubled(s, t, k - 1);
        let c = centered(s);
        let d = centered(t);
        let g = grouping(k - 1);
        if c.len() >= 4 * g {
            assert(is_compared(g as int, c.len()));
            assert forall|i: int| 0 <= i < c.len() - g implies keeps_digits(
                (#[trigger] c[i]).magnitude() * c[i + g].magnitude(),
                one_units(),
            ) by {
                assert(is_compared((i + g) - i, c.len()));
            }
            assert(correlation(d, g as int, d.len() - g).is_finite());
            lemma_correlation_doubled(c, d, g as int, c.len() - g);
            lemma_quotient_same(
                4,
                correlation(c, g as int, c.len() - g),
                correlation(d, g as int, c.len() - g),
                energy(c),
                energy(d),
            );
        }
    }
}

/// Doubled accents give the same estimate.
proof fn lemma_accents_doubled(s: Seq<Double>, t: Seq<Double>, triplet_feel: bool)
    requires
        all_scaled(2, s, t),
        s.len() > 0,
        no_underflow(s),
        no_overflow(t),
        accents_meter(s, triplet_feel) is Some,
    ensures
        accents_meter(t, triplet_feel) == accents_meter(s, triplet_feel),
{
    let c = centered(s);
    let d = centered(t);
    let squares = d.map_values(|x: Double| x * x);
    assert forall|i: int| 0 <= i < d.len() implies (#[trigger] d[i]).is_finite() by {
        lemma_total_finite(squares, i);
        assert(squares[i] == d[i] * d[i]);
        lemma_product_finite(d[i], d[i]);
    }
    lemma_centered_doubled(s, t);
    assert forall|i: int| 0 <= i < c.len() implies keeps_digits(
        (#[trigger] c[i]).magnitude() * c[i].magnitude(),
        one_units(),
    ) by {
        assert(is_compared(i - i, c.len()));
    }
    lemma_energy_doubled(c, d);
    let least = ratio(1, 1_000_000_000);
    lemma_ratio_positive(1, 1_000_000_000);
    if !least.is_finite() {
        assert(energy(c).le(least));
    }
    lemma_value_order(energy(c), least);
    lemma_value_order(energy(d), least);
    assert(energy(c).value() > least.value());
    lemma_value_order(zero(), least);
    assert(zero().value() == 0);
    lemma_scores_doubled(s, t, 5);
}

/// The estimate is that of the counted accents.
proof fn lemma_counted(
    onsets: Seq<Onset>,
    samples: Seq<Double>,
    sample_rate: u32,
    bpm: Double,
    offset: Double,
    triplet_feel: bool,
)
    requires
        !bpm.le(zero()),
        counted_accents(onsets, samples, sample_rate, bpm, offset).len() >= 8,
    ensures
        meter_of(onsets, samples, sample_rate, bpm, offset, triplet_feel) == Some(
            accents_meter(counted_accents(onsets, samples, sample_rate, bpm, offset), triplet_feel),
        ),
{
}

/// The accents that are counted double with the strengths.
proof fn lemma_counted_doubled(
    onsets: Seq<Onset>,
    samples: Seq<Double>,
    sample_rate: u32,
    bpm: Double,
    offset: Double,
)
    requires
        !uniform(onsets),
        forall|i: int| 0 <= i < onsets.len() ==> (#[trigger] doubled(onsets)[i]).strength.is_finite(),
        energy(centered(counted_accents(doubled(onsets), samples, sample_rate, bpm, offset))).is_finite(),
    ensures
        all_scaled(
            2,
            counted_accents(onsets, samples, sample_rate, bpm, offset),
            counted_accents(doubled(onsets), samples, sample_rate, bpm, offset),
        ),
{
    let two = doubled(onsets);
    let interval = samples_per_minute(sample_rate) / bpm;
    let s = counted_accents(onsets, samples, sample_rate, bpm, offset);
    let t = counted_accents(two, samples, sample_rate, bpm, offset);
    if let Some(all) = beat_grid(offset * ratio(sample_rate as nat, 1), interval, samples.len()) {
        lemma_uniform_doubled(onsets);
        lemma_covered_doubled(onsets, onsets.len() as int);
        let beats = covered(all, onsets);
        assert(covered(all, two) == beats);
        let distance = interval * ratio(8, 100);
        let c = centered(t);
        let squares = c.map_values(|x: Double| x * x);
        assert forall|i: int| 0 <= i < s.len() implies scaled(2, #[trigger] s[i], t[i]) by {
            lemma_total_finite(squares, i);
            assert(squares[i] == c[i] * c[i]);
            lemma_product_finite(c[i], c[i]);
            assert(c[i] == t[i] - mean(t));
            lemma_sum_finite(t[i], mean(t).neg());
            assert(t[i] == accent(two, beats[i], distance, onsets.len() as int));
            assert(s[i] == accent(onsets, beats[i], distance, onsets.len() as int));
            lemma_accent_doubled(onsets, beats[i], distance, onsets.len() as int);
        }
    }
}

/// Only relative accents matter: where the strengths of onsets carry information and give
/// an estimate, twice the strengths give the same one, unless the arithmetic leaves the
/// range of full precision.
pub proof fn lemma_doubled_strengths(
    onsets: Seq<Onset>,
    samples: Seq<Double>,
    sample_rate: u32,
    bpm: Double,
    offset: Double,
    triplet_feel: bool,
)
    requires
        !uniform(onsets),
        forall|i: int| 0 <= i < onsets.len() ==> (#[trigger] doubled(onsets)[i]).strength.is_finite(),
        no_underflow(counted_accents(onsets, samples, sample_rate, bpm, offset)),
        no_overflow(counted_accents(doubled(onsets), samples, sample_rate, bpm, offset)),
        meter_of(onsets, samples, sample_rate, bpm, offset, triplet_feel) matches Some(m) && m is Some,
    ensures
        meter_of(doubled(onsets), samples, sample_rate, bpm, offset, triplet_feel) == meter_of(
            onsets,
            samples,
            sample_rate,
            bpm,
            offset,
            triplet_feel,
        ),
{
    let s = counted_accents(onsets, samples, sample_rate, bpm, offset);
    let t = counted_accents(doubled(onsets), samples, sample_rate, bpm, offset);
    assert(s.len() >= 8);
    lemma_counted_doubled(onsets, samples, sample_rate, bpm, offset);
    lemma_counted(onsets, samples, sample_rate, bpm, offset, triplet_feel);
    lemma_counted(doubled(onsets), samples, sample_rate, bpm, offset, triplet_feel);
    lemma_accents_doubled(s, t, triplet_feel);
}

/// Whether a strength is zero or has a magnitude between two to the minus 300 and two to
/// the 300.
pub open spec fn is_ordinary(x: Double) -> bool {
    x.is_finite() && (x.is_zero() || pow2(774) <= x.magnitude() <= pow2(1374))
}

/// Ordinary strengths are multiples of a power of two, and so are their doubles.
proof fn lemma_ordinary(x: Double)
    requires
        is_ordinary(x),
    ensures
        grained(x, 722, pow2(1375)),
        grained(x * ratio(2, 1), 722, pow2(1375)),
{
    lemma_pow2_strictly_increases(1374, 1375);
    if x.is_zero() {
        lemma_nothing_grained(x, 722, pow2(1374));
    } else {
        lemma_multiple(x, 722);
    }
    lemma_double_grained(x, 722, 1374);
}

/// The accents of ordinary strengths are multiples of a power of two.
proof fn lemma_accent_grained(onsets: Seq<Onset>, beat: usize, distance: Double, n: int)
    requires
        0 <= n <= onsets.len() < TOP,
        forall|i: int| 0 <= i < onsets.len() ==> grained((#[trigger] onsets[i]).strength, 722, pow2(1375)),
    ensures
        grained(accent(onsets, beat, distance, n), 722, n as nat * pow2(1375)),
    decreases n,
{
    broadcast use lemma_build;

    if n <= 0 {
        lemma_nothing_grained(no_sum(), 722, n as nat * pow2(1375));
    } else {
        lemma_accent_grained(onsets, beat, distance, n - 1);
        let m = (n - 1) as nat;
        let before = accent(onsets, beat, distance, n - 1);
        lemma_one_more(m, pow2(1375));
        lemma_coarser(before, 722, m * pow2(1375), 722, (m + 1) * pow2(1375));
        lemma_sum_grained(before, onsets[n - 1].strength, 722, m * pow2(1375), pow2(1375), m + 1, 1375);
    }
}

/// What remains of accents without their mean.
proof fn lemma_centered_grained(a: Seq<Double>)
    requires
        forall|i: int| 0 <= i < a.len() ==> grained(#[trigger] a[i], 722, pow2(1428)),
        0 < a.len() < TOP,
    ensures
        forall|i: int| 0 <= i < a.len() ==> grained(#[trigger] centered(a)[i], 617, pow2(1482)),
        keeps_digits(total(a).magnitude() * one_units(), ratio(a.len(), 1).magnitude()),
{
    broadcast use lemma_build;

    let n = a.len();
    lemma_total_grained(a, 722, 1428);
    lemma_share_grained(total(a), n, 722, n, 1428);
    lemma_fewer(n, 1428);
    let m = mean(a);
    lemma_coarser(m, 617, n * pow2(1428), 617, pow2(1481));
    lemma_pow2_strictly_increases(1428, 1481);
    lemma_pow2_unfold(1482);
    assert(1 * pow2(1482) == pow2(1482));
    assert forall|i: int| 0 <= i < a.len() implies grained(#[trigger] centered(a)[i], 617, pow2(1482)) by {
        assert(grained(a[i], 722, pow2(1428)));
        lemma_coarser(a[i], 722, pow2(1428), 617, pow2(1481));
        lemma_sum_grained(a[i], m.neg(), 617, pow2(1481), pow2(1481), 1, 1482);
    }
}

/// The correlation of such numbers is finite.
proof fn lemma_correlation_grained(c: Seq<Double>, lag: int, n: int)
    requires
        forall|i: int| 0 <= i < c.len() ==> grained(#[trigger] c[i], 617, pow2(1482)),
        0 <= lag,
        0 <= n,
        n + lag <= c.len() < TOP,
    ensures
        grained(correlation(c, lag, n), 0, n as nat * pow2(1890)),
    decreases n,
{
    broadcast use lemma_build;

    if n == 0 {
        lemma_nothing_grained(zero(), 0, n as nat * pow2(1890));
    } else {
        let m = (n - 1) as nat;
        lemma_correlation_grained(c, lag, n - 1);
        lemma_one_more(m, pow2(1890));
        assert(grained(c[n - 1], 617, pow2(1482)));
        assert(grained(c[n - 1 + lag], 617, pow2(1482)));
        lemma_product_grained(c[n - 1], c[n - 1 + lag], 617, 1482);
        lemma_sum_grained(
            correlation(c, lag, n - 1),
            c[n - 1] * c[n - 1 + lag],
            0,
            m * pow2(1890),
            pow2(1890),
            m + 1,
            1890,
        );
    }
}

/// The arithmetic on such accents stays in range.
proof fn lemma_in_range(a: Seq<Double>)
    requires
        forall|i: int| 0 <= i < a.len() ==> grained(#[trigger] a[i], 722, pow2(1428)),
        0 < a.len() < TOP,
    ensures
        no_underflow(a),
        no_overflow(a),
{
    lemma_centered_grained(a);
    let c = centered(a);
    assert forall|i: int, j: int| 0 <= i <= j < c.len() && is_compared(j - i, c.len()) implies keeps_digits(
        (#[trigger] c[i]).magnitude() * (#[trigger] c[j]).magnitude(),
        one_units(),
    ) by {
        lemma_product_grained(c[i], c[j], 617, 1482);
    }
    let squares = c.map_values(|x: Double| x * x);
    assert forall|i: int| 0 <= i < squares.len() implies grained(#[trigger] squares[i], 0, pow2(1890)) by {
        assert(grained(c[i], 617, pow2(1482)));
        lemma_product_grained(c[i], c[i], 617, 1482);
    }
    lemma_total_grained(squares, 0, 1890);
    assert forall|k: int| 0 <= k < 5 && c.len() >= 4 * grouping(k) implies (#[trigger] correlation(
        c,
        grouping(k) as int,
        c.len() - grouping(k),
    )).is_finite() by {
        lemma_correlation_grained(c, grouping(k) as int, c.len() - grouping(k));
    }
}

/// The arithmetic on the accents of such strengths stays in range.
proof fn lemma_counted_in_range(
    onsets: Seq<Onset>,
    samples: Seq<Double>,
    sample_rate: u32,
    bpm: Double,
    offset: Double,
)
    requires
        !uniform(onsets),
        onsets.len() < TOP,
        forall|i: int| 0 <= i < onsets.len() ==> grained((#[trigger] onsets[i]).strength, 722, pow2(1375)),
        0 < counted_accents(onsets, samples, sample_rate, bpm, offset).len() < TOP,
    ensures
        no_underflow(counted_accents(onsets, samples, sample_rate, bpm, offset)),
        no_overflow(counted_accents(onsets, samples, sample_rate, bpm, offset)),
{
    let interval = samples_per_minute(sample_rate) / bpm;
    let a = counted_accents(onsets, samples, sample_rate, bpm, offset);
    let all = beat_grid(offset * ratio(sample_rate as nat, 1), interval, samples.len()).unwrap();
    let beats = covered(all, onsets);
    let distance = interval * ratio(8, 100);
    let n = onsets.len();
    lemma_fewer(n, 1375);
    assert forall|i: int| 0 <= i < a.len() implies grained(#[trigger] a[i], 722, pow2(1428)) by {
        assert(a[i] == accent(onsets, beats[i], distance, n as int));
        lemma_accent_grained(onsets, beats[i], distance, n as int);
        lemma_coarser(a[i], 722, n * pow2(1375), 722, pow2(1428));
    }
    lemma_in_range(a);
}

/// Only relative accents matter: where ordinary strengths of onsets carry information and
/// give an estimate, twice the strengths give the same one.
pub proof fn lemma_doubled_ordinary_strengths(
    onsets: Seq<Onset>,
    samples: Seq<Double>,
    sample_rate: u32,
    bpm: Double,
    offset: Double,
    triplet_feel: bool,
)
    requires
        !uniform(onsets),
        onsets.len() < TOP,
        counted_accents(onsets, samples, sample_rate, bpm, offset).len() < TOP,
        forall|i: int| 0 <= i < onsets.len() ==> is_ordinary((#[trigger] onsets[i]).strength),
        meter_of(onsets, samples, sample_rate, bpm, offset, triplet_feel) matches Some(m) && m is Some,
    ensures
        meter_of(doubled(onsets), samples, sample_rate, bpm, offset, triplet_feel) == meter_of(
            onsets,
            samples,
            sample_rate,
            bpm,
            offset,
            triplet_feel,
        ),
{
    let two = doubled(onsets);
    let s = counted_accents(onsets, samples, sample_rate, bpm, offset);
    assert(s.len() >= 8);
    assert forall|i: int| 0 <= i < onsets.len() implies grained((#[trigger] onsets[i]).strength, 722, pow2(1375)) by {
        lemma_ordinary(onsets[i].strength);
    }
    assert forall|i: int| 0 <= i < two.len() implies grained((#[trigger] two[i]).strength, 722, pow2(1375)) by {
        assert(is_ordinary(onsets[i].strength));
        lemma_ordinary(onsets[i].strength);
    }
    lemma_uniform_doubled(onsets);
    lemma_covered_doubled(onsets, onsets.len() as int);
    assert(counted_accents(two, samples, sample_rate, bpm, offset).len() == s.len());
    lemma_counted_in_range(onsets, samples, sample_rate, bpm, offset);
    lemma_counted_in_range(two, samples, sample_rate, bpm, offset);
    lemma_doubled_strengths(onsets, samples, sample_rate, bpm, offset, triplet_feel);
}

} // verus!
