//! What the phase and the offset of a tempo have to do with its beats.

use crate::arith::{quotient_to, sum_to};
use crate::convert::{lemma_exact, lemma_exact_integer, lemma_ratio_ordered, lemma_ratio_positive};
use crate::double::{decode, infinity, lemma_build, lemma_round_exact, one_units, ratio, round, zero, Double, TOP};
use crate::grain::{lemma_magnitude_ordered, lemma_multiple};
use crate::interval::samples_per_minute;
use crate::offset::{
    adjusted, best_phase, grid_sums, highest_plateau, lemma_adjusted, lemma_offsets_keep, offbeat_of, offset_for,
    offsets, phase_mean, phase_step, plateau_epsilon, slopes_of, with_offsets, Plateau,
};
use crate::precision::{
    lemma_half, lemma_rounded_exact, lemma_rounded_ordered, lemma_sum_ordered, lemma_sum_rounded, lemma_value_order,
};
use crate::rounding::{encode, lemma_encode_monotone, lemma_encode_ordered, lemma_encode_scale, lemma_encode_zero};
use crate::scaling::lemma_round_scaled;
use crate::TempoResult;
use vstd::arithmetic::div_mod::*;
use vstd::arithmetic::power2::*;
use vstd::prelude::*;

verus! {

/// Whether a phase is one of those that are tried before `end`.
spec fn is_tried(phase: nat, step: nat, end: nat) -> bool {
    phase < end && phase % step == 0
}

/// The mean slope of a phase whose beat grid leaves the audio.
pub open spec fn mean_at(slopes: Seq<Double>, edge: int, interval: Double, phase: nat) -> Double {
    phase_mean(slopes, edge, interval, phase)->0
}

/// Whether a phase is one of those within the first beat.
pub open spec fn is_phase(phase: nat, step: nat, interval: Double) -> bool {
    phase % step == 0 && ratio(phase, 1).lt(interval)
}

/// Whether a plateau is the highest over the phases within the first beat: no mean exceeds
/// its height by more than a millionth, the mean of its end falls short of it by no more
/// than that, and the means of all later phases fall short by more. Where no mean is a
/// number, it ends at the first phase.
pub open spec fn is_highest(
    slopes: Seq<Double>,
    edge: int,
    interval: Double,
    step: nat,
    plateau: Plateau,
) -> bool {
    let high = plateau.best + ratio(1, 1_000_000);
    let low = plateau.best - ratio(1, 1_000_000);
    let end = plateau.end;
    &&& forall|phase: nat|
        is_phase(phase, step, interval) ==> (#[trigger] phase_mean(slopes, edge, interval, phase)) is Some
    &&& forall|phase: nat|
        is_phase(phase, step, interval) ==> !high.lt(#[trigger] mean_at(slopes, edge, interval, phase))
    &&& forall|phase: nat|
        is_phase(phase, step, interval) && end < phase ==> !low.le(#[trigger] mean_at(slopes, edge, interval, phase))
    &&& (is_phase(end, step, interval) && low.le(mean_at(slopes, edge, interval, end))) || (end == 0 && forall|
        phase: nat,
    |
        is_phase(phase, step, interval) ==> (#[trigger] mean_at(slopes, edge, interval, phase)).is_nan())
}

/// Whether a plateau is the highest over the phases that are tried before a bound.
spec fn highest_so_far(
    slopes: Seq<Double>,
    edge: int,
    interval: Double,
    step: nat,
    bound: nat,
    plateau: Plateau,
) -> bool {
    let high = plateau.best + plateau_epsilon();
    let low = plateau.best - plateau_epsilon();
    let end = plateau.end;
    &&& forall|phase: nat|
        is_tried(phase, step, bound) ==> (#[trigger] phase_mean(slopes, edge, interval, phase)) is Some
    &&& forall|phase: nat|
        is_tried(phase, step, bound) ==> !high.lt(#[trigger] mean_at(slopes, edge, interval, phase))
    &&& forall|phase: nat|
        is_tried(phase, step, bound) && end < phase ==> !low.le(#[trigger] mean_at(slopes, edge, interval, phase))
    &&& (is_tried(end, step, bound) && low.le(mean_at(slopes, edge, interval, end))) || (end == 0 && plateau.best
        == infinity(true) && forall|phase: nat|
        is_tried(phase, step, bound) ==> (#[trigger] mean_at(slopes, edge, interval, phase)).is_nan())
}

/// The tolerance is a positive number.
proof fn lemma_epsilon()
    ensures
        plateau_epsilon().is_finite(),
        zero().lt(plateau_epsilon()),
{
    lemma_ratio_positive(1, 1_000_000);
    lemma_ratio_ordered(1, 1_000_000, 1, 1);
    lemma_exact_integer(1);
}

/// Adding the tolerance keeps the order, and taking it away makes nothing larger.
proof fn lemma_tolerance(x: Double, y: Double)
    requires
        x.le(y),
    ensures
        (x + plateau_epsilon()).le(y + plateau_epsilon()),
        (y - plateau_epsilon()).le(y),
        y.le(y + plateau_epsilon()),
{
    broadcast use lemma_build;

    let e = plateau_epsilon();
    lemma_epsilon();
    reveal(sum_to);
    if x.is_finite() && y.is_finite() {
        lemma_sum_ordered(x, y, e);
    } else if x.is_finite() {
        lemma_sum_rounded(x, e);
    } else if y.is_finite() {
        lemma_sum_rounded(y, e);
    }
    if y.is_finite() {
        let minus = e.neg();
        lemma_sum_rounded(y, minus);
        lemma_rounded_exact(y);
        assert(minus.value() <= 0);
        lemma_rounded_ordered(y.value() + minus.value(), y.value());
        lemma_sum_rounded(y, e);
        assert(e.value() >= 0);
        lemma_rounded_ordered(y.value(), y.value() + e.value());
    }
}

/// The next phase is the only one between it and the one after.
proof fn lemma_next_tried(phase: nat, step: nat, q: nat)
    requires
        step > 0,
        q % step == 0,
        is_tried(phase, step, q + step),
    ensures
        is_tried(phase, step, q) || phase == q,
{
    lemma_fundamental_div_mod(phase as int, step as int);
    lemma_fundamental_div_mod(q as int, step as int);
    if phase >= q {
        let a = phase as int / step as int;
        let b = q as int / step as int;
        assert(a == b) by (nonlinear_arith)
            requires
                step * a >= step * b,
                step * a < step * b + step,
                step > 0,
        ;
    }
}

/// What does not exceed a height does not exceed a larger one.
proof fn lemma_exceeded(height: Double, mean: Double, other: Double)
    requires
        !height.is_nan(),
        (height + plateau_epsilon()).lt(mean),
        !(height + plateau_epsilon()).lt(other),
    ensures
        !(mean + plateau_epsilon()).lt(other),
        !(mean + plateau_epsilon()).lt(mean),
        (mean - plateau_epsilon()).le(mean),
{
    lemma_tolerance(height, height);
    lemma_tolerance(height, mean);
}

/// What the mean of one more phase makes of the highest plateau is the highest plateau.
proof fn lemma_higher(slopes: Seq<Double>, edge: int, interval: Double, step: nat, q: nat, plateau: Plateau)
    requires
        step > 0,
        q % step == 0,
        !plateau.best.is_nan(),
        highest_so_far(slopes, edge, interval, step, q, plateau),
        plateau.end == 0 || plateau.end < q,
        phase_mean(slopes, edge, interval, q) is Some,
    ensures
        ({
            let next = plateau.with(mean_at(slopes, edge, interval, q), q);
            &&& highest_so_far(slopes, edge, interval, step, q + step, next)
            &&& !next.best.is_nan()
            &&& next.end <= q
        }),
{
    let mean = mean_at(slopes, edge, interval, q);
    let next = plateau.with(mean, q);
    let e = plateau_epsilon();
    let higher = (plateau.best + e).lt(mean);
    let equal = (plateau.best - e).le(mean);
    assert(next.best == if higher {
        mean
    } else {
        plateau.best
    });
    assert(is_tried(q, step, q + step));
    assert(is_tried(plateau.end, step, q) ==> is_tried(plateau.end, step, q + step));
    if higher {
        lemma_exceeded(plateau.best, mean, plateau.best + e);
    }
    assert forall|phase: nat| is_tried(phase, step, q + step) implies (#[trigger] phase_mean(
        slopes,
        edge,
        interval,
        phase,
    )) is Some by {
        lemma_next_tried(phase, step, q);
    }
    assert forall|phase: nat| is_tried(phase, step, q + step) implies !(next.best + e).lt(
        #[trigger] mean_at(slopes, edge, interval, phase),
    ) by {
        lemma_next_tried(phase, step, q);
        let m = mean_at(slopes, edge, interval, phase);
        if is_tried(phase, step, q) {
            assert(!(plateau.best + e).lt(m));
            if higher {
                lemma_exceeded(plateau.best, mean, m);
            }
        } else {
            assert(m == mean);
        }
    }
    assert forall|phase: nat| is_tried(phase, step, q + step) && next.end < phase implies !(next.best - e).le(
        #[trigger] mean_at(slopes, edge, interval, phase),
    ) by {
        lemma_next_tried(phase, step, q);
    }
    if higher || equal {
        assert(next.end == q);
        assert((next.best - e).le(mean));
    } else {
        assert(next == plateau);
        if !(is_tried(plateau.end, step, q) && (plateau.best - e).le(mean_at(slopes, edge, interval, plateau.end))) {
            lemma_bottom(mean);
            assert forall|phase: nat| is_tried(phase, step, q + step) implies (#[trigger] mean_at(
                slopes,
                edge,
                interval,
                phase,
            )).is_nan() by {
                lemma_next_tried(phase, step, q);
            }
        }
    }
}

/// Only what is no number falls short of everything.
proof fn lemma_bottom(mean: Double)
    requires
        !(infinity(true) - plateau_epsilon()).le(mean),
    ensures
        mean.is_nan(),
{
    broadcast use lemma_build;

    lemma_epsilon();
    reveal(sum_to);
}

/// The plateau that is found is the highest over all phases within the first beat.
proof fn lemma_plateau_from(slopes: Seq<Double>, edge: int, interval: Double, step: nat, q: nat, plateau: Plateau)
    requires
        step > 0,
        q % step == 0,
        q <= usize::MAX,
        !plateau.best.is_nan(),
        highest_so_far(slopes, edge, interval, step, q, plateau),
        plateau.end == 0 || plateau.end < q,
        plateau.end == 0 || ratio(plateau.end, 1).lt(interval),
        q == 0 || ratio(0, 1).lt(interval),
    ensures
        highest_plateau(slopes, edge, interval, step, q, plateau) matches Some(found) ==> {
            &&& is_highest(slopes, edge, interval, step, found)
            &&& found.end == 0 || ratio(found.end, 1).lt(interval)
            &&& found.end <= usize::MAX
        },
    decreases usize::MAX - q,
{
    if ratio(q, 1).lt(interval) {
        if let Some(mean) = phase_mean(slopes, edge, interval, q) {
            if q + step <= usize::MAX {
                lemma_higher(slopes, edge, interval, step, q, plateau);
                lemma_mod_add_multiples_vanish(q as int, step as int);
                lemma_ratio_ordered(0, 1, q, 1);
                lemma_plateau_from(slopes, edge, interval, step, q + step, plateau.with(mean, q));
            }
        }
    } else {
        assert forall|phase: nat| is_phase(phase, step, interval) implies is_tried(phase, step, q) by {
            if q <= phase {
                lemma_ratio_ordered(q, 1, phase, 1);
            }
        }
        let low = plateau.best - plateau_epsilon();
        if is_tried(plateau.end, step, q) && low.le(mean_at(slopes, edge, interval, plateau.end)) {
            assert(is_phase(plateau.end, step, interval));
        }
        assert(is_highest(slopes, edge, interval, step, plateau));
    }
}

/// The phase that is found is the end of the highest plateau of mean slopes over all phases
/// within the first beat.
pub proof fn lemma_best_phase(slopes: Seq<Double>, sample_rate: u32, bpm: Double)
    ensures
        best_phase(slopes, sample_rate, bpm) matches Some(r) ==> exists|plateau: Plateau|
            {
                &&& #[trigger] is_highest(
                    slopes,
                    sample_rate as int / 20,
                    samples_per_minute(sample_rate) / bpm,
                    phase_step(sample_rate),
                    plateau,
                )
                &&& r == ratio(plateau.end, 1) / ratio(sample_rate as nat, 1)
                &&& plateau.end == 0 || ratio(plateau.end, 1).lt(samples_per_minute(sample_rate) / bpm)
                &&& plateau.end <= usize::MAX
            },
{
    broadcast use lemma_build;

    reveal(best_phase);
    let edge = sample_rate as int / 20;
    let interval = samples_per_minute(sample_rate) / bpm;
    let step = phase_step(sample_rate);
    let start = Plateau { best: infinity(true), end: 0 };
    lemma_small_mod(0, step);
    lemma_plateau_from(slopes, edge, interval, step, 0, start);
}

/// The number of samples per minute is exact.
pub(crate) proof fn lemma_samples_per_minute(sample_rate: u32)
    ensures
        samples_per_minute(sample_rate).is_finite(),
        !samples_per_minute(sample_rate).negative(),
        samples_per_minute(sample_rate).magnitude() == 60 * sample_rate as nat * one_units(),
{
    broadcast use lemma_build;

    reveal(Double::times);
    let n = sample_rate as nat;
    let one = one_units();
    lemma_pow2_pos(1074);
    lemma_exact_integer(n);
    lemma_exact_integer(60);
    lemma_exact_integer(60 * n);
    assert((n * one) * (60 * one) == (60 * n * one) * one) by (nonlinear_arith);
    lemma_encode_scale(TOP as nat, 60 * n * one, 1, one);
    assert(1 * one == one);
}

/// The length of a beat is a number that is not negative.
pub(crate) proof fn lemma_beat(bpm: Double)
    requires
        zero().lt(bpm),
    ensures
        !(ratio(60, 1) / bpm).is_nan(),
        !(ratio(60, 1) / bpm).negative(),
{
    broadcast use lemma_build;

    reveal(quotient_to);
    lemma_exact_integer(60);
}

/// A phase before the end of the first beat is not longer than the beat.
pub(crate) proof fn lemma_phase_within(end: nat, sample_rate: u32, bpm: Double)
    requires
        sample_rate > 0,
        zero().lt(bpm),
        end == 0 || ratio(end, 1).lt(samples_per_minute(sample_rate) / bpm),
        end <= usize::MAX,
    ensures
        ({
            let offset = ratio(end, 1) / ratio(sample_rate as nat, 1);
            &&& zero().le(offset)
            &&& offset.le(ratio(60, 1) / bpm)
            &&& offset.is_finite()
            &&& offset.magnitude() <= pow2(1138)
        }),
{
    broadcast use lemma_build;

    reveal(quotient_to);
    let top = TOP as nat;
    let one = one_units();
    let n = sample_rate as nat;
    let from = ratio(end, 1);
    let e = from.magnitude();
    lemma_pow2_pos(1074);
    lemma_exact_integer(n);
    lemma_exact_integer(60);
    lemma_beat(bpm);
    lemma_samples_per_minute(sample_rate);
    assert(n * one > 0) by (nonlinear_arith)
        requires
            n > 0,
            one > 0,
    ;
    // The phase is a number below two to the 64.
    lemma_exact(false, 1, 1138);
    lemma2_to64();
    lemma2_to64_rest();
    lemma_pow2_adds(64, 1074);
    assert(end * one <= pow2(64) * one) by (nonlinear_arith)
        requires
            end <= pow2(64),
    ;
    assert(1 * pow2(1138) == pow2(1138));
    lemma_encode_monotone(top, end * one, pow2(1138), 1);
    lemma_magnitude_ordered(encode(top, end * one, 1), encode(top, pow2(1138), 1));
    assert(from.is_finite());
    lemma_round_exact(from);
    // Divided by the rate it is no larger.
    assert((e * one) * 1 <= e * (n * one)) by (nonlinear_arith)
        requires
            n >= 1,
    ;
    lemma_encode_ordered(top, e * one, n * one, e, 1);
    lemma_magnitude_ordered(encode(top, e * one, n * one), encode(top, e, 1));
    assert(decode(0) == 0);
    assert(ratio(n, 1).code() != 0);
    let offset = from / ratio(n, 1);
    assert(offset == round(false, e * one, n * one));
    if end == 0 {
        assert(0 * one == 0);
        lemma_encode_zero(top, 1);
        lemma_encode_zero(top, n * one);
    } else if bpm.is_finite() {
        bpm.lemma_magnitude_positive();
        let b = bpm.magnitude();
        let s = 60 * n * one;
        if s * one <= e * b {
            lemma_encode_ordered(top, s * one, b, e, 1);
        }
        assert((e * one) * b <= (60 * one * one) * (n * one)) by (nonlinear_arith)
            requires
                e * b < (60 * n * one) * one,
        ;
        lemma_encode_ordered(top, e * one, n * one, 60 * one * one, b);
    }
}

/// Half a number, as a product and as a quotient.
pub(crate) proof fn lemma_half_product(x: Double)
    requires
        x.is_finite(),
        !x.negative(),
    ensures
        x * ratio(1, 2) == x / ratio(2, 1),
        (x * ratio(1, 2)).magnitude() <= x.magnitude(),
{
    broadcast use lemma_build;

    reveal(Double::times);
    reveal(quotient_to);
    let top = TOP as nat;
    let one = one_units();
    let m = x.magnitude();
    let h = pow2(1073);
    lemma_pow2_pos(1073);
    lemma_pow2_unfold(1074);
    lemma_exact(false, 1, 1073);
    assert(1 * h == h);
    assert(h * 2 == one);
    lemma_encode_scale(top, h, 1, 2);
    assert(ratio(1, 2) == round(false, h, 1));
    lemma_exact_integer(2);
    assert(2 * h == h * 2);
    lemma_encode_scale(top, m, 2, h);
    lemma_encode_scale(top, m, 2, one);
    lemma_encode_ordered(top, m, 2, m, 1);
    lemma_round_exact(x);
    lemma_magnitude_ordered(encode(top, m, 2), encode(top, m, 1));
}

/// The offbeat of a phase within the first beat lies within it too.
pub(crate) proof fn lemma_offbeat_within(offset: Double, bpm: Double)
    requires
        zero().lt(bpm),
        offset.is_finite(),
        zero().le(offset),
        offset.le(ratio(60, 1) / bpm),
        offset.magnitude() <= pow2(1138),
    ensures
        zero().le(offbeat_of(offset, bpm)),
        offbeat_of(offset, bpm).le(ratio(60, 1) / bpm),
{
    broadcast use lemma_build;

    let beat = ratio(60, 1) / bpm;
    let half = beat * ratio(1, 2);
    let later = offset + half;
    lemma_beat(bpm);
    if !beat.is_finite() {
        reveal(Double::times);
        reveal(sum_to);
        lemma_ratio_positive(1, 2);
        lemma_ratio_ordered(1, 2, 1, 1);
        lemma_exact_integer(1);
    } else {
        let m = beat.magnitude();
        lemma_half(beat);
        lemma_half_product(beat);
        let o = offset.value();
        let h = half.value();
        lemma_value_order(zero(), offset);
        lemma_value_order(offset, beat);
        assert(zero().value() == 0);
        lemma_sum_rounded(offset, half);
        lemma_rounded_ordered(0, o + h);
        lemma_encode_zero(TOP as nat, 1);
        lemma_rounded_exact(beat);
        if beat.lt(later) {
            lemma_later(offset, beat, half);
            lemma_value_order(beat, later);
            let minus = beat.neg();
            lemma_sum_rounded(later, minus);
            lemma_rounded_ordered(0, later.value() - m);
            lemma_rounded_ordered(later.value() - m, m as int);
        }
    }
}

/// What lies half a beat behind a phase within the first beat, and beyond the beat, is not
/// later than two beats.
proof fn lemma_later(offset: Double, beat: Double, half: Double)
    requires
        offset.is_finite(),
        beat.is_finite(),
        half.is_finite(),
        !beat.negative(),
        !half.negative(),
        0 <= offset.value() <= beat.magnitude(),
        half.magnitude() <= beat.magnitude(),
        beat.magnitude() % 2 == 0 ==> 2 * half.magnitude() == beat.magnitude(),
        offset.magnitude() <= pow2(1138),
        beat.lt(offset + half),
    ensures
        (offset + half).is_finite(),
        (offset + half).value() <= 2 * beat.magnitude(),
{
    broadcast use lemma_build;

    let top = TOP as nat;
    let m = beat.magnitude();
    let later = offset + half;
    let o = offset.value();
    let h = half.value();
    lemma_sum_rounded(offset, half);
    lemma_rounded_exact(beat);
    let twice = round(false, 2 * m, 1);
    if twice.is_finite() {
        lemma_round_exact(beat);
        lemma_small_mod(0, 1);
        lemma_round_scaled(2, false, m, 1);
        lemma_rounded_ordered(o + h, 2 * (m as int));
        if later.is_finite() {
            lemma_value_order(later, twice);
        }
    } else {
        if m < pow2(2000) {
            lemma_pow2_unfold(2001);
            lemma_exact(false, 1, 2001);
            assert(1 * pow2(2001) == pow2(2001));
            lemma_encode_monotone(top, 2 * m, pow2(2001), 1);
        }
        lemma2_to64();
        lemma_pow2_strictly_increases(53, 2000);
        lemma_multiple(beat, 1);
        lemma_pow2_strictly_increases(1139, 2000);
        lemma_pow2_unfold(1139);
        lemma_rounded_ordered(o + h, m as int);
    }
}

/// The offset of a positive tempo lies between the start and the end of the first beat.
pub proof fn lemma_offset_within_beat(slopes: Seq<Double>, sample_rate: u32, bpm: Double)
    requires
        sample_rate > 0,
        zero().lt(bpm),
    ensures
        offset_for(slopes, sample_rate, bpm) matches Some(offset) ==> zero().le(offset) && offset.le(
            ratio(60, 1) / bpm,
        ),
{
    if let Some(phase) = best_phase(slopes, sample_rate, bpm) {
        lemma_best_phase(slopes, sample_rate, bpm);
        let plateau = choose|plateau: Plateau|
            {
                &&& #[trigger] is_highest(
                    slopes,
                    sample_rate as int / 20,
                    samples_per_minute(sample_rate) / bpm,
                    phase_step(sample_rate),
                    plateau,
                )
                &&& phase == ratio(plateau.end, 1) / ratio(sample_rate as nat, 1)
                &&& plateau.end == 0 || ratio(plateau.end, 1).lt(samples_per_minute(sample_rate) / bpm)
                &&& plateau.end <= usize::MAX
            };
        lemma_phase_within(plateau.end, sample_rate, bpm);
        lemma_offbeat_within(phase, bpm);
        lemma_adjusted(slopes, sample_rate, phase, bpm);
    }
}

proof fn lemma_offsets_within(slopes: Seq<Double>, sample_rate: u32, results: Seq<TempoResult>, n: int, i: int)
    requires
        sample_rate > 0,
        0 <= i < n <= results.len(),
        zero().lt(results[i].bpm),
    ensures
        offsets(slopes, sample_rate, results, n) matches Some(s) ==> s.len() == n && zero().le(s[i].offset)
            && s[i].offset.le(ratio(60, 1) / results[i].bpm),
    decreases n,
{
    lemma_offsets_keep(slopes, sample_rate, results, n);
    if i < n - 1 {
        lemma_offsets_within(slopes, sample_rate, results, n - 1, i);
        lemma_offsets_keep(slopes, sample_rate, results, n - 1);
    } else {
        lemma_offsets_keep(slopes, sample_rate, results, n - 1);
        lemma_offset_within_beat(slopes, sample_rate, results[i].bpm);
    }
}

/// Every candidate with a positive tempo gets an offset between the start and the end of
/// its first beat.
pub proof fn lemma_offsets_within_beats(
    samples: Seq<Double>,
    sample_rate: u32,
    results: Seq<TempoResult>,
    i: int,
)
    requires
        sample_rate > 0,
        0 <= i < results.len(),
        zero().lt(results[i].bpm),
    ensures
        with_offsets(samples, sample_rate, results) matches Some(s) ==> zero().le(s[i].offset) && s[i].offset.le(
            ratio(60, 1) / results[i].bpm,
        ),
{
    lemma_offsets_within(slopes_of(samples, sample_rate), sample_rate, results, results.len() as int, i);
}

/// Each candidate with its offset stands where it stood.
proof fn lemma_offsets_at(slopes: Seq<Double>, sample_rate: u32, results: Seq<TempoResult>, n: int, i: int)
    requires
        0 <= i < n <= results.len(),
        offsets(slopes, sample_rate, results, n) is Some,
    ensures
        offsets(slopes, sample_rate, results, n).unwrap().len() == n,
        offset_for(slopes, sample_rate, results[i].bpm) is Some,
        offsets(slopes, sample_rate, results, n).unwrap()[i] == (TempoResult {
            offset: offset_for(slopes, sample_rate, results[i].bpm).unwrap(),
            ..results[i]
        }),
    decreases n,
{
    lemma_offsets_keep(slopes, sample_rate, results, n);
    lemma_offsets_keep(slopes, sample_rate, results, n - 1);
    if i < n - 1 {
        lemma_offsets_at(slopes, sample_rate, results, n - 1, i);
    }
}

/// Some candidate has no offset where the whole has none.
proof fn lemma_offsets_missing(slopes: Seq<Double>, sample_rate: u32, results: Seq<TempoResult>, n: int) -> (i: int)
    requires
        0 <= n <= results.len(),
        offsets(slopes, sample_rate, results, n) is None,
    ensures
        0 <= i < n,
        offset_for(slopes, sample_rate, results[i].bpm) is None,
    decreases n,
{
    if offsets(slopes, sample_rate, results, n - 1) is None {
        lemma_offsets_missing(slopes, sample_rate, results, n - 1)
    } else {
        n - 1
    }
}

/// A candidate alone.
proof fn lemma_one_offset(slopes: Seq<Double>, sample_rate: u32, t: TempoResult)
    ensures
        offsets(slopes, sample_rate, seq![t], 1) == match offset_for(slopes, sample_rate, t.bpm) {
            Some(offset) => Some(seq![TempoResult { offset, ..t }]),
            None => None,
        },
{
    reveal_with_fuel(offsets, 2);
    let results = seq![t];
    assert(results[0] == t);
    if let Some(offset) = offset_for(slopes, sample_rate, t.bpm) {
        assert(Seq::<TempoResult>::empty().push(TempoResult { offset, ..t }) =~= seq![TempoResult { offset, ..t }]);
    }
}

/// Every candidate of a list, whatever its place, gets the offset that it gets alone, and
/// the list has none only where one of them has none alone.
pub proof fn lemma_offset_alone(samples: Seq<Double>, sample_rate: u32, results: Seq<TempoResult>)
    ensures
        match with_offsets(samples, sample_rate, results) {
            Some(s) => {
                &&& s.len() == results.len()
                &&& forall|i: int|
                    0 <= i < results.len() ==> with_offsets(samples, sample_rate, seq![#[trigger] results[i]]) == Some(
                        seq![s[i]],
                    )
            },
            None => exists|i: int|
                0 <= i < results.len() && with_offsets(samples, sample_rate, seq![#[trigger] results[i]]) is None,
        },
{
    let slopes = slopes_of(samples, sample_rate);
    let n = results.len() as int;
    lemma_offsets_keep(slopes, sample_rate, results, n);
    if let Some(s) = with_offsets(samples, sample_rate, results) {
        assert forall|i: int| 0 <= i < results.len() implies with_offsets(
            samples,
            sample_rate,
            seq![#[trigger] results[i]],
        ) == Some(seq![s[i]]) by {
            lemma_offsets_at(slopes, sample_rate, results, n, i);
            lemma_one_offset(slopes, sample_rate, results[i]);
        }
    } else {
        let i = lemma_offsets_missing(slopes, sample_rate, results, n);
        lemma_one_offset(slopes, sample_rate, results[i]);
    }
}

/// Phases are a millisecond apart, cut to whole samples, but at least a sample.
pub proof fn lemma_phase_step(sample_rate: u32)
    ensures
        phase_step(sample_rate) >= 1,
        phase_step(sample_rate) == 1 || 1000 * phase_step(sample_rate) <= sample_rate,
        sample_rate < 1000 * (phase_step(sample_rate) + 1),
{
}

/// Half a beat after an offset, less a whole beat where that lies behind the first beat.
pub open spec fn half_beat_from(offset: Double, bpm: Double) -> Double {
    let beat = ratio(60, 1) / bpm;
    let half = beat / ratio(2, 1);
    if beat.lt(offset + half) {
        (offset + half) - beat
    } else {
        offset + half
    }
}

/// The offbeat is half a beat away.
proof fn lemma_offbeat(offset: Double, bpm: Double)
    requires
        zero().lt(bpm),
        (ratio(60, 1) / bpm).is_finite(),
    ensures
        offbeat_of(offset, bpm) == half_beat_from(offset, bpm),
{
    lemma_beat(bpm);
    lemma_half_product(ratio(60, 1) / bpm);
}

/// The offset of every candidate is the end of the highest plateau of mean slopes for its
/// own tempo, or half a beat from there. Of these two it is the one from which on the slopes
/// at the beats add up to more; the end of the plateau, where they add up to the same.
/// Nothing else of a candidate changes.
pub proof fn lemma_offset_of_plateau(samples: Seq<Double>, sample_rate: u32, results: Seq<TempoResult>, i: int)
    requires
        0 <= i < results.len(),
    ensures
        with_offsets(samples, sample_rate, results) matches Some(s) ==> {
            let slopes = slopes_of(samples, sample_rate);
            let rate = ratio(sample_rate as nat, 1);
            let bpm = results[i].bpm;
            &&& s.len() == results.len()
            &&& s[i].bpm == bpm
            &&& s[i].fitness == results[i].fitness
            &&& exists|plateau: Plateau|
                {
                    let phase = ratio(plateau.end, 1) / rate;
                    let sums = grid_sums(
                        slopes,
                        ratio(60, 1) / bpm * rate,
                        phase * rate,
                        offbeat_of(phase, bpm) * rate,
                        zero(),
                        zero(),
                    );
                    &&& #[trigger] is_highest(
                        slopes,
                        sample_rate as int / 20,
                        samples_per_minute(sample_rate) / bpm,
                        phase_step(sample_rate),
                        plateau,
                    )
                    &&& match sums {
                        Some((on, off)) => {
                            &&& off.le(on) ==> s[i].offset == phase
                            &&& !off.le(on) && zero().lt(bpm) && (ratio(60, 1) / bpm).is_finite() ==> s[i].offset
                                == half_beat_from(phase, bpm)
                        },
                        None => false,
                    }
                }
        },
{
    if let Some(s) = with_offsets(samples, sample_rate, results) {
        let slopes = slopes_of(samples, sample_rate);
        let bpm = results[i].bpm;
        lemma_offsets_at(slopes, sample_rate, results, results.len() as int, i);
        let phase = best_phase(slopes, sample_rate, bpm).unwrap();
        lemma_best_phase(slopes, sample_rate, bpm);
        let plateau = choose|plateau: Plateau|
            {
                &&& #[trigger] is_highest(
                    slopes,
                    sample_rate as int / 20,
                    samples_per_minute(sample_rate) / bpm,
                    phase_step(sample_rate),
                    plateau,
                )
                &&& phase == ratio(plateau.end, 1) / ratio(sample_rate as nat, 1)
            };
        reveal(adjusted);
        if zero().lt(bpm) && (ratio(60, 1) / bpm).is_finite() {
            lemma_offbeat(phase, bpm);
        }
        assert(is_highest(
            slopes,
            sample_rate as int / 20,
            samples_per_minute(sample_rate) / bpm,
            phase_step(sample_rate),
            plateau,
        ));
    }
}

} // verus!
