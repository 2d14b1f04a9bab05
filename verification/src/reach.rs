//! The beat grids of ordinary tempos leave the audio, so that offsets and meters are found.

use crate::arith::{quotient_to, sum_to};
use crate::convert::{lemma_exact, lemma_exact_integer};
use crate::double::{infinity, lemma_build, one_units, ratio, round, zero, Double, INFINITE, TOP};
use crate::grain::lemma_magnitude_ordered;
use crate::interval::samples_per_minute;
use crate::meter::{beats_from, meter_of, moved_back, moved_forward};
use crate::offset::{
    adjusted, best_phase, grid_sum, grid_sums, highest_plateau, offbeat_of, offset_for, offsets, phase_mean, phase_step,
    slopes_of, with_offsets, Plateau,
};
use crate::phase::{is_highest, lemma_beat, lemma_best_phase, lemma_offbeat_within, lemma_phase_within};
use crate::precision::{lemma_rounded_exact, lemma_rounded_ordered, lemma_sum_rounded, lemma_value_order};
use crate::range::{is_brisk, lemma_beat_bounds};
use crate::rounding::{encode, lemma_encode_ordered};
use crate::{Onset, TempoResult};
use vstd::arithmetic::div_mod::*;
use vstd::arithmetic::power2::*;
use vstd::prelude::*;

verus! {

/// Whether a tempo is ordinary: a beat is at least two samples and less than two to the 31.
pub open spec fn is_ordinary_tempo(sample_rate: u32, bpm: Double) -> bool {
    is_brisk(sample_rate, bpm) && 60 * sample_rate * one_units() >= 2 * bpm.magnitude()
}

/// Whether a number is not negative.
spec fn is_ahead(x: Double) -> bool {
    !x.is_nan() && x.place() >= 0
}

/// Whether a step is at least one sample.
spec fn is_step(x: Double) -> bool {
    !x.is_nan() && !x.negative() && (x.is_infinite() || x.magnitude() >= one_units())
}

/// A step leads to a later sample.
proof fn lemma_step(pos: Double, step: Double)
    requires
        pos.is_finite(),
        is_ahead(pos),
        pos.value() < 0x10_0000_0000_0000 * one_units(),
        is_step(step),
    ensures
        is_ahead(pos + step),
        pos.lt(pos + step),
        pos.to_index() < usize::MAX ==> (pos + step).to_index() >= pos.to_index() + 1,
{
    broadcast use lemma_build;

    reveal(Double::to_index);
    let one = one_units();
    lemma_pow2_pos(1074);
    let next = pos + step;
    let p = pos.magnitude();
    if pos.code() > 0 {
        pos.lemma_magnitude_positive();
    } else {
        assert(crate::double::decode(0) == 0);
    }
    assert(pos.value() == p);
    let w = pos.whole();
    lemma_fundamental_div_mod(p as int, one as int);
    lemma_mod_bound(p as int, one as int);
    assert(w < 0x10_0000_0000_0000) by (nonlinear_arith)
        requires
            one * w <= p,
            p < 0x10_0000_0000_0000 * one,
            one > 0,
    ;
    let k = w + 1;
    lemma_exact_integer(k);
    let mark = ratio(k, 1);
    assert(k * one == one * w + one) by (nonlinear_arith)
        requires
            k == w + 1,
    ;
    lemma_value_order(pos, mark);
    if step.is_infinite() {
        reveal(sum_to);
    } else {
        lemma_sum_rounded(pos, step);
        lemma_rounded_exact(mark);
        lemma_rounded_ordered(mark.value(), pos.value() + step.value());
        if next.is_finite() {
            lemma_value_order(mark, next);
            if next.negative() && next.code() > 0 {
                next.lemma_magnitude_positive();
            }
            assert(!next.negative()) by {
                if next.negative() {
                    assert(next.value() <= 0);
                    assert(k * one > 0);
                }
            }
            lemma_div_is_ordered((k * one) as int, next.magnitude() as int, one as int);
            crate::rounding::lemma_quotient(k * one, one, k, 0);
        }
    }
}

/// A position within the audio is a number below its end.
proof fn lemma_inside(pos: Double, len: nat)
    requires
        is_ahead(pos),
        pos.to_index() < len,
        len <= 0x10_0000_0000_0000,
        len <= usize::MAX,
    ensures
        pos.is_finite(),
        pos.value() < 0x10_0000_0000_0000 * one_units(),
{
    broadcast use lemma_build;

    reveal(Double::to_index);
    let one = one_units();
    lemma_pow2_pos(1074);
    if pos.negative() {
        assert(pos.code() == 0);
        assert(crate::double::decode(0) == 0);
    } else {
        let p = pos.magnitude();
        let w = pos.whole();
        lemma_fundamental_div_mod(p as int, one as int);
        lemma_mod_bound(p as int, one as int);
        assert(p < len * one) by (nonlinear_arith)
            requires
                w + 1 <= len,
                p < one * w + one,
        ;
        assert(len * one <= 0x10_0000_0000_0000 * one) by (nonlinear_arith)
            requires
                len <= 0x10_0000_0000_0000,
        ;
    }
}

/// A grid leaves the audio.
proof fn lemma_grid_leaves(slopes: Seq<Double>, edge: int, interval: Double, pos: Double, sum: Double, count: nat)
    requires
        is_ahead(pos),
        is_step(interval),
        count <= pos.to_index(),
        slopes.len() <= 0x10_0000_0000_0000,
        slopes.len() <= usize::MAX,
    ensures
        grid_sum(slopes, edge, interval, pos, sum, count) is Some,
    decreases INFINITE - pos.place(),
{
    if pos.to_index() < slopes.len() {
        let i = pos.to_index() as int;
        let next = pos + interval;
        lemma_inside(pos, slopes.len());
        lemma_step(pos, interval);
        let counted = edge <= i && i < slopes.len() - edge;
        if counted {
            lemma_grid_leaves(slopes, edge, interval, next, sum + slopes[i], count + 1);
        } else {
            lemma_grid_leaves(slopes, edge, interval, next, sum, count);
        }
    }
}

/// The phases end.
proof fn lemma_phases_end(
    slopes: Seq<Double>,
    edge: int,
    interval: Double,
    step: nat,
    phase: nat,
    plateau: Plateau,
)
    requires
        is_step(interval),
        interval.is_finite(),
        interval.magnitude() <= pow2(1105),
        0 < step <= 0x100_0000,
        phase <= usize::MAX,
        slopes.len() <= 0x10_0000_0000_0000,
        slopes.len() <= usize::MAX,
    ensures
        highest_plateau(slopes, edge, interval, step, phase, plateau) is Some,
    decreases usize::MAX - phase,
{
    if ratio(phase, 1).lt(interval) {
        let one = one_units();
        lemma2_to64();
        lemma2_to64_rest();
        lemma_pow2_pos(1074);
        lemma_pow2_adds(31, 1074);
        assert(phase <= pow2(31)) by {
            if phase > pow2(31) {
                crate::convert::lemma_ratio_ordered(pow2(31), 1, phase, 1);
                lemma_exact_integer(pow2(31));
                lemma_value_order(interval, ratio(pow2(31), 1));
            }
        }
        lemma_exact_integer(phase);
        assert(is_ahead(ratio(phase, 1)));
        lemma_grid_leaves(slopes, edge, interval, ratio(phase, 1), zero(), 0);
        let mean = phase_mean(slopes, edge, interval, phase).unwrap();
        lemma_phases_end(slopes, edge, interval, step, phase + step, plateau.with(mean, phase));
    }
}

/// The beat of an ordinary tempo, in samples.
proof fn lemma_beat_step(sample_rate: u32, bpm: Double)
    requires
        is_ordinary_tempo(sample_rate, bpm),
    ensures
        ({
            let interval = samples_per_minute(sample_rate) / bpm;
            &&& is_step(interval)
            &&& interval.is_finite()
            &&& interval.magnitude() <= pow2(1105)
        }),
{
    let one = one_units();
    lemma_pow2_pos(1074);
    lemma_beat_bounds(sample_rate, bpm, 1, 1074);
    let s = 60 * sample_rate as nat * one;
    let b = bpm.magnitude();
    assert((1 * one) * b <= s * one) by (nonlinear_arith)
        requires
            s >= 2 * b,
            one > 0,
    ;
    assert(1 * one == one);
}

/// A power of two near a number.
proof fn lemma_power_near(r: nat) -> (j: nat)
    requires
        0 < r < 0x1_0000_0000,
    ensures
        j <= 32,
        pow2(j) <= r < 2 * pow2(j),
    decreases r,
{
    lemma2_to64();
    if r == 1 {
        0
    } else {
        let j = lemma_power_near(r / 2);
        lemma_pow2_unfold(j + 1);
        assert(j + 1 <= 32) by {
            if j == 32 {
                assert(pow2(32) <= r / 2);
            }
        }
        j + 1
    }
}

/// The beat of an ordinary tempo in seconds, times the rate, is at least one sample.
proof fn lemma_second_step(sample_rate: u32, bpm: Double)
    requires
        is_ordinary_tempo(sample_rate, bpm),
    ensures
        is_step(ratio(60, 1) / bpm * ratio(sample_rate as nat, 1)),
{
    broadcast use lemma_build;

    let top = TOP as nat;
    let one = one_units();
    let r = sample_rate as nat;
    let b = bpm.magnitude();
    let beat = ratio(60, 1) / bpm;
    bpm.lemma_magnitude_positive();
    lemma_pow2_pos(1074);
    lemma_beat(bpm);
    lemma_exact_integer(60);
    lemma_exact_integer(r);
    assert(r > 0) by {
        if r == 0 {
            assert(60 * 0 * one == 0);
        }
    }
    let j = lemma_power_near(r);
    let e = (1074 - j) as nat;
    lemma_pow2_adds(j, e);
    lemma_exact(false, 1, e);
    lemma_pow2_pos(e);
    let p = pow2(e);
    assert(1 * p == p);
    // The beat is at least this power of two.
    assert(p * b <= (60 * one) * one) by (nonlinear_arith)
        requires
            60 * r * one >= 2 * b,
            r < 2 * pow2(j),
            pow2(j) * p == one,
            b > 0,
            p > 0,
    ;
    lemma_encode_ordered(top, p, 1, (60 * one) * one, b);
    assert(beat == round(false, (60 * one) * one, b)) by {
        reveal(quotient_to);
    }
    if beat.is_finite() {
        lemma_magnitude_ordered(encode(top, p, 1), encode(top, (60 * one) * one, b));
        let m = beat.magnitude();
        assert(m >= p);
        assert((m * (r * one)) * 1 >= one * one) by (nonlinear_arith)
            requires
                m >= p,
                r >= pow2(j),
                pow2(j) * p == one,
        ;
        lemma_exact_integer(1);
        assert(1 * one == one);
        lemma_encode_ordered(top, one, 1, m * (r * one), one);
        reveal(Double::times);
        let x = beat * ratio(r, 1);
        assert(x == round(false, m * (r * one), one));
        if x.is_finite() {
            lemma_magnitude_ordered(encode(top, one, 1), encode(top, m * (r * one), one));
        }
    } else {
        reveal(Double::times);
        crate::convert::lemma_ratio_positive(r, 1);
    }
}

/// Two grids leave the audio.
proof fn lemma_grids_leave(
    slopes: Seq<Double>,
    interval: Double,
    a: Double,
    b: Double,
    sum_a: Double,
    sum_b: Double,
)
    requires
        is_ahead(a),
        is_ahead(b),
        is_step(interval),
        slopes.len() <= 0x10_0000_0000_0000,
        slopes.len() <= usize::MAX,
    ensures
        grid_sums(slopes, interval, a, b, sum_a, sum_b) is Some,
    decreases INFINITE - a.place(),
{
    let end = ratio(slopes.len(), 1);
    if a.lt(end) && b.lt(end) {
        lemma_before_end(a, slopes.len());
        lemma_before_end(b, slopes.len());
        lemma_inside(a, slopes.len());
        lemma_inside(b, slopes.len());
        lemma_step(a, interval);
        lemma_step(b, interval);
        lemma_grids_leave(
            slopes,
            interval,
            a + interval,
            b + interval,
            sum_a + slopes[a.to_index() as int],
            sum_b + slopes[b.to_index() as int],
        );
    }
}

/// A position before the end is at a sample of the audio.
proof fn lemma_before_end(pos: Double, len: nat)
    requires
        is_ahead(pos),
        len <= 0x10_0000_0000_0000,
        len <= usize::MAX,
        pos.lt(ratio(len, 1)),
    ensures
        pos.to_index() < len,
{
    broadcast use lemma_build;

    reveal(Double::to_index);
    let one = one_units();
    lemma_pow2_pos(1074);
    lemma_exact_integer(len);
    lemma_value_order(pos, ratio(len, 1));
    if pos.negative() {
        assert(len > 0) by {
            if len == 0 {
                assert(0 * one == 0);
                assert(crate::double::decode(0) == 0);
            }
        }
    } else {
        let p = pos.magnitude();
        let w = pos.whole();
        lemma_fundamental_div_mod(p as int, one as int);
        lemma_mod_bound(p as int, one as int);
        assert(w < len) by (nonlinear_arith)
            requires
                one * w <= p,
                p < len * one,
                one > 0,
        ;
    }
}

/// A product of numbers that are not negative is not negative.
proof fn lemma_ahead(x: Double, r: nat)
    requires
        is_ahead(x),
        0 < r < TOP,
    ensures
        is_ahead(x * ratio(r, 1)),
{
    broadcast use lemma_build;

    reveal(Double::times);
    let one = one_units();
    lemma_exact_integer(r);
    lemma_pow2_pos(1074);
    crate::convert::lemma_ratio_positive(r, 1);
    if x.code() == 0 {
        assert(crate::double::decode(0) == 0);
        assert(0 * ratio(r, 1).magnitude() == 0);
        crate::rounding::lemma_encode_zero(TOP as nat, one);
    }
}

/// Every ordinary tempo has an offset.
proof fn lemma_offset_exists(slopes: Seq<Double>, sample_rate: u32, bpm: Double)
    requires
        is_ordinary_tempo(sample_rate, bpm),
        slopes.len() <= 0x10_0000_0000_0000,
        slopes.len() <= usize::MAX,
    ensures
        offset_for(slopes, sample_rate, bpm) is Some,
{
    broadcast use lemma_build;

    reveal(best_phase);
    reveal(adjusted);
    let edge = sample_rate as int / 20;
    let interval = samples_per_minute(sample_rate) / bpm;
    let rate = ratio(sample_rate as nat, 1);
    lemma_beat_step(sample_rate, bpm);
    lemma_phases_end(
        slopes,
        edge,
        interval,
        phase_step(sample_rate),
        0,
        Plateau { best: infinity(true), end: 0 },
    );
    let phase = best_phase(slopes, sample_rate, bpm).unwrap();
    lemma_best_phase(slopes, sample_rate, bpm);
    let plateau = choose|plateau: Plateau|
        {
            &&& #[trigger] is_highest(slopes, edge, interval, phase_step(sample_rate), plateau)
            &&& phase == ratio(plateau.end, 1) / rate
            &&& plateau.end == 0 || ratio(plateau.end, 1).lt(interval)
            &&& plateau.end <= usize::MAX
        };
    assert(sample_rate > 0) by {
        if sample_rate == 0 {
            assert(60 * 0 * one_units() == 0);
            bpm.lemma_magnitude_positive();
        }
    }
    lemma_phase_within(plateau.end, sample_rate, bpm);
    lemma_offbeat_within(phase, bpm);
    lemma_second_step(sample_rate, bpm);
    let off = offbeat_of(phase, bpm);
    lemma_ahead(phase, sample_rate as nat);
    lemma_ahead(off, sample_rate as nat);
    lemma_grids_leave(slopes, ratio(60, 1) / bpm * rate, phase * rate, off * rate, zero(), zero());
}

proof fn lemma_offsets_exist(slopes: Seq<Double>, sample_rate: u32, results: Seq<TempoResult>, n: int)
    requires
        0 <= n <= results.len(),
        forall|i: int| 0 <= i < results.len() ==> is_ordinary_tempo(sample_rate, (#[trigger] results[i]).bpm),
        slopes.len() <= 0x10_0000_0000_0000,
        slopes.len() <= usize::MAX,
    ensures
        offsets(slopes, sample_rate, results, n) is Some,
    decreases n,
{
    if n > 0 {
        lemma_offsets_exist(slopes, sample_rate, results, n - 1);
        assert(is_ordinary_tempo(sample_rate, results[n - 1].bpm));
        lemma_offset_exists(slopes, sample_rate, results[n - 1].bpm);
    }
}

/// Candidates of ordinary tempos all get their offsets.
pub proof fn lemma_offsets_found(samples: Seq<Double>, sample_rate: u32, results: Seq<TempoResult>)
    requires
        forall|i: int| 0 <= i < results.len() ==> is_ordinary_tempo(sample_rate, (#[trigger] results[i]).bpm),
        samples.len() <= 0x10_0000_0000_0000,
        samples.len() <= usize::MAX,
    ensures
        with_offsets(samples, sample_rate, results) is Some,
{
    lemma_offsets_exist(slopes_of(samples, sample_rate), sample_rate, results, results.len() as int);
}

/// Moving back by an interval leads to an earlier position that is not negative.
proof fn lemma_step_back(pos: Double, interval: Double)
    requires
        pos.is_finite(),
        is_ahead(pos),
        pos.value() <= 0x10_0000_0000_0000 * one_units(),
        is_step(interval),
        interval.is_finite(),
        interval.le(pos),
    ensures
        is_ahead(pos - interval),
        (pos - interval).is_finite(),
        (pos - interval).lt(pos),
        (pos - interval).value() <= pos.value(),
{
    broadcast use lemma_build;

    let one = one_units();
    lemma_pow2_pos(1074);
    let p = pos.value();
    lemma_value_order(interval, pos);
    let minus = interval.neg();
    let next = pos - interval;
    lemma_sum_rounded(pos, minus);
    let d = p - interval.value();
    lemma_rounded_ordered(0, d);
    lemma_rounded_exact(zero());
    assert(zero().value() == 0);
    lemma_rounded_ordered(d, p);
    lemma_rounded_exact(pos);
    assert(next.is_finite());
    // The last whole number before the position is a number.
    let q = (p - 1) / one as int;
    lemma_fundamental_div_mod(p - 1, one as int);
    lemma_mod_bound(p - 1, one as int);
    assert(q >= 0) by {
        lemma_div_pos_is_pos(p - 1, one as int);
    }
    assert(q <= 0x10_0000_0000_0000) by (nonlinear_arith)
        requires
            one * q <= p - 1,
            p <= 0x10_0000_0000_0000 * one,
            one > 0,
    ;
    let k = q as nat;
    lemma_exact_integer(k);
    assert(k * one == one * q) by (nonlinear_arith)
        requires
            k == q,
    ;
    let mark = ratio(k, 1);
    lemma_rounded_exact(mark);
    lemma_rounded_ordered(d, mark.value());
    lemma_value_order(next, mark);
    lemma_value_order(next, pos);
    lemma_value_order(mark, pos);
    lemma_value_order(zero(), next);
}

/// A position can be moved back.
proof fn lemma_moves_back(pos: Double, interval: Double)
    requires
        pos.is_finite(),
        is_ahead(pos),
        pos.value() <= 0x10_0000_0000_0000 * one_units(),
        is_step(interval),
        interval.is_finite(),
    ensures
        moved_back(pos, interval) is Some,
        is_ahead(moved_back(pos, interval).unwrap()),
    decreases pos.place() + INFINITE,
{
    if interval.le(pos) {
        lemma_step_back(pos, interval);
        lemma_moves_back(pos - interval, interval);
    }
}

/// The beats of a grid leave the audio.
proof fn lemma_beats_leave(pos: Double, interval: Double, samples: nat, before: Seq<usize>)
    requires
        is_ahead(pos),
        is_step(interval),
        samples <= 0x10_0000_0000_0000,
        samples <= usize::MAX,
    ensures
        beats_from(pos, interval, samples, before) is Some,
    decreases INFINITE - pos.place(),
{
    if pos.to_index() < samples {
        lemma_inside(pos, samples);
        lemma_step(pos, interval);
        lemma_beats_leave(pos + interval, interval, samples, before.push(pos.to_index() as usize));
    }
}

/// The meter of an ordinary tempo with an offset that is not negative is estimated, or found
/// not to be there: the beats leave the audio.
pub proof fn lemma_meter_found(
    onsets: Seq<Onset>,
    samples: Seq<Double>,
    sample_rate: u32,
    bpm: Double,
    offset: Double,
    triplet_feel: bool,
)
    requires
        is_ordinary_tempo(sample_rate, bpm),
        (offset * ratio(sample_rate as nat, 1)).is_finite(),
        zero().le(offset * ratio(sample_rate as nat, 1)),
        (offset * ratio(sample_rate as nat, 1)).value() <= 0x10_0000_0000_0000 * one_units(),
        samples.len() <= 0x10_0000_0000_0000,
        samples.len() <= usize::MAX,
    ensures
        meter_of(onsets, samples, sample_rate, bpm, offset, triplet_feel) is Some,
{
    broadcast use lemma_build;

    let interval = samples_per_minute(sample_rate) / bpm;
    let first = offset * ratio(sample_rate as nat, 1);
    lemma_beat_step(sample_rate, bpm);
    lemma_moves_back(first, interval);
    let low = moved_back(first, interval).unwrap();
    assert(moved_forward(low, interval) == Some(low));
    lemma_beats_leave(low, interval, samples.len(), Seq::empty());
}

} // verus!
