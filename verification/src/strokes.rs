//! What the frames of the audio, their prediction and the strengths of onsets are.

use crate::arith::quotient_to;
use crate::beats::added;
use crate::bpm::tempos;
use crate::double::{lemma_build, one_units, ratio, zero, Double, TOP};
use crate::meter::{meter_of, Meter};
use crate::offset::with_offsets;
use crate::onset::{difference, frames, normalized, peak_onsets, predicted_phase};
use crate::order::total;
use crate::peaks::{is_moderate, lemma_sum_bounded, lemma_twice};
use crate::precision::lemma_value_order;
use crate::rounding::{lemma_encode_ordered, lemma_encode_zero};
use crate::web::top_meter;
use crate::{equal_votes, Onset, TempoResult, Work};
use vstd::arithmetic::power2::*;
use vstd::prelude::*;

verus! {

/// Frames of 1024 samples start every 256 samples; the last one fits into the audio, and one
/// more would not.
pub proof fn lemma_frames(samples: nat)
    ensures
        samples < 1024 ==> frames(samples) == 0,
        samples >= 1024 ==> frames(samples) >= 1 && 256 * (frames(samples) - 1) + 1024 <= samples < 256 * frames(samples)
            + 1024,
{
}

/// A phase that stays where it is predicted to stay there.
pub proof fn lemma_steady_phase(x: Double)
    requires
        is_moderate(x),
    ensures
        predicted_phase(x, x).same(x),
{
    broadcast use lemma_build;

    let twice = ratio(2, 1) * x;
    lemma_twice(x);
    lemma_pow2_unfold(1975);
    lemma_sum_bounded(twice, x.neg(), x, 1975);
    lemma_value_order(predicted_phase(x, x), x);
}

/// A phase is predicted to move on by what it moved last: where nothing is rounded, it is as
/// far behind the last one as that is behind the one before.
pub proof fn lemma_predicted_phase(last: Double, earlier: Double, next: Double)
    requires
        is_moderate(last),
        is_moderate(earlier),
        is_moderate(next),
        next.value() - last.value() == last.value() - earlier.value(),
    ensures
        predicted_phase(last, earlier).same(next),
{
    broadcast use lemma_build;

    let twice = ratio(2, 1) * last;
    lemma_twice(last);
    lemma_pow2_unfold(1975);
    lemma_pow2_unfold(1976);
    lemma_sum_bounded(twice, earlier.neg(), next, 1976);
    lemma_value_order(predicted_phase(last, earlier), next);
}

/// The difference of a frame is the sum of the differences of its bins.
pub proof fn lemma_difference(errors: Seq<Double>)
    ensures
        difference(errors) == added(errors),
    decreases errors.len(),
{
    if errors.len() > 0 {
        lemma_difference(errors.drop_last());
        reveal_with_fuel(Seq::fold_left, 2);
    }
}

/// A quotient by a positive number keeps the order.
proof fn lemma_quotient_ordered(a: Double, b: Double, d: Double)
    requires
        a.is_finite(),
        b.is_finite(),
        d.is_finite(),
        zero().lt(d),
        a.le(b),
    ensures
        (a / d).le(b / d),
{
    broadcast use lemma_build;

    reveal(quotient_to);
    let top = TOP as nat;
    let one = one_units();
    let m = d.magnitude();
    d.lemma_magnitude_positive();
    lemma_value_order(a, b);
    lemma_encode_zero(top, m);
    let x = a.magnitude();
    let y = b.magnitude();
    if x <= y {
        assert((x * one) * m <= (y * one) * m) by (nonlinear_arith)
            requires
                x <= y,
        ;
        lemma_encode_ordered(top, x * one, m, y * one, m);
    }
    if y <= x {
        assert((y * one) * m <= (x * one) * m) by (nonlinear_arith)
            requires
                y <= x,
        ;
        lemma_encode_ordered(top, y * one, m, x * one, m);
    }
    if x == 0 {
        assert(0 * one == 0);
    }
    if y == 0 {
        assert(0 * one == 0);
    }
}

/// Where the mean strength of some onsets is positive, each strength is divided by it, which
/// keeps their order. Nothing else of an onset changes, and none is added or left out.
pub proof fn lemma_normalized(onsets: Seq<Onset>)
    requires
        onsets.len() > 0,
    ensures
        ({
            let m = total(onsets.map_values(|o: Onset| o.strength)) / ratio(onsets.len(), 1);
            let s = normalized(onsets);
            &&& s.len() == onsets.len()
            &&& forall|i: int| 0 <= i < s.len() ==> (#[trigger] s[i]).pos == onsets[i].pos
            &&& zero().lt(m) ==> forall|i: int| 0 <= i < s.len() ==> (#[trigger] s[i]).strength == onsets[i].strength / m
            &&& !zero().lt(m) ==> s == onsets
            &&& forall|i: int, j: int|
                0 <= i < s.len() && 0 <= j < s.len() && m.is_finite() && onsets[i].strength.is_finite()
                    && onsets[j].strength.is_finite() && onsets[i].strength.le(onsets[j].strength) ==> (
                #[trigger] s[i]).strength.le((#[trigger] s[j]).strength)
        }),
{
    let m = total(onsets.map_values(|o: Onset| o.strength)) / ratio(onsets.len(), 1);
    let s = normalized(onsets);
    assert forall|i: int, j: int|
        0 <= i < s.len() && 0 <= j < s.len() && m.is_finite() && onsets[i].strength.is_finite()
            && onsets[j].strength.is_finite() && onsets[i].strength.le(onsets[j].strength) implies (
    #[trigger] s[i]).strength.le((#[trigger] s[j]).strength) by {
        if zero().lt(m) {
            lemma_quotient_ordered(onsets[i].strength, onsets[j].strength, m);
        }
    }
}

/// For the tempo every onset has the same vote, wherever it lies and however strong it is:
/// onsets at the same positions vote the same.
pub proof fn lemma_equal_votes(a: Seq<Onset>, b: Seq<Onset>)
    requires
        a.len() == b.len(),
        forall|i: int| 0 <= i < a.len() ==> (#[trigger] a[i]).pos == b[i].pos,
    ensures
        equal_votes(a) == equal_votes(b),
        equal_votes(a).len() == a.len(),
        forall|i: int|
            0 <= i < a.len() ==> (#[trigger] equal_votes(a)[i]).pos == a[i].pos && equal_votes(a)[i].strength == ratio(
                1,
                1,
            ),
{
    assert(equal_votes(a) =~= equal_votes(b)) by {
        assert forall|i: int| 0 <= i < a.len() implies equal_votes(a)[i] == equal_votes(b)[i] by {
            assert(a[i].pos == b[i].pos);
        }
    }
}

/// The tempos and offsets that come out of the detection depend on where onsets lie, not on
/// how strong they are: where they lie at the same positions, the same comes out.
pub proof fn lemma_same_positions(a: Work, b: Work)
    requires
        a.samples == b.samples,
        a.sample_rate == b.sample_rate,
        a.opts == b.opts,
        a.coarse == b.coarse,
        a.fine == b.fine,
        a.onsets().len() == b.onsets().len(),
        forall|i: int| 0 <= i < a.onsets().len() ==> (#[trigger] a.onsets()[i]).pos == b.onsets()[i].pos,
    ensures
        a.results() == b.results(),
{
    lemma_equal_votes(a.onsets(), b.onsets());
}

/// The detection looks for the tempos of onsets of strength one at the positions of the peaks,
/// and gives each the offset that it gets from the samples.
pub proof fn lemma_work(work: Work)
    ensures
        ({
            let peaks = peak_onsets(work.odf, work.sample_rate);
            let voters = peaks.map_values(|o: Onset| Onset { pos: o.pos, strength: ratio(1, 1) });
            &&& work.onsets() == normalized(peaks)
            &&& match tempos(voters, work.coarse, work.fine, work.sample_rate, work.opts) {
                Some(found) => work.results() == with_offsets(work.samples, work.sample_rate, found),
                None => work.results() is None,
            }
        }),
{
    let peaks = peak_onsets(work.odf, work.sample_rate);
    let voters = peaks.map_values(|o: Onset| Onset { pos: o.pos, strength: ratio(1, 1) });
    assert(equal_votes(normalized(peaks)) =~= voters);
}

/// The meter of an analysis is that of the first candidate, from the strengths of the onsets
/// and without beats of three parts; without any candidate there is none.
pub proof fn lemma_top_meter(work: Work, results: Seq<TempoResult>)
    ensures
        results.len() == 0 ==> top_meter(work, results) == Some(None::<Meter>),
        results.len() > 0 ==> top_meter(work, results) == meter_of(
            work.onsets(),
            work.samples,
            work.sample_rate,
            results[0].bpm,
            results[0].offset,
            false,
        ),
{
}

} // verus!
