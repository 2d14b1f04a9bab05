//! Where the beats of a grid fall, and what lies there.

use crate::double::{ratio, zero, Double, INFINITE};
use crate::meter::{beat_grid, beats_from, moved_back, moved_forward};
use crate::offset::{grid_sum, grid_sums, phase_mean};
use vstd::prelude::*;

verus! {

/// A position moved by a step some times.
pub open spec fn moved(start: Double, step: Double, k: nat) -> Double
    decreases k,
{
    if k == 0 {
        start
    } else {
        moved(start, step, (k - 1) as nat) + step
    }
}

/// The samples of the first `n` beats from a position on.
pub open spec fn beat_samples(start: Double, step: Double, n: nat) -> Seq<nat> {
    Seq::new(n, |k: int| moved(start, step, k as nat).to_index())
}

/// Whether the first `n` beats from a position on are those within some samples.
pub open spec fn are_beats(start: Double, step: Double, samples: nat, n: nat) -> bool {
    &&& moved(start, step, n).to_index() >= samples
    &&& forall|k: nat| k < n ==> (#[trigger] moved(start, step, k)).to_index() < samples
}

/// Some numbers added in turn to zero.
pub open spec fn added(s: Seq<Double>) -> Double {
    s.fold_left(zero(), |a: Double, x: Double| a + x)
}

/// What stands at some samples, without those within `edge` of the ends.
pub open spec fn at_samples(slopes: Seq<Double>, edge: int, samples: Seq<nat>) -> Seq<Double> {
    samples.filter(|i: nat| edge <= i < slopes.len() - edge).map_values(|i: nat| slopes[i as int])
}

/// One more sample.
proof fn lemma_one_more(slopes: Seq<Double>, edge: int, samples: Seq<nat>, i: nat)
    ensures
        ({
            let inner = edge <= i < slopes.len() - edge;
            let before = at_samples(slopes, edge, samples);
            let after = at_samples(slopes, edge, samples.push(i));
            &&& inner ==> after == before.push(slopes[i as int]) && added(after) == added(before) + slopes[i as int]
            &&& !inner ==> after == before
        }),
{
    reveal(Seq::filter);
    let f = |i: nat| edge <= i < slopes.len() - edge;
    let g = |i: nat| slopes[i as int];
    assert(samples.push(i).drop_last() =~= samples);
    let before = at_samples(slopes, edge, samples);
    if f(i) {
        assert(samples.filter(f).push(i).map_values(g) =~= before.push(slopes[i as int]));
        let after = before.push(slopes[i as int]);
        assert(after.drop_last() =~= before);
        reveal_with_fuel(Seq::fold_left, 2);
    }
}

/// The samples of one more beat.
proof fn lemma_next_beat(start: Double, step: Double, k: nat)
    ensures
        beat_samples(start, step, k + 1) == beat_samples(start, step, k).push(moved(start, step, k).to_index()),
{
    assert(beat_samples(start, step, k + 1) =~= beat_samples(start, step, k).push(moved(start, step, k).to_index()));
}

/// The sum over a grid from some beat on.
proof fn lemma_sum_from(slopes: Seq<Double>, edge: int, interval: Double, start: Double, k: nat) -> (n: nat)
    requires
        ({
            let s = at_samples(slopes, edge, beat_samples(start, interval, k));
            &&& grid_sum(slopes, edge, interval, moved(start, interval, k), added(s), s.len()) is Some
            &&& forall|j: nat| j < k ==> (#[trigger] moved(start, interval, j)).to_index() < slopes.len()
        }),
        edge >= 0,
    ensures
        k <= n,
        are_beats(start, interval, slopes.len(), n),
        ({
            let before = at_samples(slopes, edge, beat_samples(start, interval, k));
            let all = at_samples(slopes, edge, beat_samples(start, interval, n));
            grid_sum(slopes, edge, interval, moved(start, interval, k), added(before), before.len()) == Some(
                (added(all), all.len()),
            )
        }),
    decreases INFINITE - moved(start, interval, k).place(),
{
    let pos = moved(start, interval, k);
    if pos.to_index() >= slopes.len() {
        k
    } else {
        let samples = beat_samples(start, interval, k);
        lemma_next_beat(start, interval, k);
        lemma_one_more(slopes, edge, samples, pos.to_index());
        assert(moved(start, interval, k + 1) == pos + interval);
        lemma_sum_from(slopes, edge, interval, start, k + 1)
    }
}

/// The mean slope of a phase is that at the beats from the phase on within the audio, without
/// those within `edge` of its ends: their sum divided by their number, or zero where there
/// are none.
pub proof fn lemma_phase_mean(slopes: Seq<Double>, edge: int, interval: Double, phase: nat)
    requires
        edge >= 0,
        phase_mean(slopes, edge, interval, phase) is Some,
    ensures
        exists|n: nat|
            {
                let s = at_samples(slopes, edge, beat_samples(ratio(phase, 1), interval, n));
                &&& #[trigger] are_beats(ratio(phase, 1), interval, slopes.len(), n)
                &&& phase_mean(slopes, edge, interval, phase) == Some(
                    if s.len() == 0 {
                        zero()
                    } else {
                        added(s) / ratio(s.len(), 1)
                    },
                )
            },
{
    let start = ratio(phase, 1);
    let none = at_samples(slopes, edge, beat_samples(start, interval, 0));
    assert(beat_samples(start, interval, 0) =~= Seq::empty());
    reveal(Seq::filter);
    assert(none =~= Seq::empty());
    assert(added(none) == zero());
    let n = lemma_sum_from(slopes, edge, interval, start, 0);
    assert(are_beats(start, interval, slopes.len(), n));
}

/// The slopes at the first `n` beats from a position on.
pub open spec fn slopes_at(slopes: Seq<Double>, start: Double, step: Double, n: nat) -> Seq<Double> {
    Seq::new(n, |k: int| slopes[moved(start, step, k as nat).to_index() as int])
}

/// One more slope.
proof fn lemma_next_slope(slopes: Seq<Double>, start: Double, step: Double, k: nat)
    ensures
        added(slopes_at(slopes, start, step, k + 1)) == added(slopes_at(slopes, start, step, k)) + slopes[moved(
            start,
            step,
            k,
        ).to_index() as int],
{
    let a = slopes_at(slopes, start, step, k);
    let x = slopes[moved(start, step, k).to_index() as int];
    assert(slopes_at(slopes, start, step, k + 1) =~= a.push(x));
    assert(a.push(x).drop_last() =~= a);
    reveal_with_fuel(Seq::fold_left, 2);
}

/// Whether two grids have `n` beats before the first of them leaves the audio, which is where
/// one comes to its end or the step leads to what is no number.
pub open spec fn are_pairs(slopes: Seq<Double>, interval: Double, a: Double, b: Double, n: nat) -> bool {
    let end = ratio(slopes.len(), 1);
    &&& forall|k: nat|
        k < n ==> (#[trigger] moved(a, interval, k)).lt(end) && moved(b, interval, k).lt(end) && moved(
            a,
            interval,
            k,
        ).to_index() < slopes.len() && moved(b, interval, k).to_index() < slopes.len()
    &&& !moved(a, interval, n).lt(end) || !moved(b, interval, n).lt(end)
}

/// The sums over two grids from some beat on.
proof fn lemma_pairs_from(slopes: Seq<Double>, interval: Double, a: Double, b: Double, k: nat) -> (n: nat)
    requires
        grid_sums(
            slopes,
            interval,
            moved(a, interval, k),
            moved(b, interval, k),
            added(slopes_at(slopes, a, interval, k)),
            added(slopes_at(slopes, b, interval, k)),
        ) is Some,
        ({
            let end = ratio(slopes.len(), 1);
            forall|j: nat|
                j < k ==> (#[trigger] moved(a, interval, j)).lt(end) && moved(b, interval, j).lt(end) && moved(
                    a,
                    interval,
                    j,
                ).to_index() < slopes.len() && moved(b, interval, j).to_index() < slopes.len()
        }),
    ensures
        k <= n,
        are_pairs(slopes, interval, a, b, n),
        grid_sums(
            slopes,
            interval,
            moved(a, interval, k),
            moved(b, interval, k),
            added(slopes_at(slopes, a, interval, k)),
            added(slopes_at(slopes, b, interval, k)),
        ) == Some((added(slopes_at(slopes, a, interval, n)), added(slopes_at(slopes, b, interval, n)))),
    decreases INFINITE - moved(a, interval, k).place(),
{
    let end = ratio(slopes.len(), 1);
    let x = moved(a, interval, k);
    let y = moved(b, interval, k);
    if !x.lt(end) || !y.lt(end) {
        k
    } else {
        lemma_next_slope(slopes, a, interval, k);
        lemma_next_slope(slopes, b, interval, k);
        assert(moved(a, interval, k + 1) == x + interval);
        assert(moved(b, interval, k + 1) == y + interval);
        if (x + interval).is_nan() {
            k + 1
        } else {
            lemma_pairs_from(slopes, interval, a, b, k + 1)
        }
    }
}

/// What two grids are compared by: the sums of the slopes at as many beats of each, up to the
/// end of the audio.
pub proof fn lemma_grid_sums(slopes: Seq<Double>, interval: Double, a: Double, b: Double)
    requires
        grid_sums(slopes, interval, a, b, zero(), zero()) is Some,
    ensures
        exists|n: nat|
            {
                &&& #[trigger] are_pairs(slopes, interval, a, b, n)
                &&& grid_sums(slopes, interval, a, b, zero(), zero()) == Some(
                    (added(slopes_at(slopes, a, interval, n)), added(slopes_at(slopes, b, interval, n))),
                )
            },
{
    assert(slopes_at(slopes, a, interval, 0) =~= Seq::empty());
    assert(slopes_at(slopes, b, interval, 0) =~= Seq::empty());
    assert(added(Seq::empty()) == zero());
    let n = lemma_pairs_from(slopes, interval, a, b, 0);
    assert(are_pairs(slopes, interval, a, b, n));
}

/// A position moved back.
proof fn lemma_back(first: Double, interval: Double, k: nat) -> (n: nat)
    requires
        moved_back(moved(first, interval.neg(), k), interval) is Some,
        forall|j: nat| j < k ==> interval.le(#[trigger] moved(first, interval.neg(), j)),
    ensures
        k <= n,
        moved_back(moved(first, interval.neg(), k), interval) == Some(moved(first, interval.neg(), n)),
        !interval.le(moved(first, interval.neg(), n)),
        forall|j: nat| j < n ==> interval.le(#[trigger] moved(first, interval.neg(), j)),
    decreases moved(first, interval.neg(), k).place() + INFINITE,
{
    let pos = moved(first, interval.neg(), k);
    if !interval.le(pos) {
        k
    } else {
        assert(moved(first, interval.neg(), k + 1) == pos - interval);
        if (pos - interval).is_nan() {
            k + 1
        } else {
            lemma_back(first, interval, k + 1)
        }
    }
}

/// A position moved forward.
proof fn lemma_forward(first: Double, interval: Double, k: nat) -> (n: nat)
    requires
        moved_forward(moved(first, interval, k), interval) is Some,
        forall|j: nat| j < k ==> (#[trigger] moved(first, interval, j)).lt(zero()),
    ensures
        k <= n,
        moved_forward(moved(first, interval, k), interval) == Some(moved(first, interval, n)),
        !moved(first, interval, n).lt(zero()),
        forall|j: nat| j < n ==> (#[trigger] moved(first, interval, j)).lt(zero()),
    decreases INFINITE - moved(first, interval, k).place(),
{
    let pos = moved(first, interval, k);
    if !pos.lt(zero()) {
        k
    } else {
        assert(moved(first, interval, k + 1) == pos + interval);
        if (pos + interval).is_nan() {
            k + 1
        } else {
            lemma_forward(first, interval, k + 1)
        }
    }
}

/// The beats from some beat on.
proof fn lemma_beats(start: Double, interval: Double, samples: nat, k: nat, before: Seq<usize>) -> (n: nat)
    requires
        beats_from(moved(start, interval, k), interval, samples, before) is Some,
        forall|j: nat| j < k ==> (#[trigger] moved(start, interval, j)).to_index() < samples,
        before.len() == k,
        forall|j: int| 0 <= j < k ==> (#[trigger] before[j]) == moved(start, interval, j as nat).to_index(),
    ensures
        k <= n,
        are_beats(start, interval, samples, n),
        ({
            let all = beats_from(moved(start, interval, k), interval, samples, before).unwrap();
            &&& all.len() == n
            &&& forall|j: int| 0 <= j < n ==> (#[trigger] all[j]) == moved(start, interval, j as nat).to_index()
        }),
    decreases INFINITE - moved(start, interval, k).place(),
{
    let pos = moved(start, interval, k);
    let i = pos.to_index();
    if i >= samples {
        k
    } else {
        assert(i <= usize::MAX) by {
            reveal(Double::to_index);
        }
        assert(moved(start, interval, k + 1) == pos + interval);
        lemma_beats(start, interval, samples, k + 1, before.push(i as usize))
    }
}

/// Whether beats fall where a grid through a position has them: the position moved back by
/// intervals to less than one, forward again until it is not negative, and forward by an
/// interval from beat to beat as long as that lies within the audio.
pub open spec fn are_grid_beats(
    first: Double,
    interval: Double,
    samples: nat,
    beats: Seq<usize>,
    back: nat,
    forward: nat,
) -> bool {
    let low = moved(first, interval.neg(), back);
    let start = moved(low, interval, forward);
    &&& !interval.le(low)
    &&& forall|k: nat| k < back ==> interval.le(#[trigger] moved(first, interval.neg(), k))
    &&& !start.lt(zero())
    &&& forall|k: nat| k < forward ==> (#[trigger] moved(low, interval, k)).lt(zero())
    &&& are_beats(start, interval, samples, beats.len())
    &&& forall|k: int| 0 <= k < beats.len() ==> (#[trigger] beats[k]) == moved(start, interval, k as nat).to_index()
}

/// The beats of a grid fall where the grid has them, and none is left out.
pub proof fn lemma_beat_grid(first: Double, interval: Double, samples: nat)
    requires
        beat_grid(first, interval, samples) is Some,
    ensures
        exists|back: nat, forward: nat| #[trigger]
            are_grid_beats(first, interval, samples, beat_grid(first, interval, samples).unwrap(), back, forward),
{
    let beats = beat_grid(first, interval, samples).unwrap();
    let back = lemma_back(first, interval, 0);
    let low = moved(first, interval.neg(), back);
    let forward = lemma_forward(low, interval, 0);
    let start = moved(low, interval, forward);
    let n = lemma_beats(start, interval, samples, 0, Seq::empty());
    assert(are_grid_beats(first, interval, samples, beats, back, forward));
}

} // verus!
