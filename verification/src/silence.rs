//! Silence before the first onset and after the last one does not change the meter.

use crate::arith::sum_to;
use crate::convert::lemma_exact_integer;
use crate::double::{decode, lemma_build, one_units, ratio, zero, Double, TOP};
use crate::interval::samples_per_minute;
use crate::meter::{
    accent, accents, accents_meter, beat_grid, beats_from, beats_within, covered, earliest, latest, meter_of,
    moved_back, moved_forward, strongest, uniform, weakest, Meter,
};
use crate::precision::lemma_value_order;
use crate::rounding::{lemma_encode_zero, lemma_quotient};
use crate::Onset;
use vstd::arithmetic::div_mod::*;
use vstd::arithmetic::power2::*;
use vstd::prelude::*;

verus! {

/// Whether some onset lies at or before a sample and some onset at or after it.
pub open spec fn is_between(onsets: Seq<Onset>, sample: usize) -> bool {
    &&& exists|i: int| 0 <= i < onsets.len() && (#[trigger] onsets[i]).pos <= sample
    &&& exists|i: int| 0 <= i < onsets.len() && sample <= (#[trigger] onsets[i]).pos
}

/// The earliest and the latest of the first onsets are two of them, and all lie between.
proof fn lemma_ends(onsets: Seq<Onset>, n: int)
    requires
        1 <= n <= onsets.len(),
    ensures
        exists|i: int| 0 <= i < n && (#[trigger] onsets[i]).pos == earliest(onsets, n),
        exists|i: int| 0 <= i < n && (#[trigger] onsets[i]).pos == latest(onsets, n),
        forall|i: int| 0 <= i < n ==> earliest(onsets, n) <= (#[trigger] onsets[i]).pos <= latest(onsets, n),
    decreases n,
{
    if n > 1 {
        lemma_ends(onsets, n - 1);
        let a = choose|i: int| 0 <= i < n - 1 && (#[trigger] onsets[i]).pos == earliest(onsets, n - 1);
        let b = choose|i: int| 0 <= i < n - 1 && (#[trigger] onsets[i]).pos == latest(onsets, n - 1);
        assert(onsets[a].pos == earliest(onsets, n - 1));
        assert(onsets[b].pos == latest(onsets, n - 1));
        assert(onsets[n - 1].pos == onsets[n - 1].pos);
    } else {
        assert(onsets[0].pos == earliest(onsets, n));
        assert(onsets[0].pos == latest(onsets, n));
    }
}

/// The beats within the region are those between onsets.
proof fn lemma_within(beats: Seq<usize>, onsets: Seq<Onset>)
    requires
        onsets.len() > 0,
    ensures
        beats_within(beats, earliest(onsets, onsets.len() as int), latest(onsets, onsets.len() as int)) == beats.filter(
            |b: usize| is_between(onsets, b),
        ),
    decreases beats.len(),
{
    let n = onsets.len() as int;
    let low = earliest(onsets, n);
    let high = latest(onsets, n);
    let f = |b: usize| is_between(onsets, b);
    reveal(Seq::filter);
    lemma_ends(onsets, n);
    if beats.len() > 0 {
        lemma_within(beats.drop_last(), onsets);
        let b = beats.last();
        let i = choose|i: int| 0 <= i < n && (#[trigger] onsets[i]).pos == low;
        let j = choose|j: int| 0 <= j < n && (#[trigger] onsets[j]).pos == high;
        assert(onsets[i].pos == low && onsets[j].pos == high);
        assert(f(b) == (low <= b <= high));
    }
}

/// The beats that count are those between onsets, in their order: none before the first
/// onset and none after the last one. Without onsets all beats count.
pub proof fn lemma_counted_beats(beats: Seq<usize>, onsets: Seq<Onset>)
    ensures
        onsets.len() > 0 ==> covered(beats, onsets) == beats.filter(|b: usize| is_between(onsets, b)),
        onsets.len() == 0 ==> covered(beats, onsets) == beats,
{
    if onsets.len() > 0 {
        lemma_within(beats, onsets);
    }
}

/// The meter is that of the accents of the beats between onsets, or of all beats where there
/// are no onsets; there is none where these are less than eight, or where the tempo is not
/// positive.
pub proof fn lemma_meter_between_onsets(
    onsets: Seq<Onset>,
    samples: Seq<Double>,
    sample_rate: u32,
    bpm: Double,
    offset: Double,
    triplet_feel: bool,
)
    ensures
        bpm.le(zero()) ==> meter_of(onsets, samples, sample_rate, bpm, offset, triplet_feel) == Some(None::<Meter>),
        !bpm.le(zero()) ==> {
            let interval = samples_per_minute(sample_rate) / bpm;
            match beat_grid(offset * ratio(sample_rate as nat, 1), interval, samples.len()) {
                None => meter_of(onsets, samples, sample_rate, bpm, offset, triplet_feel) is None,
                Some(all) => {
                    let beats = all.filter(|b: usize| onsets.len() == 0 || is_between(onsets, b));
                    meter_of(onsets, samples, sample_rate, bpm, offset, triplet_feel) == Some(
                        if beats.len() < 8 {
                            None
                        } else {
                            accents_meter(accents(onsets, samples, sample_rate, beats, interval), triplet_feel)
                        },
                    )
                },
            }
        },
{
    let interval = samples_per_minute(sample_rate) / bpm;
    if let Some(all) = beat_grid(offset * ratio(sample_rate as nat, 1), interval, samples.len()) {
        lemma_counted_beats(all, onsets);
        let f = |b: usize| onsets.len() == 0 || is_between(onsets, b);
        let g = |b: usize| is_between(onsets, b);
        if onsets.len() == 0 {
            lemma_all_kept(all, f);
        } else {
            assert(f =~= g);
        }
    }
}

/// Where all pass, all are kept.
proof fn lemma_all_kept(s: Seq<usize>, f: spec_fn(usize) -> bool)
    requires
        forall|b: usize| #[trigger] f(b),
    ensures
        s.filter(f) == s,
    decreases s.len(),
{
    reveal(Seq::filter);
    if s.len() > 0 {
        lemma_all_kept(s.drop_last(), f);
        assert(f(s.last()));
        assert(s.drop_last().push(s.last()) =~= s);
    } else {
        assert(s.filter(f) =~= s);
    }
}

/// The beats of two stretches, one behind the other.
proof fn lemma_within_joined(a: Seq<usize>, b: Seq<usize>, low: usize, high: usize)
    ensures
        beats_within(a + b, low, high) == beats_within(a, low, high) + beats_within(b, low, high),
    decreases b.len(),
{
    if b.len() == 0 {
        assert(a + b =~= a);
        assert(beats_within(a, low, high) + beats_within(b, low, high) =~= beats_within(a, low, high));
    } else {
        assert((a + b).drop_last() =~= a + b.drop_last());
        lemma_within_joined(a, b.drop_last(), low, high);
        assert(beats_within(a + b, low, high) =~= beats_within(a, low, high) + beats_within(b, low, high));
    }
}

/// Beats outside the region do not count.
proof fn lemma_none_within(a: Seq<usize>, low: usize, high: usize)
    requires
        forall|i: int| 0 <= i < a.len() ==> (#[trigger] a[i]) < low || a[i] > high,
    ensures
        beats_within(a, low, high).len() == 0,
    decreases a.len(),
{
    if a.len() > 0 {
        lemma_none_within(a.drop_last(), low, high);
    }
}

/// Longer audio has the same beats, and more behind them.
proof fn lemma_longer(pos: Double, interval: Double, few: nat, many: nat, before: Seq<usize>)
    requires
        few <= many,
        beats_from(pos, interval, many, before) is Some,
    ensures
        beats_from(pos, interval, few, before) is Some,
        ({
            let a = beats_from(pos, interval, few, before).unwrap();
            let b = beats_from(pos, interval, many, before).unwrap();
            &&& before.len() <= a.len() <= b.len()
            &&& a == b.take(a.len() as int)
            &&& a.take(before.len() as int) == before
            &&& forall|i: int| a.len() <= i < b.len() ==> (#[trigger] b[i]) >= few
        }),
    decreases crate::double::INFINITE - pos.place(),
{
    let next = pos + interval;
    let i = pos.to_index();
    if i >= many {
        assert(before =~= before.take(before.len() as int));
    } else if i >= few {
        lemma_from(pos, interval, many, before, few);
        assert(before =~= before.take(before.len() as int));
    } else {
        lemma_longer(next, interval, few, many, before.push(i as usize));
        let a = beats_from(pos, interval, few, before).unwrap();
        assert(a.take(before.len() as int + 1).take(before.len() as int) =~= a.take(before.len() as int));
        assert(before.push(i as usize).take(before.len() as int) =~= before);
    }
}

/// A later position is not at an earlier sample.
proof fn lemma_later(pos: Double, next: Double)
    requires
        pos.lt(next),
    ensures
        pos.to_index() <= next.to_index(),
{
    reveal(Double::to_index);
    if pos.is_finite() && next.is_finite() {
        lemma_value_order(pos, next);
        lemma_pow2_pos(1074);
        if !pos.negative() {
            if next.negative() && next.code() > 0 {
                next.lemma_magnitude_positive();
            }
            if !next.negative() {
                lemma_div_is_ordered(pos.magnitude() as int, next.magnitude() as int, one_units() as int);
            } else {
                assert(decode(0) == 0);
                lemma_quotient(0, one_units(), 0, 0);
            }
        }
    }
}

/// The beats behind a position are at samples that are not earlier.
proof fn lemma_from(pos: Double, interval: Double, samples: nat, before: Seq<usize>, least: nat)
    requires
        beats_from(pos, interval, samples, before) is Some,
        pos.to_index() >= least,
    ensures
        ({
            let b = beats_from(pos, interval, samples, before).unwrap();
            &&& before.len() <= b.len()
            &&& b.take(before.len() as int) == before
            &&& forall|i: int| before.len() <= i < b.len() ==> (#[trigger] b[i]) >= least
        }),
    decreases crate::double::INFINITE - pos.place(),
{
    let next = pos + interval;
    let i = pos.to_index();
    let b = beats_from(pos, interval, samples, before).unwrap();
    if i >= samples {
        assert(b.take(before.len() as int) =~= before);
    } else {
        let more = before.push(i as usize);
        lemma_later(pos, next);
        lemma_from(next, interval, samples, more, least);
        assert(b.take(more.len() as int).take(before.len() as int) =~= b.take(before.len() as int));
        assert(more.take(before.len() as int) =~= before);
        assert(b[before.len() as int] == b.take(more.len() as int)[before.len() as int]);
        assert(i <= usize::MAX) by {
            reveal(Double::to_index);
        }
    }
}

/// More audio behind the last onset, whatever it holds, does not change the meter, where the
/// strengths of the onsets tell the accents.
pub proof fn lemma_audio_after_onsets(
    onsets: Seq<Onset>,
    samples: Seq<Double>,
    more: Seq<Double>,
    sample_rate: u32,
    bpm: Double,
    offset: Double,
    triplet_feel: bool,
)
    requires
        !uniform(onsets),
        forall|i: int| 0 <= i < onsets.len() ==> (#[trigger] onsets[i]).pos < samples.len(),
        meter_of(onsets, samples + more, sample_rate, bpm, offset, triplet_feel) is Some,
    ensures
        meter_of(onsets, samples, sample_rate, bpm, offset, triplet_feel) == meter_of(
            onsets,
            samples + more,
            sample_rate,
            bpm,
            offset,
            triplet_feel,
        ),
{
    if !bpm.le(zero()) {
        let interval = samples_per_minute(sample_rate) / bpm;
        let first = offset * ratio(sample_rate as nat, 1);
        let start = moved_forward(moved_back(first, interval).unwrap(), interval).unwrap();
        let few = samples.len();
        let many = (samples + more).len();
        lemma_longer(start, interval, few, many, Seq::empty());
        let a = beats_from(start, interval, few, Seq::empty()).unwrap();
        let b = beats_from(start, interval, many, Seq::empty()).unwrap();
        let n = onsets.len() as int;
        let low = earliest(onsets, n);
        let high = latest(onsets, n);
        lemma_ends(onsets, n);
        let rest = b.skip(a.len() as int);
        assert(b =~= a + rest);
        assert forall|i: int| 0 <= i < rest.len() implies (#[trigger] rest[i]) < low || rest[i] > high by {
            assert(rest[i] == b[a.len() as int + i]);
        }
        lemma_within_joined(a, rest, low, high);
        lemma_none_within(rest, low, high);
        assert(covered(b, onsets) =~= covered(a, onsets));
        let beats = covered(a, onsets);
        assert(accents(onsets, samples, sample_rate, beats, interval) =~= accents(
            onsets,
            samples + more,
            sample_rate,
            beats,
            interval,
        ));
    }
}

/// Sums and differences of whole numbers below two to the precision are exact.
pub(crate) proof fn lemma_whole_sums(a: nat, b: nat)
    requires
        a < TOP,
        b < TOP,
    ensures
        a + b < TOP ==> ratio(a, 1) + ratio(b, 1) == ratio(a + b, 1),
        a >= b ==> ratio(a, 1) - ratio(b, 1) == ratio((a - b) as nat, 1),
        ratio(a, 1).lt(ratio(b, 1)) <==> a < b,
        ratio(a, 1).le(ratio(b, 1)) <==> a <= b,
        ratio(0, 1) == zero(),
        !ratio(a, 1).lt(zero()),
        !ratio(a, 1).is_nan(),
        ratio(a, 1).to_index() == if a > usize::MAX {
            usize::MAX as nat
        } else {
            a
        },
{
    broadcast use lemma_build;

    reveal(sum_to);
    reveal(Double::to_index);
    let one = one_units();
    lemma_pow2_pos(1074);
    lemma_exact_integer(a);
    lemma_exact_integer(b);
    lemma_encode_zero(TOP as nat, 1);
    assert(0 * one == 0);
    assert(a * one + b * one == (a + b) * one) by (nonlinear_arith);
    if a >= b {
        assert(a * one - b * one == (a - b) as nat * one) by (nonlinear_arith)
            requires
                a >= b,
        ;
    }
    lemma_value_order(ratio(a, 1), ratio(b, 1));
    assert(a < b <==> a * one < b * one) by (nonlinear_arith)
        requires
            one > 0,
    ;
    lemma_quotient(a * one, one, a, 0);
    assert((a + b) * one == 0 <==> a + b == 0) by (nonlinear_arith)
        requires
            one > 0,
    ;
    if a >= b {
        let d = (a - b) as nat;
        assert(d * one == 0 <==> d == 0) by (nonlinear_arith)
            requires
                one > 0,
        ;
    }
}

/// Moving a whole position back by whole intervals leaves the remainder.
proof fn lemma_moved_back(first: nat, length: nat)
    requires
        length > 0,
        first + length < TOP,
    ensures
        moved_back(ratio(first, 1), ratio(length, 1)) == Some(ratio(first % length, 1)),
    decreases first,
{
    lemma_whole_sums(first, length);
    lemma_whole_sums(length, first);
    if length <= first {
        let rest = (first - length) as nat;
        lemma_moved_back(rest, length);
        lemma_whole_sums(rest, first);
        lemma_mod_sub_multiples_vanish(first as int, length as int);
    } else {
        lemma_small_mod(first, length);
    }
}

/// How many whole positions from `pos` on, `length` apart, lie before `end`.
spec fn steps(pos: nat, length: nat, end: nat) -> nat {
    if pos >= end {
        0
    } else {
        ((end - pos + length - 1) / length as int) as nat
    }
}

/// Whole positions from `pos` on, `length` apart.
spec fn at_steps(pos: nat, length: nat, count: nat) -> Seq<usize> {
    Seq::new(count, |j: int| (pos + j * length) as usize)
}

/// The beats from a whole position on.
proof fn lemma_beats_from(pos: nat, length: nat, end: nat, before: Seq<usize>)
    requires
        length > 0,
        pos < end + length,
        end + length + length < TOP,
        end <= usize::MAX,
    ensures
        beats_from(ratio(pos, 1), ratio(length, 1), end, before) == Some(
            before + at_steps(pos, length, steps(pos, length, end)),
        ),
{
    lemma_whole_sums(pos, length);
    if pos >= end {
        assert(before + at_steps(pos, length, 0) =~= before);
    } else {
        let next = pos + length;
        lemma_whole_sums(pos, next);
        lemma_beats_from_next(pos, length, end, before);
    }
}

/// The first of the beats from a whole position on, and the others.
proof fn lemma_beats_from_next(pos: nat, length: nat, end: nat, before: Seq<usize>)
    requires
        length > 0,
        pos < end,
        pos < end + length,
        end + length + length < TOP,
        end <= usize::MAX,
    ensures
        beats_from(ratio(pos, 1), ratio(length, 1), end, before) == Some(
            before + at_steps(pos, length, steps(pos, length, end)),
        ),
    decreases end + length - pos,
{
    let next = pos + length;
    let more = before.push(pos as usize);
    lemma_whole_sums(pos, length);
    lemma_whole_sums(pos, next);
    let count = steps(next, length, end);
    let all = steps(pos, length, end);
    assert(all == count + 1) by {
        if next >= end {
            lemma_quotient((end - pos + length - 1) as nat, length, 1, (end - pos - 1) as nat);
        } else {
            let x = end - next + length - 1;
            lemma_div_plus_one(x, length as int);
            assert(end - pos + length - 1 == length + x);
        }
    }
    assert(more + at_steps(next, length, count) =~= before + at_steps(pos, length, all)) by {
        assert forall|j: int| 0 <= j < count implies (#[trigger] at_steps(next, length, count)[j]) == at_steps(
            pos,
            length,
            all,
        )[j + 1] by {
            assert(next + j * length == pos + (j + 1) * length) by (nonlinear_arith)
                requires
                    next == pos + length,
            ;
        }
        assert(pos + 0 * length == pos);
        let a = more + at_steps(next, length, count);
        let b = before + at_steps(pos, length, all);
        assert forall|i: int| 0 <= i < a.len() implies a[i] == b[i] by {
            if i > before.len() {
                let j = i - before.len() - 1;
                assert(a[i] == at_steps(next, length, count)[j]);
                assert(b[i] == at_steps(pos, length, all)[j + 1]);
            }
        }
    }
    if next < end {
        lemma_beats_from_next(next, length, end, more);
    } else {
        lemma_whole_sums(next, 0);
        assert(more + at_steps(next, length, 0) =~= more);
    }
}

/// The beats of a grid of whole positions.
proof fn lemma_grid(first: nat, length: nat, end: nat)
    requires
        length > 0,
        first + length < TOP,
        end + length + length < TOP,
        end <= usize::MAX,
    ensures
        ({
            let start = first % length;
            beat_grid(ratio(first, 1), ratio(length, 1), end) == Some(at_steps(start, length, steps(start, length, end)))
        }),
{
    let start = first % length;
    lemma_moved_back(first, length);
    lemma_whole_sums(start, 0);
    lemma_mod_bound(first as int, length as int);
    lemma_beats_from(start, length, end, Seq::empty());
    let all = at_steps(start, length, steps(start, length, end));
    assert(Seq::<usize>::empty() + all =~= all);
}

/// Onsets, each as many samples later.
pub open spec fn delayed(onsets: Seq<Onset>, by: nat) -> Seq<Onset> {
    onsets.map_values(|o: Onset| Onset { pos: (o.pos + by) as usize, ..o })
}

/// Delayed onsets have delayed ends and the same strengths.
proof fn lemma_delayed(onsets: Seq<Onset>, by: nat, n: int)
    requires
        1 <= n <= onsets.len(),
        forall|i: int| 0 <= i < onsets.len() ==> (#[trigger] onsets[i]).pos + by <= usize::MAX,
    ensures
        earliest(delayed(onsets, by), n) == earliest(onsets, n) + by,
        latest(delayed(onsets, by), n) == latest(onsets, n) + by,
        weakest(delayed(onsets, by), n) == weakest(onsets, n),
        strongest(delayed(onsets, by), n) == strongest(onsets, n),
    decreases n,
{
    assert(onsets[0].pos + by <= usize::MAX);
    assert(onsets[n - 1].pos + by <= usize::MAX);
    if n > 1 {
        lemma_delayed(onsets, by, n - 1);
    }
}

/// The accent of a delayed beat of delayed onsets.
proof fn lemma_accent_delayed(onsets: Seq<Onset>, by: nat, beat: usize, distance: Double, n: int)
    requires
        0 <= n <= onsets.len(),
        beat + by <= usize::MAX,
        beat + by < TOP,
        forall|i: int| 0 <= i < onsets.len() ==> (#[trigger] onsets[i]).pos + by <= usize::MAX,
        forall|i: int| 0 <= i < onsets.len() ==> (#[trigger] onsets[i]).pos + by < TOP,
    ensures
        accent(delayed(onsets, by), (beat + by) as usize, distance, n) == accent(onsets, beat, distance, n),
    decreases n,
{
    broadcast use lemma_build;

    if n > 0 {
        lemma_accent_delayed(onsets, by, beat, distance, n - 1);
        let p = onsets[n - 1].pos as nat;
        let b = beat as nat;
        assert(delayed(onsets, by)[n - 1].pos == p + by);
        assert(ratio(p + by, 1) - ratio(b + by, 1) == ratio(p, 1) - ratio(b, 1)) by {
            reveal(sum_to);
            lemma_exact_integer(p);
            lemma_exact_integer(b);
            lemma_exact_integer(p + by);
            lemma_exact_integer(b + by);
            let one = one_units();
            assert((p + by) * one - (b + by) * one == p * one - b * one) by (nonlinear_arith);
        }
    }
}

/// The beats of a delayed region are the delayed beats.
proof fn lemma_within_delayed(beats: Seq<usize>, later: Seq<usize>, by: nat, low: usize, high: usize)
    requires
        low + by <= usize::MAX,
        high + by <= usize::MAX,
        later.len() == beats.len(),
        forall|i: int| 0 <= i < beats.len() ==> (#[trigger] later[i]) == beats[i] + by,
    ensures
        ({
            let a = beats_within(beats, low, high);
            let b = beats_within(later, (low + by) as usize, (high + by) as usize);
            &&& b.len() == a.len()
            &&& forall|i: int| 0 <= i < a.len() ==> (#[trigger] b[i]) == a[i] + by
            &&& forall|i: int| 0 <= i < a.len() ==> low <= (#[trigger] a[i]) <= high
        }),
    decreases beats.len(),
{
    if beats.len() > 0 {
        let k = beats.len() - 1;
        assert(later[k] == beats[k] + by);
        assert forall|i: int| 0 <= i < beats.drop_last().len() implies (#[trigger] later.drop_last()[i])
            == beats.drop_last()[i] + by by {
            assert(later[i] == beats[i] + by);
        }
        lemma_within_delayed(beats.drop_last(), later.drop_last(), by, low, high);
    }
}

/// Longer audio has as many more steps.
proof fn lemma_more_steps(start: nat, length: nat, end: nat, k: nat)
    requires
        start < length,
    ensures
        steps(start, length, end + k * length) == steps(start, length, end) + k,
    decreases k,
{
    if k == 0 {
        assert(0 * length == 0);
    } else {
        let l = (k - 1) as nat;
        lemma_more_steps(start, length, end, l);
        assert(k * length == l * length + length) by (nonlinear_arith)
            requires
                k == l + 1,
        ;
        let e = end + l * length;
        let x = e + length - start + length - 1;
        if start >= e {
            lemma_quotient(x as nat, length, 1, (e + length - start - 1) as nat);
        } else {
            lemma_div_plus_one(e - start + length - 1, length as int);
        }
    }
}

/// The beats of delayed onsets are the delayed beats: those that come before the onsets do
/// not count.
proof fn lemma_covered_delayed(onsets: Seq<Onset>, start: nat, length: nat, end: nat, k: nat)
    requires
        onsets.len() > 0,
        start < length,
        end + k * length + length < usize::MAX,
        forall|i: int| 0 <= i < onsets.len() ==> (#[trigger] onsets[i]).pos + k * length <= usize::MAX,
    ensures
        ({
            let by = k * length;
            let a = covered(at_steps(start, length, steps(start, length, end)), onsets);
            let b = covered(at_steps(start, length, steps(start, length, end + by)), delayed(onsets, by));
            &&& b.len() == a.len()
            &&& forall|i: int| 0 <= i < a.len() ==> (#[trigger] b[i]) == a[i] + by
            &&& forall|i: int|
                0 <= i < a.len() ==> (#[trigger] a[i]) <= latest(onsets, onsets.len() as int)
        }),
{
    let n = onsets.len() as int;
    let by = k * length;
    let low = earliest(onsets, n);
    let high = latest(onsets, n);
    lemma_ends(onsets, n);
    lemma_delayed(onsets, by, n);
    let count = steps(start, length, end);
    let beats = at_steps(start, length, count);
    let all = at_steps(start, length, steps(start, length, end + by));
    lemma_more_steps(start, length, end, k);
    let early = at_steps(start, length, k);
    let later = all.skip(k as int);
    assert(all =~= early + later);
    lemma_last_step(start, length, end);
    assert forall|i: int| 0 <= i < count implies (#[trigger] later[i]) == beats[i] + by by {
        assert(start + (k + i) * length == start + i * length + by) by (nonlinear_arith)
            requires
                by == k * length,
        ;
        assert(i * length <= (count - 1) * length) by (nonlinear_arith)
            requires
                0 <= i <= count - 1,
        ;
        assert(0 <= i * length) by (nonlinear_arith)
            requires
                0 <= i,
        ;
        assert(later[i] == all[k + i]);
    }
    lemma_within_delayed(beats, later, by, low, high);
    assert forall|i: int| 0 <= i < early.len() implies (#[trigger] early[i]) < low + by by {
        assert(start + i * length < by) by (nonlinear_arith)
            requires
                start < length,
                0 <= i < k,
                by == k * length,
        ;
        assert(0 <= i * length) by (nonlinear_arith)
            requires
                0 <= i,
        ;
    }
    lemma_none_within(early, (low + by) as usize, (high + by) as usize);
    lemma_within_joined(early, later, (low + by) as usize, (high + by) as usize);
    let a = beats_within(early, (low + by) as usize, (high + by) as usize);
    let b = beats_within(later, (low + by) as usize, (high + by) as usize);
    assert(a + b =~= b);
}

/// The last step lies before the end.
proof fn lemma_last_step(start: nat, length: nat, end: nat)
    requires
        start < length,
    ensures
        steps(start, length, end) > 0 ==> start + (steps(start, length, end) - 1) * length < end,
{
    if start < end {
        let x = (end - start + length - 1) as int;
        let q = x / length as int;
        lemma_fundamental_div_mod(x, length as int);
        assert((q - 1) * length == q * length - length) by (nonlinear_arith);
        assert(length * q == q * length) by (nonlinear_arith);
        lemma_mod_bound(x, length as int);
    }
}

/// Whole beats of silence before the audio do not change the meter, where the strengths of
/// the onsets tell the accents: with all onsets later by that time, the estimate is the same.
/// A beat is a whole number of samples here, so that no rounding moves the beats.
pub proof fn lemma_silence_before_onsets(
    onsets: Seq<Onset>,
    samples: Seq<Double>,
    sample_rate: u32,
    bpm: Double,
    offset: Double,
    triplet_feel: bool,
    beat: nat,
    first: nat,
    beats: nat,
)
    requires
        !uniform(onsets),
        beat > 0,
        samples_per_minute(sample_rate) / bpm == ratio(beat, 1),
        offset * ratio(sample_rate as nat, 1) == ratio(first, 1),
        first + beat < TOP,
        samples.len() + beats * beat + 2 * beat < TOP,
        samples.len() + beats * beat + beat < usize::MAX,
        forall|i: int| 0 <= i < onsets.len() ==> (#[trigger] onsets[i]).pos < samples.len(),
    ensures
        meter_of(
            delayed(onsets, beats * beat),
            Seq::new(beats * beat, |i: int| zero()) + samples,
            sample_rate,
            bpm,
            offset,
            triplet_feel,
        ) == meter_of(onsets, samples, sample_rate, bpm, offset, triplet_feel),
{
    let by = beats * beat;
    let end = samples.len();
    let longer = Seq::new(by, |i: int| zero()) + samples;
    let later = delayed(onsets, by);
    let interval = ratio(beat, 1);
    if !bpm.le(zero()) {
        let start = first % beat;
        let n = onsets.len() as int;
        lemma_mod_bound(first as int, beat as int);
        lemma_grid(first, beat, end);
        lemma_grid(first, beat, end + by);
        assert(longer.len() == end + by);
        assert forall|i: int| 0 <= i < onsets.len() implies (#[trigger] onsets[i]).pos + by <= usize::MAX by {
            assert(onsets[i].pos < end);
        }
        assert forall|i: int| 0 <= i < onsets.len() implies (#[trigger] onsets[i]).pos + by < TOP by {
            assert(onsets[i].pos < end);
        }
        lemma_ends(onsets, n);
        lemma_delayed(onsets, by, n);
        lemma_covered_delayed(onsets, start, beat, end, beats);
        let a = covered(at_steps(start, beat, steps(start, beat, end)), onsets);
        let b = covered(at_steps(start, beat, steps(start, beat, end + by)), later);
        let distance = interval * ratio(8, 100);
        assert(!uniform(later));
        let x = accents(onsets, samples, sample_rate, a, interval);
        let y = accents(later, longer, sample_rate, b, interval);
        assert(x =~= y) by {
            assert forall|i: int| 0 <= i < a.len() implies x[i] == y[i] by {
                assert(b[i] == a[i] + by);
                assert(a[i] <= latest(onsets, n));
                lemma_accent_delayed(onsets, by, a[i], distance, n);
            }
        }
    }
}

} // verus!
