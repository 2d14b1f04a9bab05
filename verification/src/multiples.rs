//! Which tempos count as the same, and which are taken to be whole.

use crate::bpm::{descending, distance, duplicates, inserted, lemma_sorted, sorted, Precise};
use crate::convert::lemma_ratio_positive;
use crate::double::{lemma_build, one_units, ratio, Double, TOP};
use crate::eval::lemma_distance;
use crate::gapdata::fractional_confidence;
use crate::interval::samples_per_minute;
use crate::peaks::{is_moderate, lemma_halved, lemma_twice};
use crate::precision::{lemma_product_commutes, rounded};
use crate::rounding::lemma_encode_scale;
use crate::TempoResult;
use vstd::prelude::*;

verus! {

/// How far two whole numbers of units are from each other, rounded.
pub open spec fn away(a: int, b: int) -> Double {
    rounded(
        if a < b {
            b - a
        } else {
            a - b
        },
    )
}

/// A tempo duplicates another where it is less than a tenth away from that, from its double
/// or from its half, whichever is the higher.
pub proof fn lemma_duplicates(kept: TempoResult, t: TempoResult)
    requires
        is_moderate(kept.bpm),
        is_moderate(t.bpm),
        kept.bpm.magnitude() % 2 == 0,
    ensures
        ({
            let k = kept.bpm.value();
            let v = t.bpm.value();
            duplicates(kept, t) <==> {
                ||| away(v, k).lt(ratio(1, 10))
                ||| away(v, 2 * k).lt(ratio(1, 10))
                ||| away(v, k / 2).lt(ratio(1, 10))
            }
        }),
{
    broadcast use lemma_build;

    let k = kept.bpm;
    let v = t.bpm;
    lemma_ratio_positive(1, 10);
    lemma_twice(k);
    lemma_product_commutes(ratio(2, 1), k);
    lemma_halved(k);
    lemma_product_commutes(ratio(1, 2), k);
    let double = k * ratio(2, 1);
    let half = k * ratio(1, 2);
    assert(half.value() == k.value() / 2);
    lemma_distance(v, k);
    lemma_distance(v, double);
    lemma_distance(v, half);
    assert(distance(k, v) == (v - k).abs().min((v - double).abs()).min((v - half).abs()));
}

/// A tempo that is a hundredth to a twentieth away from a whole number is taken to be that
/// where the confidence of the whole number is more than 0.99 times its own; one that is
/// farther away stays as it is.
pub proof fn lemma_snapped_choice(precise: Precise, bpm: Double)
    requires
        precise.snapped(bpm) is Some,
        !(bpm - bpm.round()).abs().lt(ratio(1, 100)),
    ensures
        ({
            let whole = bpm.round();
            let minute = samples_per_minute(precise.sample_rate);
            let own = fractional_confidence(precise.onsets, precise.window, minute / bpm);
            let other = fractional_confidence(precise.onsets, precise.window, minute / whole);
            let near = (bpm - whole).abs().lt(ratio(1, 20));
            precise.snapped(bpm) == Some(
                if near && (own * ratio(99, 100)).lt(other) {
                    whole
                } else {
                    bpm
                },
            )
        }),
{
    let one = one_units();
    lemma_encode_scale(TOP as nat, 1 * one, 20, 5);
    assert((1 * one) * 5 == 5 * one);
    assert(ratio(5, 100) == ratio(1, 20));
}

/// Candidates are rated anew, with the confidence at full precision, where the first is less
/// than 1.05 times as fit as the second, and stay as they are elsewhere.
pub proof fn lemma_judged(precise: Precise, s: Seq<TempoResult>)
    ensures
        s.len() < 2 || !(s[0].fitness / s[1].fitness).lt(ratio(21, 20)) ==> precise.judged(s) == Some(s),
        s.len() >= 2 && (s[0].fitness / s[1].fitness).lt(ratio(21, 20)) ==> (precise.judged(s) matches Some(r) ==> {
            let rated = s.map_values(
                |t: TempoResult|
                    TempoResult {
                        fitness: fractional_confidence(
                            precise.onsets,
                            precise.window,
                            samples_per_minute(precise.sample_rate) / t.bpm,
                        ),
                        ..t
                    },
            );
            descending(r) && r.to_multiset() =~= rated.to_multiset()
        }),
{
    let one = one_units();
    lemma_encode_scale(TOP as nat, 21 * one, 20, 5);
    assert((21 * one) * 5 == 105 * one);
    assert(ratio(105, 100) == ratio(21, 20));
    let rated = s.map_values(
        |t: TempoResult|
            TempoResult {
                fitness: fractional_confidence(
                    precise.onsets,
                    precise.window,
                    samples_per_minute(precise.sample_rate) / t.bpm,
                ),
                ..t
            },
    );
    assert(precise.rated(s) =~= rated);
    lemma_sorted(rated);
}

/// The candidates of some fitness with one more at the end.
proof fn lemma_filter_push(s: Seq<TempoResult>, t: TempoResult, place: int)
    ensures
        s.push(t).filter(|u: TempoResult| u.fitness.total_place() == place) == if t.fitness.total_place() == place {
            s.filter(|u: TempoResult| u.fitness.total_place() == place).push(t)
        } else {
            s.filter(|u: TempoResult| u.fitness.total_place() == place)
        },
{
    reveal(Seq::filter);
    assert(s.push(t).drop_last() =~= s);
}

/// The candidates of some fitness, one that is added among them.
proof fn lemma_inserted_equal(s: Seq<TempoResult>, t: TempoResult, place: int)
    ensures
        inserted(s, t).filter(|u: TempoResult| u.fitness.total_place() == place) == s.push(t).filter(
            |u: TempoResult| u.fitness.total_place() == place,
        ),
    decreases s.len(),
{
    let f = |u: TempoResult| u.fitness.total_place() == place;
    reveal(Seq::filter);
    assert(s.push(t).drop_last() =~= s);
    if s.len() > 0 && s.last().fitness.total_place() < t.fitness.total_place() {
        let rest = s.drop_last();
        lemma_inserted_equal(rest, t, place);
        let a = inserted(rest, t);
        lemma_filter_push(a, s.last(), place);
        lemma_filter_push(rest, s.last(), place);
        lemma_filter_push(rest, t, place);
        lemma_filter_push(s, t, place);
        assert(rest.push(s.last()) =~= s);
    }
}

/// Equally fit candidates keep their order when all are sorted.
pub proof fn lemma_sorted_stable(s: Seq<TempoResult>, place: int)
    ensures
        sorted(s).filter(|u: TempoResult| u.fitness.total_place() == place) == s.filter(
            |u: TempoResult| u.fitness.total_place() == place,
        ),
    decreases s.len(),
{
    let f = |u: TempoResult| u.fitness.total_place() == place;
    reveal(Seq::filter);
    if s.len() > 0 {
        let rest = s.drop_last();
        lemma_sorted_stable(rest, place);
        lemma_inserted_equal(sorted(rest), s.last(), place);
        let a = sorted(rest).push(s.last());
        assert(a.drop_last() =~= sorted(rest));
        assert(a.last() == s.last());
    }
}

} // verus!
