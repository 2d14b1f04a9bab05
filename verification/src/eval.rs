//! The comparison of detected timing with the ground truth of beatmaps.

use crate::convert::{lemma_exact, lemma_exact_integer, lemma_ratio_ordered};
use crate::display::{fixed_text, integer_text, write_fixed, write_integer};
use crate::arith::sum_to;
use crate::double::{decode, lemma_build, one_units, ratio, round, zero, Double, TOP};
use crate::grain::lemma_multiple;
use crate::meter::MeterEstimate;
use crate::order::{average, lemma_ordered, mean, ordered, sort, sum, total};
use crate::osu::{OsuTiming, Skip, Timing};
use crate::precision::{
    apart, lemma_half, lemma_rem_euclid_range, lemma_remainder_exact, lemma_rounded_exact, lemma_rounded_ordered,
    lemma_sum_ordered, lemma_sum_rounded, lemma_value_order, rounded,
};
use crate::rounding::{lemma_encode_scale, lemma_encode_zero};
use crate::report::Row;
use crate::TempoResult;
use std::collections::hash_map::DefaultHasher;
use std::collections::HashMap;
use std::hash::Hasher;
use vstd::arithmetic::div_mod::*;
use vstd::arithmetic::power2::*;
use vstd::prelude::*;
use vstd::std_specs::hash::*;
use vstd::string::*;

verus! {

/// Whether a detected tempo is the true one: they differ by less than half a beat per
/// minute.
pub open spec fn tempo_matches(detected: Double, truth: Double) -> bool {
    (detected - truth).abs().lt(ratio(1, 2))
}

/// How far two finite numbers are from each other, in units.
pub open spec fn gap_between(a: Double, b: Double) -> nat {
    if a.value() < b.value() {
        (b.value() - a.value()) as nat
    } else {
        (a.value() - b.value()) as nat
    }
}

/// The number a half.
pub(crate) proof fn lemma_one_half()
    ensures
        ratio(1, 2) == round(false, pow2(1073), 1),
        ratio(1, 2).is_finite(),
        ratio(1, 2).value() == pow2(1073),
        one_units() == 2 * pow2(1073),
{
    broadcast use lemma_build;

    lemma_pow2_unfold(1074);
    lemma_pow2_pos(1073);
    lemma_exact(false, 1, 1073);
    assert(1 * pow2(1073) == pow2(1073));
    lemma_encode_scale(TOP as nat, pow2(1073), 1, 2);
    assert(pow2(1073) * 2 == 1 * one_units());
}

/// The magnitude of a difference is the rounded distance.
pub(crate) proof fn lemma_distance(a: Double, b: Double)
    requires
        a.is_finite(),
        b.is_finite(),
    ensures
        (a - b).abs().same(rounded(gap_between(a, b) as int)),
        !(a - b).is_nan(),
{
    broadcast use lemma_build;

    lemma_sum_rounded(a, b.neg());
    lemma_encode_zero(TOP as nat, 1);
}

/// A tempo is right by its distance from the true one alone, whichever of the two is the
/// higher: the distance, rounded, is below a half. Tempos that are no finite numbers are
/// never right.
pub proof fn lemma_right_by_distance(a: Double, b: Double)
    ensures
        tempo_matches(a, b) == tempo_matches(b, a),
        tempo_matches(a, b) ==> a.is_finite() && b.is_finite(),
        a.is_finite() && b.is_finite() ==> tempo_matches(a, b) == rounded(gap_between(a, b) as int).lt(ratio(1, 2)),
{
    broadcast use lemma_build;

    lemma_one_half();
    if a.is_finite() && b.is_finite() {
        lemma_distance(a, b);
        lemma_distance(b, a);
    } else {
        reveal(sum_to);
    }
}

/// Of tempos of at least one beat per minute, one is right where it differs from the true
/// one by less than half a beat per minute, and nowhere else; no rounding plays a part.
pub proof fn lemma_right_within_half(a: Double, b: Double)
    requires
        a.is_finite(),
        b.is_finite(),
        ratio(1, 1).le(a),
        ratio(1, 1).le(b),
    ensures
        tempo_matches(a, b) <==> 2 * gap_between(a, b) < one_units(),
{
    broadcast use lemma_build;

    let d = gap_between(a, b);
    lemma_right_by_distance(a, b);
    lemma_one_half();
    lemma_exact_integer(1);
    lemma_value_order(ratio(1, 1), a);
    lemma_value_order(ratio(1, 1), b);
    let half = ratio(1, 2);
    if 2 * d < one_units() {
        let p = pow2(1022);
        lemma_pow2_pos(1022);
        lemma_multiple(a, 1022);
        lemma_multiple(b, 1022);
        let x = a.magnitude() / p;
        let y = b.magnitude() / p;
        lemma_fundamental_div_mod(a.magnitude() as int, p as int);
        lemma_fundamental_div_mod(b.magnitude() as int, p as int);
        let m = apart(x, y);
        assert(d == m * p) by (nonlinear_arith)
            requires
                a.magnitude() == p * x,
                b.magnitude() == p * y,
                d == apart(a.magnitude(), b.magnitude()),
                m == apart(x, y),
                p > 0,
        ;
        lemma2_to64();
        lemma2_to64_rest();
        lemma_pow2_adds(51, 1022);
        assert(m < pow2(51)) by (nonlinear_arith)
            requires
                m * p < pow2(51) * p,
                p > 0,
        ;
        lemma_exact(false, m, 1022);
        lemma_value_order(rounded(d as int), half);
    } else {
        lemma_rounded_ordered(pow2(1073) as int, d as int);
    }
}

/// The rank, from 1 on, at which the true tempo stands among candidates from `i` on.
pub open spec fn true_rank(results: Seq<TempoResult>, truth: Double, i: int) -> Option<nat>
    decreases results.len() - i,
{
    if i < 0 || i >= results.len() {
        None
    } else if tempo_matches(results[i].bpm, truth) {
        Some((i + 1) as nat)
    } else {
        true_rank(results, truth, i + 1)
    }
}

/// The rank is that of the first candidate that is right; there is none where no candidate
/// is.
pub proof fn lemma_true_rank(results: Seq<TempoResult>, truth: Double, i: int)
    requires
        0 <= i,
    ensures
        match true_rank(results, truth, i) {
            Some(rank) => {
                &&& i < rank <= results.len()
                &&& tempo_matches(results[rank - 1].bpm, truth)
                &&& forall|k: int| i <= k < rank - 1 ==> !tempo_matches((#[trigger] results[k]).bpm, truth)
            },
            None => forall|k: int| i <= k < results.len() ==> !tempo_matches((#[trigger] results[k]).bpm, truth),
        },
    decreases results.len() - i,
{
    if i < results.len() && !tempo_matches(results[i].bpm, truth) {
        lemma_true_rank(results, truth, i + 1);
    }
}

/// A time difference brought to within half a beat.
pub open spec fn wrapped_error(error: Double, beat: Double) -> Double {
    (error + beat / ratio(2, 1)).rem_euclid(beat) - beat / ratio(2, 1)
}

/// How much later than the true one a detected offset is, in milliseconds and within half
/// a beat.
pub open spec fn offset_error(detected: Double, truth: Timing) -> Double {
    let beat = ratio(60, 1) / truth.bpm;
    let true_offset = (truth.offset_ms / ratio(1000, 1)).rem_euclid(beat);
    wrapped_error(detected - true_offset, beat) * ratio(1000, 1)
}

/// A wrapped difference lies within half a beat.
pub proof fn lemma_wrapped_error(error: Double, beat: Double)
    requires
        beat.is_finite(),
        zero().lt(beat),
        (error + beat / ratio(2, 1)).is_finite(),
    ensures
        ({
            let half = beat / ratio(2, 1);
            &&& half.neg().le(wrapped_error(error, beat))
            &&& wrapped_error(error, beat).le(beat - half)
            &&& beat.magnitude() % 2 == 0 ==> (beat - half).same(half)
        }),
{
    let half = beat / ratio(2, 1);
    let minus = half.neg();
    lemma_half(beat);
    lemma_rem_euclid_range(error + half, beat);
    let y = (error + half).rem_euclid(beat);
    assert(half.neg().le(wrapped_error(error, beat))) by {
        lemma_sum_ordered(zero(), y, minus);
        lemma_sum_rounded(zero(), minus);
        lemma_rounded_exact(minus);
        assert(decode(0) == 0);
    }
    assert(wrapped_error(error, beat).le(beat - half)) by {
        lemma_sum_ordered(y, beat, minus);
    }
    if beat.magnitude() % 2 == 0 {
        lemma_sum_rounded(beat, minus);
        lemma_rounded_exact(half);
    }
}

/// The least remainder that is not negative, of exact values and then rounded.
proof fn lemma_remainder_rounded(x: Double, y: Double)
    requires
        x.is_finite(),
        y.is_finite(),
        zero().lt(y),
    ensures
        x.rem_euclid(y).same(rounded(x.value() % y.value())),
{
    broadcast use lemma_build;

    y.lemma_magnitude_positive();
    lemma_remainder_exact(x, y);
    lemma_rem_euclid_range(x, y);
    let rest = x.rem(y);
    let m = x.magnitude() as int;
    let d = y.magnitude() as int;
    let r = m % d;
    lemma_fundamental_div_mod(m, d);
    lemma_mod_bound(m, d);
    lemma_value_order(rest, zero());
    assert(zero().value() == 0);
    lemma_rounded_exact(rest);
    if x.negative() {
        if r == 0 {
            assert(-m == (-(m / d)) * d + 0) by (nonlinear_arith)
                requires
                    m == d * (m / d),
            ;
            lemma_fundamental_div_mod_converse(-m, d, -(m / d), 0);
        } else {
            assert(-m == (-(m / d) - 1) * d + (d - r)) by (nonlinear_arith)
                requires
                    m == d * (m / d) + r,
            ;
            lemma_fundamental_div_mod_converse(-m, d, -(m / d) - 1, d - r);
            lemma_sum_rounded(rest, y.abs());
        }
    }
}

/// A wrapped difference is the difference less whole beats: half a beat later, the exact
/// remainder by the beat is what it is without the half.
pub proof fn lemma_wrapped_by_beats(error: Double, beat: Double)
    requires
        beat.is_finite(),
        zero().lt(beat),
        (error + beat / ratio(2, 1)).is_finite(),
    ensures
        ({
            let half = beat / ratio(2, 1);
            exists|y: Double|
                {
                    &&& #[trigger] y.same(rounded((error + half).value() % beat.value()))
                    &&& wrapped_error(error, beat) == y - half
                }
        }),
{
    let half = beat / ratio(2, 1);
    lemma_remainder_rounded(error + half, beat);
    let y = (error + half).rem_euclid(beat);
    assert(y.same(rounded((error + half).value() % beat.value())));
}

/// A difference within half a beat keeps its sign: what is too late is wrapped to a number
/// that is not negative, and what is too early to one that is not positive.
pub proof fn lemma_wrapped_sign(error: Double, beat: Double)
    requires
        error.is_finite(),
        beat.is_finite(),
        zero().lt(beat),
        zero().le(error + beat / ratio(2, 1)),
        (error + beat / ratio(2, 1)).lt(beat),
    ensures
        wrapped_error(error, beat) == (error + beat / ratio(2, 1)) - beat / ratio(2, 1),
        zero().le(error) ==> zero().le(wrapped_error(error, beat)),
        error.le(zero()) ==> wrapped_error(error, beat).le(zero()),
{
    broadcast use lemma_build;

    let half = beat / ratio(2, 1);
    let x = error + half;
    lemma_half(beat);
    lemma_sum_rounded(error, half);
    lemma_value_order(zero(), x);
    lemma_value_order(x, beat);
    assert(zero().value() == 0);
    // Nothing is taken away.
    beat.lemma_magnitude_positive();
    lemma_remainder_exact(x, beat);
    if x.negative() {
        if x.code() > 0 {
            x.lemma_magnitude_positive();
        }
        lemma_small_mod(0, beat.magnitude());
    } else {
        lemma_small_mod(x.magnitude(), beat.magnitude());
    }
    let rest = x.rem(beat);
    lemma_same_magnitude(rest, x);
    assert(x.rem_euclid(beat) == x) by {
        lemma_value_order(rest, zero());
    }
    // The order stays.
    lemma_value_order(zero(), error);
    lemma_value_order(error, zero());
    let minus = half.neg();
    lemma_sum_rounded(x, minus);
    lemma_rounded_exact(half);
    lemma_rounded_exact(zero());
    if zero().le(error) {
        lemma_rounded_ordered(half.value(), error.value() + half.value());
        lemma_value_order(half, x);
        lemma_rounded_ordered(0, x.value() - half.value());
    }
    if error.le(zero()) {
        lemma_rounded_ordered(error.value() + half.value(), half.value());
        lemma_value_order(x, half);
        lemma_rounded_ordered(x.value() - half.value(), 0);
    }
}

/// A thousand times a number has its sign.
proof fn lemma_thousandfold_sign(x: Double)
    requires
        !x.is_nan(),
    ensures
        zero().le(x) ==> zero().le(x * ratio(1000, 1)),
        x.le(zero()) ==> (x * ratio(1000, 1)).le(zero()),
{
    broadcast use lemma_build;

    reveal(Double::times);
    lemma_exact_integer(1000);
    lemma_pow2_pos(1074);
    if x.code() == 0 {
        assert(0 * ratio(1000, 1).magnitude() == 0);
        lemma_encode_zero(TOP as nat, one_units());
    }
}

/// A detected offset that is later than the true one by less than half a beat has an error
/// that is not negative, and one that is earlier an error that is not positive. The true
/// offset is that of the first beat: whole beats are taken from it.
pub proof fn lemma_offset_error_sign(detected: Double, truth: Timing)
    requires
        ({
            let beat = ratio(60, 1) / truth.bpm;
            let first = rounded((truth.offset_ms / ratio(1000, 1)).value() % beat.value());
            &&& beat.is_finite() && zero().lt(beat)
            &&& (truth.offset_ms / ratio(1000, 1)).is_finite()
            &&& detected.is_finite()
            &&& (detected - first).is_finite()
            &&& zero().le((detected - first) + beat / ratio(2, 1))
            &&& ((detected - first) + beat / ratio(2, 1)).lt(beat)
        }),
    ensures
        ({
            let beat = ratio(60, 1) / truth.bpm;
            let first = rounded((truth.offset_ms / ratio(1000, 1)).value() % beat.value());
            &&& first.le(detected) ==> zero().le(offset_error(detected, truth))
            &&& detected.le(first) ==> offset_error(detected, truth).le(zero())
        }),
{
    broadcast use lemma_build;

    let beat = ratio(60, 1) / truth.bpm;
    let ms = truth.offset_ms / ratio(1000, 1);
    let first = rounded(ms.value() % beat.value());
    let found = ms.rem_euclid(beat);
    lemma_remainder_rounded(ms, beat);
    lemma_rem_euclid_range(ms, beat);
    lemma_same_difference(detected, found, first);
    let e = detected - found;
    let half = beat / ratio(2, 1);
    lemma_half(beat);
    lemma_sum_rounded(detected, first.neg());
    lemma_value_order(first, detected);
    lemma_value_order(detected, first);
    if first.le(detected) {
        lemma_rounded_ordered(0, detected.value() - first.value());
        lemma_encode_zero(TOP as nat, 1);
    }
    if detected.le(first) {
        lemma_rounded_ordered(detected.value() - first.value(), 0);
        lemma_encode_zero(TOP as nat, 1);
    }
    lemma_sum_rounded(e, half);
    lemma_sum_rounded(detected - first, half);
    lemma_value_order(e, detected - first);
    lemma_wrapped_sign(e, beat);
    lemma_sum_rounded(e + half, half.neg());
    lemma_thousandfold_sign(wrapped_error(e, beat));
}

/// The error of a detected offset, in milliseconds: its difference from the time of the first
/// true beat, which is the true offset in seconds less whole beats, within half a beat.
pub proof fn lemma_offset_error(detected: Double, truth: Timing)
    requires
        ({
            let beat = ratio(60, 1) / truth.bpm;
            &&& beat.is_finite() && zero().lt(beat)
            &&& (truth.offset_ms / ratio(1000, 1)).is_finite()
        }),
    ensures
        ({
            let beat = ratio(60, 1) / truth.bpm;
            let seconds = truth.offset_ms / ratio(1000, 1);
            exists|first: Double|
                {
                    &&& #[trigger] first.same(rounded(seconds.value() % beat.value()))
                    &&& offset_error(detected, truth) == wrapped_error(detected - first, beat) * ratio(1000, 1)
                }
        }),
{
    let beat = ratio(60, 1) / truth.bpm;
    let seconds = truth.offset_ms / ratio(1000, 1);
    lemma_remainder_rounded(seconds, beat);
    assert(seconds.rem_euclid(beat).same(rounded(seconds.value() % beat.value())));
}

/// The difference from the same number is the same.
proof fn lemma_same_difference(x: Double, y: Double, z: Double)
    requires
        x.is_finite(),
        y.is_finite(),
        y.same(z),
    ensures
        (x - y).same(x - z),
        z.is_finite(),
{
    broadcast use lemma_build;

    lemma_value_order(y, z);
    lemma_sum_rounded(x, y.neg());
    lemma_sum_rounded(x, z.neg());
}

/// Numbers of the same sign and magnitude are the same.
proof fn lemma_same_magnitude(x: Double, y: Double)
    requires
        x.is_finite(),
        y.is_finite(),
        x.negative() == y.negative(),
        x.magnitude() == y.magnitude(),
    ensures
        x == y,
{
    crate::double::lemma_round_exact(x);
    crate::double::lemma_round_exact(y);
}

/// Whether a row holds the comparison of the candidates with the truth.
pub open spec fn compares(
    row: Row,
    osz: Seq<char>,
    truth: Timing,
    results: Seq<TempoResult>,
    meter: Option<MeterEstimate>,
) -> bool {
    let top = results[0];
    &&& row.osz@ == osz
    &&& row.audio@ == truth.audio_filename
    &&& row.status@ == "ok"@
    &&& row.true_bpm@ == fixed_text(truth.bpm, 3, false)
    &&& row.detected_bpm@ == fixed_text(top.bpm, 3, false)
    &&& row.bpm_error@ == fixed_text(top.bpm - truth.bpm, 3, false)
    &&& row.true_bpm_rank@ == match true_rank(results, truth.bpm, 0) {
        Some(rank) => integer_text(rank),
        None => Seq::empty(),
    }
    &&& row.true_offset_ms@ == fixed_text(truth.offset_ms, 1, false)
    &&& row.detected_offset_ms@ == fixed_text(top.offset * ratio(1000, 1), 1, false)
    &&& row.offset_error_ms@ == if tempo_matches(top.bpm, truth.bpm) {
        fixed_text(offset_error(top.offset, truth), 1, false)
    } else {
        Seq::empty()
    }
    &&& row.meter_true@ == integer_text(truth.meter as nat)
    &&& row.meter_detected@ == match meter {
        Some(m) => m.notation@,
        None => Seq::empty(),
    }
    &&& row.meter_confidence@ == match meter {
        Some(m) => fixed_text(m.confidence, 2, false),
        None => Seq::empty(),
    }
}

/// What the row of a comparison tells: the tempos and how much higher the first candidate is
/// than the truth, the offsets in milliseconds, the rank of the first candidate that is right,
/// and the error of the offset only where the first candidate is right.
pub proof fn lemma_compared(
    row: Row,
    osz: Seq<char>,
    truth: Timing,
    results: Seq<TempoResult>,
    meter: Option<MeterEstimate>,
    rank: nat,
)
    requires
        results.len() > 0,
        compares(row, osz, truth, results, meter),
    ensures
        row.true_bpm@ == fixed_text(truth.bpm, 3, false),
        row.detected_bpm@ == fixed_text(results[0].bpm, 3, false),
        row.bpm_error@ == fixed_text(results[0].bpm - truth.bpm, 3, false),
        row.true_offset_ms@ == fixed_text(truth.offset_ms, 1, false),
        row.detected_offset_ms@ == fixed_text(results[0].offset * ratio(1000, 1), 1, false),
        tempo_matches(results[0].bpm, truth.bpm) ==> row.offset_error_ms@ == fixed_text(
            offset_error(results[0].offset, truth),
            1,
            false,
        ) && row.true_bpm_rank@ == integer_text(1),
        !tempo_matches(results[0].bpm, truth.bpm) ==> row.offset_error_ms@.len() == 0,
        0 < rank <= results.len() && tempo_matches(results[rank - 1].bpm, truth.bpm) && (forall|k: int|
            0 <= k < rank - 1 ==> !tempo_matches((#[trigger] results[k]).bpm, truth.bpm)) ==> row.true_bpm_rank@
            == integer_text(rank),
        (forall|k: int| 0 <= k < results.len() ==> !tempo_matches((#[trigger] results[k]).bpm, truth.bpm))
            ==> row.true_bpm_rank@.len() == 0,
{
    lemma_true_rank(results, truth.bpm, 0);
}

/// The comparison of one map.
#[derive(Debug)]
pub struct Comparison {
    pub row: Row,
    /// In milliseconds, within half a beat; only where the tempo is right.
    pub offset_error: Option<Double>,
    /// Whether the tempo is right.
    pub bpm_ok: bool,
}

fn is_true_tempo(detected: Double, truth: Double) -> (r: bool)
    ensures
        r == tempo_matches(detected, truth),
{
    (detected - truth).abs().less(Double::from_ratio(1, 2))
}

/// Finds the rank of the true tempo.
fn find_rank(results: &Vec<TempoResult>, truth: Double) -> (r: Option<usize>)
    ensures
        match r {
            Some(rank) => true_rank(results@, truth, 0) == Some(rank as nat),
            None => true_rank(results@, truth, 0) is None,
        },
{
    let mut i: usize = 0;
    while i < results.len()
        invariant
            i <= results@.len(),
            true_rank(results@, truth, 0) == true_rank(results@, truth, i as int),
        decreases results@.len() - i,
    {
        if is_true_tempo(results[i].bpm, truth) {
            return Some(i + 1);
        }
        i = i + 1;
    }
    None
}

/// Finds how much later than the true one a detected offset is.
pub fn find_offset_error(detected: Double, truth: &OsuTiming) -> (r: Double)
    ensures
        r == offset_error(detected, truth@),
{
    let two = Double::from_ratio(2, 1);
    let thousand = Double::from_ratio(1000, 1);
    let beat = Double::from_ratio(60, 1) / truth.bpm;
    let true_offset = (truth.offset_ms / thousand).rem_euclid(beat);
    let error = detected - true_offset;
    let error = (error + beat / two).rem_euclid(beat) - beat / two;
    error * thousand
}

/// Compares the candidates of a map with its true timing. Without any candidate the map
/// cannot be compared.
pub fn compare_timing(
    osz: &str,
    truth: &OsuTiming,
    results: &Vec<TempoResult>,
    meter: &Option<MeterEstimate>,
) -> (r: Result<Comparison, String>)
    ensures
        match r {
            Ok(c) => {
                &&& results@.len() > 0
                &&& compares(c.row, osz@, truth@, results@, *meter)
                &&& c.bpm_ok == tempo_matches(results@[0].bpm, truth.bpm)
                &&& c.offset_error == if c.bpm_ok {
                    Some(offset_error(results@[0].offset, truth@))
                } else {
                    None
                }
            },
            Err(message) => results@.len() == 0 && message@ == "detector returned no candidates"@,
        },
{
    if results.len() == 0 {
        return Err("detector returned no candidates".to_string());
    }
    let top = results[0];
    let bpm_ok = is_true_tempo(top.bpm, truth.bpm);
    let true_bpm_rank = match find_rank(results, truth.bpm) {
        Some(rank) => write_integer(rank as u64),
        None => String::new(),
    };
    let offset_error = if bpm_ok {
        Some(find_offset_error(top.offset, truth))
    } else {
        None
    };
    let offset_error_ms = match offset_error {
        Some(e) => write_fixed(e, 1, false),
        None => String::new(),
    };
    let (meter_detected, meter_confidence) = match meter {
        Some(m) => (m.notation.clone(), write_fixed(m.confidence, 2, false)),
        None => (String::new(), String::new()),
    };
    let row = Row {
        osz: osz.to_string(),
        audio: truth.audio_filename.clone(),
        status: "ok".to_string(),
        true_bpm: write_fixed(truth.bpm, 3, false),
        detected_bpm: write_fixed(top.bpm, 3, false),
        bpm_error: write_fixed(top.bpm - truth.bpm, 3, false),
        true_bpm_rank,
        true_offset_ms: write_fixed(truth.offset_ms, 1, false),
        detected_offset_ms: write_fixed(top.offset * Double::from_ratio(1000, 1), 1, false),
        offset_error_ms,
        meter_true: write_integer(truth.meter as u64),
        meter_detected,
        meter_confidence,
    };
    proof {
        assert(row.offset_error_ms@ =~= if bpm_ok {
            fixed_text(crate::eval::offset_error(top.offset, truth@), 1, false)
        } else {
            Seq::empty()
        });
        assert(row.true_bpm_rank@ =~= match true_rank(results@, truth.bpm, 0) {
            Some(rank) => integer_text(rank),
            None => Seq::empty(),
        });
        assert(row.meter_detected@ =~= match *meter {
            Some(m) => m.notation@,
            None => Seq::empty(),
        });
        assert(row.meter_confidence@ =~= match *meter {
            Some(m) => fixed_text(m.confidence, 2, false),
            None => Seq::empty(),
        });
    }
    Ok(Comparison { row, offset_error, bpm_ok })
}

/// The hash by which audio is recognized; that of nothing where it cannot be read.
pub fn audio_hash(content: Option<&[u8]>) -> (r: u64)
    ensures
        r == DefaultHasher::spec_finish(
            match content {
                Some(bytes) => seq![bytes@],
                None => Seq::empty(),
            },
        ),
{
    let mut hasher = DefaultHasher::new();
    match content {
        Some(bytes) => {
            hasher.write(bytes);
            assert(hasher@ =~= seq![bytes@]);
        },
        None => {},
    }
    hasher.finish()
}

/// The account of an evaluation.
pub struct Ledger {
    /// One for each map, skipped or not.
    pub rows: Vec<Row>,
    /// The names of the sets with skipped maps, and the reasons.
    pub skips: Vec<(String, String)>,
    /// How many maps were compared.
    pub analyzed: usize,
    /// How many of them had the right tempo.
    pub bpm_correct: usize,
    /// The offset errors of those, in milliseconds.
    pub offset_errors: Vec<Double>,
    /// The sets in which audio was first seen, by its hash.
    pub seen: HashMap<u64, String>,
}

/// Whether a row is that of a skipped map.
pub open spec fn is_skipped(row: Row, osz: Seq<char>, reason: Seq<char>) -> bool {
    &&& row.osz@ == osz
    &&& row.status@ == "skipped: "@ + reason
    &&& row.audio@.len() == 0
    &&& row.true_bpm@.len() == 0
    &&& row.detected_bpm@.len() == 0
    &&& row.bpm_error@.len() == 0
    &&& row.true_bpm_rank@.len() == 0
    &&& row.true_offset_ms@.len() == 0
    &&& row.detected_offset_ms@.len() == 0
    &&& row.offset_error_ms@.len() == 0
    &&& row.meter_true@.len() == 0
    &&& row.meter_detected@.len() == 0
    &&& row.meter_confidence@.len() == 0
}

impl Ledger {
    /// Whether the counts fit the rows.
    pub open spec fn well_formed(self) -> bool {
        &&& self.rows@.len() == self.analyzed + self.skips@.len()
        &&& self.bpm_correct <= self.analyzed
        &&& self.offset_errors@.len() == self.bpm_correct
    }

    /// Whether another ledger has one more skipped map and is the same otherwise.
    pub open spec fn skipped(self, after: Ledger, osz: Seq<char>, reason: Seq<char>) -> bool {
        &&& after.rows@.len() == self.rows@.len() + 1
        &&& after.rows@.drop_last() == self.rows@
        &&& is_skipped(after.rows@.last(), osz, reason)
        &&& after.skips@.len() == self.skips@.len() + 1
        &&& after.skips@.drop_last() == self.skips@
        &&& after.skips@.last().0@ == osz
        &&& after.skips@.last().1@ == reason
        &&& after.analyzed == self.analyzed
        &&& after.bpm_correct == self.bpm_correct
        &&& after.offset_errors == self.offset_errors
    }

    pub fn new() -> (r: Ledger)
        ensures
            r.well_formed(),
            r.rows@.len() == 0,
            r.skips@.len() == 0,
            r.analyzed == 0,
            r.seen@ == Map::<u64, String>::empty(),
    {
        Ledger {
            rows: Vec::new(),
            skips: Vec::new(),
            analyzed: 0,
            bpm_correct: 0,
            offset_errors: Vec::new(),
            seen: HashMap::new(),
        }
    }

    /// Skips a map.
    pub fn skip(&mut self, osz: &str, reason: &str)
        requires
            old(self).well_formed(),
        ensures
            final(self).well_formed(),
            old(self).skipped(*final(self), osz@, reason@),
            final(self).seen == old(self).seen,
    {
        let ghost rows = self.rows@;
        let ghost skips = self.skips@;
        self.rows.push(Row::skipped(osz, reason));
        self.skips.push((osz.to_string(), reason.to_string()));
        assert(self.rows@.drop_last() =~= rows);
        assert(self.skips@.drop_last() =~= skips);
    }

    /// Skips a set whose timings cannot be read.
    pub fn skip_set(&mut self, osz: &str, skip: &Skip)
        requires
            old(self).well_formed(),
        ensures
            final(self).well_formed(),
            old(self).skipped(*final(self), osz@, skip.text()),
            final(self).seen == old(self).seen,
    {
        let reason = skip.message();
        self.skip(osz, reason.as_str());
    }

    /// Skips a map whose audio cannot be extracted.
    pub fn skip_audio(&mut self, osz: &str, skip: &Skip)
        requires
            old(self).well_formed(),
        ensures
            final(self).well_formed(),
            old(self).skipped(*final(self), osz@, "audio extraction failed: "@ + skip.text()),
            final(self).seen == old(self).seen,
    {
        let mut reason = "audio extraction failed: ".to_string();
        let message = skip.message();
        reason.append(message.as_str());
        self.skip(osz, reason.as_str());
    }

    /// Skips a map whose audio cannot be decoded.
    pub fn skip_decoding(&mut self, osz: &str, message: &str)
        requires
            old(self).well_formed(),
        ensures
            final(self).well_formed(),
            old(self).skipped(*final(self), osz@, "decode failed: "@ + message@),
            final(self).seen == old(self).seen,
    {
        let mut reason = "decode failed: ".to_string();
        reason.append(message);
        self.skip(osz, reason.as_str());
    }

    /// Notes the audio of a map. A map whose audio was seen before is skipped.
    pub fn note_audio(&mut self, osz: &str, hash: u64) -> (r: bool)
        requires
            old(self).well_formed(),
        ensures
            final(self).well_formed(),
            r == !old(self).seen@.contains_key(hash),
            !r ==> old(self).skipped(
                *final(self),
                osz@,
                "duplicate audio of "@ + old(self).seen@[hash]@,
            ) && final(self).seen == old(self).seen,
            r ==> {
                &&& final(self).rows == old(self).rows
                &&& final(self).skips == old(self).skips
                &&& final(self).analyzed == old(self).analyzed
                &&& final(self).bpm_correct == old(self).bpm_correct
                &&& final(self).offset_errors == old(self).offset_errors
                &&& final(self).seen@.dom() == old(self).seen@.dom().insert(hash)
                &&& final(self).seen@[hash]@ == osz@
                &&& forall|h: u64| h != hash && old(self).seen@.contains_key(h) ==> final(self).seen@[h] == old(
                    self,
                ).seen@[h]
            },
    {
        broadcast use group_hash_axioms;

        let mut reason = "duplicate audio of ".to_string();
        let seen = match self.seen.get(&hash) {
            Some(first) => {
                reason.append(first.as_str());
                true
            },
            None => false,
        };
        if seen {
            self.skip(osz, reason.as_str());
            false
        } else {
            self.seen.insert(hash, osz.to_string());
            true
        }
    }

    /// Takes in the comparison of a map, or skips the map.
    pub fn record(&mut self, osz: &str, outcome: Result<Comparison, String>)
        requires
            old(self).well_formed(),
            old(self).analyzed < usize::MAX,
            outcome matches Ok(c) ==> c.bpm_ok == c.offset_error is Some,
        ensures
            final(self).well_formed(),
            final(self).seen == old(self).seen,
            match outcome {
                Err(message) => old(self).skipped(*final(self), osz@, message@),
                Ok(c) => {
                    &&& final(self).rows@ == old(self).rows@.push(c.row)
                    &&& final(self).skips == old(self).skips
                    &&& final(self).analyzed == old(self).analyzed + 1
                    &&& final(self).bpm_correct == old(self).bpm_correct + if c.bpm_ok {
                        1int
                    } else {
                        0
                    }
                    &&& final(self).offset_errors@ == match c.offset_error {
                        Some(e) => old(self).offset_errors@.push(e),
                        None => old(self).offset_errors@,
                    }
                },
            },
    {
        match outcome {
            Ok(c) => {
                if c.bpm_ok {
                    self.bpm_correct = self.bpm_correct + 1;
                }
                match c.offset_error {
                    Some(e) => {
                        self.offset_errors.push(e);
                    },
                    None => {},
                }
                self.rows.push(c.row);
                self.analyzed = self.analyzed + 1;
            },
            Err(message) => {
                self.skip(osz, message.as_str());
            },
        }
    }
}

/// How some offset errors are spread.
#[derive(Debug, Clone, Copy)]
pub struct Spread {
    pub mean: Double,
    /// The middle one in order, the later one of two.
    pub median: Double,
    pub variance: Double,
    pub min: Double,
    pub max: Double,
    /// How many are at most 10 ms.
    pub within_10: usize,
    /// How many are at most 40 ms.
    pub within_40: usize,
    pub count: usize,
}

/// The squared distances of some numbers from one.
pub open spec fn squared_distances(s: Seq<Double>, center: Double) -> Seq<Double> {
    s.map_values(|e: Double| (e - center) * (e - center))
}

/// How many of the first `n` numbers have a magnitude of at most a bound.
pub open spec fn count_within(s: Seq<Double>, bound: Double, n: int) -> nat
    decreases n,
{
    if n <= 0 {
        0
    } else {
        count_within(s, bound, n - 1) + if s[n - 1].abs().le(bound) {
            1nat
        } else {
            0
        }
    }
}

/// Within the larger bound there are at least as many, and no more than there are.
pub proof fn lemma_count_within(s: Seq<Double>, small: Double, large: Double, n: int)
    requires
        small.le(large),
        0 <= n <= s.len(),
    ensures
        count_within(s, small, n) <= count_within(s, large, n) <= n,
    decreases n,
{
    if n > 0 {
        lemma_count_within(s, small, large, n - 1);
    }
}

/// Those within a bound are those that lie between the negated bound and the bound, on
/// either side of zero.
pub proof fn lemma_counted_within(s: Seq<Double>, bound: Double, n: int)
    requires
        0 <= n <= s.len(),
        zero().le(bound),
    ensures
        count_within(s, bound, n) == s.take(n).filter(|x: Double| bound.neg().le(x) && x.le(bound)).len(),
    decreases n,
{
    broadcast use lemma_build;

    let within = |x: Double| bound.neg().le(x) && x.le(bound);
    reveal(Seq::filter);
    if n > 0 {
        lemma_counted_within(s, bound, n - 1);
        assert(s.take(n).drop_last() =~= s.take(n - 1));
        assert(s.take(n).last() == s[n - 1]);
        assert(within(s[n - 1]) == s[n - 1].abs().le(bound));
    }
}

/// The median of some errors lies between the smallest and the largest, and as many lie
/// within 40 ms as within 10 ms, or more.
pub proof fn lemma_spread(errors: Seq<Double>)
    requires
        errors.len() > 0,
    ensures
        ({
            let s = ordered(errors);
            let n = s.len() as int;
            &&& s[0].total_place() <= s[n / 2].total_place() <= s[n - 1].total_place()
            &&& count_within(s, ratio(10, 1), n) <= count_within(s, ratio(40, 1), n) <= errors.len()
        }),
{
    lemma_ordered(errors);
    lemma_ratio_ordered(10, 1, 40, 1);
    lemma_count_within(ordered(errors), ratio(10, 1), ratio(40, 1), errors.len() as int);
}

fn count_up_to(s: &Vec<Double>, bound: Double) -> (r: usize)
    ensures
        r == count_within(s@, bound, s@.len() as int),
        r <= s@.len(),
{
    let n = s.len();
    let mut count: usize = 0;
    let mut i: usize = 0;
    while i < n
        invariant
            i <= n,
            n == s@.len(),
            count <= i,
            count == count_within(s@, bound, i as int),
        decreases n - i,
    {
        if s[i].abs().at_most(bound) {
            count = count + 1;
        }
        i = i + 1;
    }
    count
}

/// Finds how at least one offset error is spread.
pub fn spread_of(errors: &Vec<Double>) -> (r: Spread)
    requires
        errors@.len() > 0,
    ensures
        ({
            let s = ordered(errors@);
            &&& r.mean == mean(s)
            &&& r.median == s[s.len() as int / 2]
            &&& r.variance == total(squared_distances(s, mean(s))) / ratio(s.len(), 1)
            &&& r.min == s[0]
            &&& r.max == s.last()
            &&& r.within_10 == count_within(s, ratio(10, 1), s.len() as int)
            &&& r.within_40 == count_within(s, ratio(40, 1), s.len() as int)
            &&& r.count == errors@.len()
        }),
{
    let s = sort(errors);
    proof {
        lemma_ordered(errors@);
    }
    let n = s.len();
    let m = average(&s);
    let ghost all = squared_distances(s@, m);
    let mut squares: Vec<Double> = Vec::new();
    let mut i: usize = 0;
    while i < n
        invariant
            i <= n,
            n == s@.len(),
            all == squared_distances(s@, m),
            squares@ == all.take(i as int),
        decreases n - i,
    {
        let d = s[i] - m;
        let x = d * d;
        assert(all.take(i + 1) =~= all.take(i as int).push(x));
        squares.push(x);
        i = i + 1;
    }
    assert(squares@ =~= all);
    Spread {
        mean: m,
        median: s[n / 2],
        variance: sum(&squares) / Double::from_index(n),
        min: s[0],
        max: s[n - 1],
        within_10: count_up_to(&s, Double::from_ratio(10, 1)),
        within_40: count_up_to(&s, Double::from_ratio(40, 1)),
        count: n,
    }
}

/// The lines that sum up the maps of some sets.
pub open spec fn summary(ledger: Ledger, sets: nat) -> Seq<Seq<char>> {
    let head = "== summary: "@ + integer_text(ledger.analyzed as nat) + " analyzed, "@ + integer_text(
        ledger.skips@.len(),
    ) + " skipped, "@ + integer_text(sets) + " total .osz =="@;
    let skips = ledger.skips@.map_values(|s: (String, String)| "  skipped "@ + s.0@ + ": "@ + s.1@);
    let tail = if ledger.analyzed > 0 {
        seq![
            "bpm: "@ + integer_text(ledger.bpm_correct as nat) + "/"@ + integer_text(ledger.analyzed as nat)
                + " within 0.5 BPM of ground truth"@,
        ]
    } else {
        Seq::empty()
    };
    seq![head] + skips + tail
}

/// The summary has a line with the numbers of maps that were analyzed and skipped and of sets,
/// a line for every skipped map in turn, and, where any map was analyzed, a line with the
/// number of those whose tempo was right.
pub proof fn lemma_summary(ledger: Ledger, sets: nat, i: int)
    ensures
        ({
            let lines = summary(ledger, sets);
            let skipped = ledger.skips@.len();
            &&& lines.len() == 1 + skipped + if ledger.analyzed > 0 {
                1int
            } else {
                0
            }
            &&& lines[0] == "== summary: "@ + integer_text(ledger.analyzed as nat) + " analyzed, "@ + integer_text(skipped)
                + " skipped, "@ + integer_text(sets) + " total .osz =="@
            &&& 0 <= i < skipped ==> lines[1 + i] == "  skipped "@ + ledger.skips@[i].0@ + ": "@ + ledger.skips@[i].1@
            &&& ledger.analyzed > 0 ==> lines.last() == "bpm: "@ + integer_text(ledger.bpm_correct as nat) + "/"@
                + integer_text(ledger.analyzed as nat) + " within 0.5 BPM of ground truth"@
        }),
{
}

/// The squared distances are those of each number, whichever side it lies on.
pub proof fn lemma_squared_distances(s: Seq<Double>, center: Double, i: int)
    requires
        0 <= i < s.len(),
    ensures
        squared_distances(s, center).len() == s.len(),
        squared_distances(s, center)[i] == (s[i] - center) * (s[i] - center),
{
}

/// Writes the lines that sum up the maps of some sets.
pub fn summary_lines(ledger: &Ledger, sets: usize) -> (r: Vec<String>)
    ensures
        r@.map_values(|s: String| s@) == summary(*ledger, sets as nat),
{
    let analyzed = write_integer(ledger.analyzed as u64);
    let skipped = write_integer(ledger.skips.len() as u64);
    let all_sets = write_integer(sets as u64);
    let mut head = "== summary: ".to_string();
    head.append(analyzed.as_str());
    head.append(" analyzed, ");
    head.append(skipped.as_str());
    head.append(" skipped, ");
    head.append(all_sets.as_str());
    head.append(" total .osz ==");
    let mut out: Vec<String> = Vec::new();
    let ghost first = head@;
    out.push(head);
    let ghost skips = ledger.skips@.map_values(|s: (String, String)| "  skipped "@ + s.0@ + ": "@ + s.1@);
    assert(out@.map_values(|s: String| s@) =~= seq![first] + skips.take(0));
    let mut i: usize = 0;
    while i < ledger.skips.len()
        invariant
            i <= ledger.skips@.len(),
            skips == ledger.skips@.map_values(|s: (String, String)| "  skipped "@ + s.0@ + ": "@ + s.1@),
            out@.map_values(|s: String| s@) == seq![first] + skips.take(i as int),
        decreases ledger.skips@.len() - i,
    {
        let ghost before = out@;
        let mut line = "  skipped ".to_string();
        line.append(ledger.skips[i].0.as_str());
        line.append(": ");
        line.append(ledger.skips[i].1.as_str());
        let ghost text = line@;
        out.push(line);
        proof {
            assert(skips[i as int] == text);
            assert(skips.take(i + 1) =~= skips.take(i as int).push(text));
            assert(out@.map_values(|s: String| s@) =~= before.map_values(|s: String| s@).push(text));
            assert(out@.map_values(|s: String| s@) =~= seq![first] + skips.take(i + 1));
        }
        i = i + 1;
    }
    assert(skips.take(ledger.skips@.len() as int) =~= skips);
    if ledger.analyzed > 0 {
        let ghost before = out@;
        let correct = write_integer(ledger.bpm_correct as u64);
        let mut line = "bpm: ".to_string();
        line.append(correct.as_str());
        line.append("/");
        line.append(analyzed.as_str());
        line.append(" within 0.5 BPM of ground truth");
        let ghost text = line@;
        out.push(line);
        assert(out@.map_values(|s: String| s@) =~= before.map_values(|s: String| s@).push(text));
    }
    assert(out@.map_values(|s: String| s@) =~= summary(*ledger, sets as nat));
    out
}

/// The lines that tell how offset errors are spread, with their standard deviation.
pub open spec fn spread_text(spread: Spread, deviation: Double) -> Seq<Seq<char>> {
    let count = integer_text(spread.count as nat);
    seq![
        "offset error (ms, signed, BPM-correct maps only): mean "@ + fixed_text(spread.mean, 1, true) + ", median "@
            + fixed_text(spread.median, 1, true) + ", stddev "@ + fixed_text(deviation, 1, false) + ", min "@
            + fixed_text(spread.min, 1, true) + ", max "@ + fixed_text(spread.max, 1, true),
        "offset accuracy: "@ + integer_text(spread.within_10 as nat) + "/"@ + count + " within +-10ms, "@
            + integer_text(spread.within_40 as nat) + "/"@ + count + " within +-40ms"@,
    ]
}

/// Writes the lines that tell how offset errors are spread.
pub fn spread_lines(spread: &Spread, deviation: Double) -> (r: Vec<String>)
    ensures
        r@.map_values(|s: String| s@) == spread_text(*spread, deviation),
{
    let mean_text = write_fixed(spread.mean, 1, true);
    let median_text = write_fixed(spread.median, 1, true);
    let deviation_text = write_fixed(deviation, 1, false);
    let min_text = write_fixed(spread.min, 1, true);
    let max_text = write_fixed(spread.max, 1, true);
    let mut a = "offset error (ms, signed, BPM-correct maps only): mean ".to_string();
    a.append(mean_text.as_str());
    a.append(", median ");
    a.append(median_text.as_str());
    a.append(", stddev ");
    a.append(deviation_text.as_str());
    a.append(", min ");
    a.append(min_text.as_str());
    a.append(", max ");
    a.append(max_text.as_str());
    let ten_text = write_integer(spread.within_10 as u64);
    let forty_text = write_integer(spread.within_40 as u64);
    let count_text = write_integer(spread.count as u64);
    let mut b = "offset accuracy: ".to_string();
    b.append(ten_text.as_str());
    b.append("/");
    b.append(count_text.as_str());
    b.append(" within +-10ms, ");
    b.append(forty_text.as_str());
    b.append("/");
    b.append(count_text.as_str());
    b.append(" within +-40ms");
    let mut out: Vec<String> = Vec::new();
    out.push(a);
    out.push(b);
    assert(out@.map_values(|s: String| s@) =~= spread_text(*spread, deviation));
    out
}

} // verus!
