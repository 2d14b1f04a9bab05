//! What the command-line tool decides: the part of the audio to analyze, the files of a
//! batch, and the form of the results.

use crate::convert::lemma_exact_integer;
use crate::display::{fixed_text, write_fixed};
use crate::double::{decode, lemma_build, one_units, ratio, zero, Double, TOP};
use crate::meter::{Meter, MeterEstimate};
use crate::rounding::{lemma_encode_scale, lemma_encode_zero, lemma_quotient};
use crate::silence::lemma_whole_sums;
use crate::text::{characters, lowercase, lowered, reads};
use crate::TempoResult;
use vstd::arithmetic::div_mod::*;
use vstd::arithmetic::power2::*;
use vstd::prelude::*;
use vstd::slice::slice_subrange;
use vstd::string::*;

verus! {

/// The number of frames in some seconds; none in less than none.
pub open spec fn frames_in(seconds: Double, sample_rate: u32) -> nat {
    (seconds.max(zero()) * ratio(sample_rate as nat, 1)).to_index()
}

/// The smaller of two numbers.
pub open spec fn smaller(a: int, b: int) -> int {
    if a < b {
        a
    } else {
        b
    }
}

/// The first frame of a range that starts some seconds into the audio.
pub open spec fn range_start(len: nat, sample_rate: u32, start: Double) -> int {
    smaller(frames_in(start, sample_rate) as int, len as int)
}

/// The frame behind a range, clamped to the audio.
pub open spec fn range_end(len: nat, sample_rate: u32, start: Double, duration: Double) -> int {
    smaller(range_start(len, sample_rate, start) + frames_in(duration, sample_rate), len as int)
}

/// A range lies within the audio and is no longer than asked for.
pub proof fn lemma_range(len: nat, sample_rate: u32, start: Double, duration: Double)
    ensures
        ({
            let from = range_start(len, sample_rate, start);
            let to = range_end(len, sample_rate, start, duration);
            &&& 0 <= from <= to <= len
            &&& to - from <= frames_in(duration, sample_rate)
            &&& to < len ==> to - from == frames_in(duration, sample_rate)
        }),
{
}

/// Whole seconds have as many frames as there are in so many seconds; there are none in less
/// than none.
pub proof fn lemma_frames_in(seconds: nat, sample_rate: u32)
    requires
        seconds * sample_rate < TOP,
        seconds < TOP,
        seconds * sample_rate <= usize::MAX,
    ensures
        frames_in(ratio(seconds, 1), sample_rate) == seconds * sample_rate,
        frames_in(ratio(seconds, 1).neg(), sample_rate) == 0,
{
    broadcast use lemma_build;

    reveal(Double::times);
    let one = one_units();
    let rate = sample_rate as nat;
    let n = seconds * rate;
    lemma_pow2_pos(1074);
    lemma_exact_integer(seconds);
    lemma_exact_integer(rate);
    lemma_exact_integer(n);
    assert((seconds * one) * (rate * one) == (n * one) * one) by (nonlinear_arith)
        requires
            n == seconds * rate,
    ;
    lemma_encode_scale(TOP as nat, n * one, 1, one);
    assert(1 * one == one);
    lemma_whole_sums(seconds, 0);
    lemma_whole_sums(0, 0);
    lemma_whole_sums(n, 0);
    assert(ratio(seconds, 1) * ratio(rate, 1) == ratio(n, 1));
    let x = ratio(seconds, 1).neg();
    assert(x.max(zero()).is_zero());
    assert(frames_in(x, sample_rate) == 0) by {
        reveal(Double::to_index);
        let z = x.max(zero());
        assert(decode(0) == 0);
        assert(0 * (rate * one) == 0);
        lemma_encode_zero(TOP as nat, one);
        lemma_quotient(0, one, 0, 0);
    }
}

/// The frames of any time are all that are complete: one more would be later.
pub proof fn lemma_complete_frames(seconds: Double, sample_rate: u32)
    requires
        zero().le(seconds),
        (seconds * ratio(sample_rate as nat, 1)).is_finite(),
        (seconds * ratio(sample_rate as nat, 1)).magnitude() < usize::MAX * one_units(),
    ensures
        ({
            let n = frames_in(seconds, sample_rate);
            let exact = (seconds * ratio(sample_rate as nat, 1)).magnitude();
            n * one_units() <= exact < (n + 1) * one_units()
        }),
{
    broadcast use lemma_build;

    reveal(Double::to_index);
    let one = one_units();
    let x = seconds * ratio(sample_rate as nat, 1);
    lemma_pow2_pos(1074);
    lemma_exact_integer(sample_rate as nat);
    let m = x.magnitude();
    let w = m / one;
    lemma_fundamental_div_mod(m as int, one as int);
    lemma_mod_bound(m as int, one as int);
    assert(w < usize::MAX) by (nonlinear_arith)
        requires
            one * w <= m,
            m < usize::MAX * one,
            one > 0,
    ;
    assert((w + 1) * one == one * w + one) by (nonlinear_arith);
    assert(w * one == one * w) by (nonlinear_arith);
    let y = seconds.max(zero());
    assert(y == seconds);
    if x.negative() {
        reveal(Double::times);
        assert(seconds.code() == 0);
        assert(decode(0) == 0);
        assert(0 * ratio(sample_rate as nat, 1).magnitude() == 0);
        lemma_encode_zero(TOP as nat, one);
        assert(m == 0);
    }
}

/// Ranges of whole seconds that follow each other make one range.
pub proof fn lemma_ranges_join(samples: Seq<Double>, sample_rate: u32, start: nat, first: nat, second: nat)
    requires
        (start + first + second) * sample_rate < TOP,
        start + first + second < TOP,
        (start + first + second) * sample_rate <= usize::MAX,
    ensures
        ({
            let n = samples.len();
            let a = samples.subrange(
                range_start(n, sample_rate, ratio(start, 1)),
                range_end(n, sample_rate, ratio(start, 1), ratio(first, 1)),
            );
            let b = samples.subrange(
                range_start(n, sample_rate, ratio(start + first, 1)),
                range_end(n, sample_rate, ratio(start + first, 1), ratio(second, 1)),
            );
            let all = samples.subrange(
                range_start(n, sample_rate, ratio(start, 1)),
                range_end(n, sample_rate, ratio(start, 1), ratio(first + second, 1)),
            );
            all == a + b
        }),
{
    let r = sample_rate as nat;
    assert((start + first + second) * r == start * r + first * r + second * r) by (nonlinear_arith);
    assert((start + first) * r == start * r + first * r) by (nonlinear_arith);
    assert((first + second) * r == first * r + second * r) by (nonlinear_arith);
    assert(start * r >= 0 && first * r >= 0 && second * r >= 0) by (nonlinear_arith);
    lemma_frames_in(start, sample_rate);
    lemma_frames_in(first, sample_rate);
    lemma_frames_in(second, sample_rate);
    lemma_frames_in(start + first, sample_rate);
    lemma_frames_in(first + second, sample_rate);
    let n = samples.len();
    let all = samples.subrange(
        range_start(n, sample_rate, ratio(start, 1)),
        range_end(n, sample_rate, ratio(start, 1), ratio(first + second, 1)),
    );
    let a = samples.subrange(
        range_start(n, sample_rate, ratio(start, 1)),
        range_end(n, sample_rate, ratio(start, 1), ratio(first, 1)),
    );
    let b = samples.subrange(
        range_start(n, sample_rate, ratio(start + first, 1)),
        range_end(n, sample_rate, ratio(start + first, 1), ratio(second, 1)),
    );
    assert(all =~= a + b);
}

fn count_frames(seconds: Double, sample_rate: u32) -> (r: usize)
    ensures
        r == frames_in(seconds, sample_rate),
{
    (seconds.max(Double::from_bits(0)) * Double::from_u64(sample_rate as u64)).truncate()
}

/// The samples from `start` seconds on, for `duration` seconds, clamped to the available
/// audio.
pub fn slice_to_range(samples: &[Double], sample_rate: u32, start: Double, duration: Double) -> (r: &[Double])
    ensures
        r@ == samples@.subrange(
            range_start(samples@.len(), sample_rate, start),
            range_end(samples@.len(), sample_rate, start, duration),
        ),
{
    let len = samples.len();
    let first = count_frames(start, sample_rate);
    let from: usize = if first < len {
        first
    } else {
        len
    };
    let count = count_frames(duration, sample_rate);
    let to: usize = if count < len - from {
        from + count
    } else {
        len
    };
    slice_subrange(samples, from, to)
}

/// Whether files with an extension are analyzed in a batch, whatever the case of its
/// letters.
pub open spec fn supported(extension: Seq<char>) -> bool {
    let e = lowered(extension);
    e == "mp3"@ || e == "wav"@ || e == "flac"@ || e == "ogg"@ || e == "aac"@ || e == "m4a"@
}

pub fn is_supported(extension: &str) -> (r: bool)
    ensures
        r == supported(extension@),
{
    let e = characters(extension);
    let e = lowercase(&e);
    reads(&e, "mp3") || reads(&e, "wav") || reads(&e, "flac") || reads(&e, "ogg") || reads(&e, "aac") || reads(&e, "m4a")
}

/// Whether files with an extension are beatmap sets.
pub fn is_set(extension: &str) -> (r: bool)
    ensures
        r == (lowered(extension@) == "osz"@),
{
    let e = characters(extension);
    let e = lowercase(&e);
    reads(&e, "osz")
}

/// One candidate of one file of a batch.
#[derive(Debug)]
pub struct BatchRow {
    pub file: String,
    /// From 1 on.
    pub rank: usize,
    pub result: TempoResult,
    /// The notation and the confidence of the meter of the file, where it was estimated.
    pub meter: Option<(String, Double)>,
}

/// Whether a row holds the notation and the confidence of an estimate.
pub open spec fn has_meter(row: BatchRow, meter: Option<MeterEstimate>) -> bool {
    match meter {
        Some(m) => row.meter matches Some((notation, confidence)) && notation@ == m.notation@ && confidence
            == m.confidence,
        None => row.meter is None,
    }
}

/// Adds a row for each candidate of a file.
pub fn add_rows(
    rows: &mut Vec<BatchRow>,
    file: &str,
    results: &Vec<TempoResult>,
    meter: &Option<MeterEstimate>,
)
    ensures
        final(rows)@.len() == old(rows)@.len() + results@.len(),
        final(rows)@.take(old(rows)@.len() as int) == old(rows)@,
        forall|i: int|
            0 <= i < results@.len() ==> {
                let row = #[trigger] final(rows)@[old(rows)@.len() + i];
                row.file@ == file@ && row.rank == i + 1 && row.result == results@[i] && has_meter(row, *meter)
            },
{
    let ghost before = rows@;
    let mut i: usize = 0;
    assert(rows@.take(before.len() as int) =~= before);
    while i < results.len()
        invariant
            i <= results@.len(),
            rows@.len() == before.len() + i,
            rows@.take(before.len() as int) == before,
            forall|j: int|
                0 <= j < i ==> {
                    let row = #[trigger] rows@[before.len() + j];
                    row.file@ == file@ && row.rank == j + 1 && row.result == results@[j] && has_meter(row, *meter)
                },
        decreases results@.len() - i,
    {
        let ghost old_rows = rows@;
        let of_file = match meter {
            Some(m) => Some((m.notation.clone(), m.confidence)),
            None => None,
        };
        rows.push(BatchRow { file: file.to_string(), rank: i + 1, result: results[i], meter: of_file });
        assert(rows@.take(before.len() as int) =~= old_rows.take(before.len() as int));
        i = i + 1;
    }
}

/// The line that tells a candidate.
pub open spec fn result_text(t: TempoResult) -> Seq<char> {
    "[RESULT] "@ + fixed_text(t.bpm, 3, false) + " BPM, offset @ "@ + fixed_text(t.offset, 3, false)
        + " sec, fitness "@ + fixed_text(t.fitness, 3, false)
}

/// Writes the line that tells a candidate.
pub fn result_line(t: &TempoResult) -> (r: String)
    ensures
        r@ == result_text(*t),
{
    let mut out = "[RESULT] ".to_string();
    let bpm = write_fixed(t.bpm, 3, false);
    let offset = write_fixed(t.offset, 3, false);
    let fitness = write_fixed(t.fitness, 3, false);
    out.append(bpm.as_str());
    out.append(" BPM, offset @ ");
    out.append(offset.as_str());
    out.append(" sec, fitness ");
    out.append(fitness.as_str());
    out
}

/// The line that tells an estimated meter.
pub open spec fn meter_text(m: Meter) -> Seq<char> {
    "[METER] "@ + m.notation + ", confidence "@ + fixed_text(m.confidence, 2, false) + if m.ambiguous {
        ", ambiguous (experimental)"@
    } else {
        " (experimental)"@
    }
}

/// Writes the line that tells an estimated meter.
pub fn meter_line(m: &MeterEstimate) -> (r: String)
    ensures
        r@ == meter_text(m@),
{
    let mut out = "[METER] ".to_string();
    let confidence = write_fixed(m.confidence, 2, false);
    out.append(m.notation.as_str());
    out.append(", confidence ");
    out.append(confidence.as_str());
    if m.ambiguous {
        out.append(", ambiguous (experimental)");
    } else {
        out.append(" (experimental)");
    }
    out
}

} // verus!
