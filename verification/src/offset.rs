//! Beat-offset detection: where the first beat of a tempo falls.

use crate::double::{infinity, ratio, zero, Double, INFINITE};
use crate::interval::{minute, samples_per_minute};
use crate::TempoResult;
use vstd::prelude::*;

verus! {

/// Half the sliding window of [`compute_slopes`], in samples: 50 ms on each side.
pub fn slope_half_window(sample_rate: u32) -> (r: usize)
    ensures
        r == sample_rate / 20,
{
    (sample_rate / 20) as usize
}

/// The sum of the magnitudes of `n` samples from `from` on.
pub open spec fn amplitude(samples: Seq<Double>, from: int, n: int) -> Double
    decreases n,
{
    if n <= 0 {
        zero()
    } else {
        amplitude(samples, from, n - 1) + samples[from + n - 1].abs()
    }
}

/// The running sum of the magnitudes in the window before a sample.
pub open spec fn sum_before(samples: Seq<Double>, half: int, i: int) -> Double
    decreases i,
{
    if i <= half || half < 0 {
        amplitude(samples, 0, half)
    } else {
        sum_before(samples, half, i - 1) - samples[i - 1 - half].abs() + samples[i - 1].abs()
    }
}

/// The running sum of the magnitudes in the window from a sample on.
pub open spec fn sum_after(samples: Seq<Double>, half: int, i: int) -> Double
    decreases i,
{
    if i <= half || half < 0 {
        amplitude(samples, half, half)
    } else {
        sum_after(samples, half, i - 1) - samples[i - 1].abs() + samples[i - 1 + half].abs()
    }
}

/// The leading-edge energy at a sample: how much louder the window from it on is than the
/// window before it, at least 0, and 0 within half a window of the ends.
pub open spec fn slope(samples: Seq<Double>, half: int, i: int) -> Double {
    if 0 < half <= i < samples.len() - half {
        ((sum_after(samples, half, i) - sum_before(samples, half, i)) * (ratio(1, 1) / ratio(half as nat, 1))).max(
            zero(),
        )
    } else {
        zero()
    }
}

/// The leading-edge energy at each sample.
pub open spec fn slopes_of(samples: Seq<Double>, sample_rate: u32) -> Seq<Double> {
    Seq::new(samples.len(), |i: int| slope(samples, sample_rate as int / 20, i))
}

/// Leading-edge energy is never negative.
pub proof fn lemma_slopes_not_negative(samples: Seq<Double>, sample_rate: u32, i: int)
    requires
        0 <= i < samples.len(),
    ensures
        zero().le(slopes_of(samples, sample_rate)[i]),
{
}

/// Within half a window of the ends there is no leading-edge energy.
pub proof fn lemma_slopes_vanish_at_ends(samples: Seq<Double>, sample_rate: u32, i: int)
    requires
        0 <= i < samples.len(),
        i < sample_rate / 20 || i >= samples.len() - sample_rate / 20,
    ensures
        slopes_of(samples, sample_rate)[i] == zero(),
{
}

/// Finds the leading-edge energy at each sample.
pub fn compute_slopes(samples: &[Double], sample_rate: u32) -> (r: Vec<Double>)
    ensures
        r@ == slopes_of(samples@, sample_rate),
{
    let n = samples.len();
    let half = slope_half_window(sample_rate);
    let ghost h = half as int;
    let mut out: Vec<Double> = Vec::new();
    if half == 0 || n < 2 * half {
        let mut i: usize = 0;
        while i < n
            invariant
                i <= n,
                n == samples@.len(),
                h == sample_rate / 20,
                h == 0 || n < 2 * h,
                out@ == slopes_of(samples@, sample_rate).take(i as int),
            decreases n - i,
        {
            proof {
                let all = slopes_of(samples@, sample_rate);
                assert(all.take(i + 1) =~= all.take(i as int).push(all[i as int]));
            }
            out.push(Double::from_bits(0));
            i = i + 1;
        }
        assert(out@ =~= slopes_of(samples@, sample_rate));
        return out;
    }
    let mut sum_l = Double::from_bits(0);
    let mut sum_r = Double::from_bits(0);
    let mut i: usize = 0;
    while i < half
        invariant
            i <= half,
            h == half,
            2 * half <= n,
            n == samples@.len(),
            h == sample_rate / 20,
            sum_l == amplitude(samples@, 0, i as int),
            sum_r == amplitude(samples@, h, i as int),
            out@ == slopes_of(samples@, sample_rate).take(i as int),
        decreases half - i,
    {
        sum_l = sum_l + samples[i].abs();
        sum_r = sum_r + samples[i + half].abs();
        proof {
            let all = slopes_of(samples@, sample_rate);
            assert(all.take(i + 1) =~= all.take(i as int).push(all[i as int]));
        }
        out.push(Double::from_bits(0));
        i = i + 1;
    }
    let scalar = Double::from_ratio(1, 1) / Double::from_index(half);
    while i < n
        invariant
            half <= i <= n,
            h == half,
            0 < half,
            2 * half <= n,
            n == samples@.len(),
            h == sample_rate / 20,
            scalar == ratio(1, 1) / ratio(half as nat, 1),
            i <= n - half ==> sum_l == sum_before(samples@, h, i as int),
            i <= n - half ==> sum_r == sum_after(samples@, h, i as int),
            out@ == slopes_of(samples@, sample_rate).take(i as int),
        decreases n - i,
    {
        proof {
            let all = slopes_of(samples@, sample_rate);
            assert(all.take(i + 1) =~= all.take(i as int).push(all[i as int]));
        }
        if i < n - half {
            out.push(((sum_r - sum_l) * scalar).max(Double::from_bits(0)));
            let cur = samples[i].abs();
            sum_l = sum_l - samples[i - half].abs();
            sum_l = sum_l + cur;
            sum_r = sum_r - cur;
            sum_r = sum_r + samples[i + half].abs();
        } else {
            out.push(Double::from_bits(0));
        }
        i = i + 1;
    }
    assert(out@ =~= slopes_of(samples@, sample_rate));
    out
}

/// The sum and the number of the slopes at the positions of a beat grid from `pos` on,
/// without those within `edge` of the ends, added to what came before. Nothing where the
/// grid never leaves the audio.
pub open spec fn grid_sum(
    slopes: Seq<Double>,
    edge: int,
    interval: Double,
    pos: Double,
    sum: Double,
    count: nat,
) -> Option<(Double, nat)>
    decreases INFINITE - pos.place(),
{
    if pos.to_index() >= slopes.len() {
        Some((sum, count))
    } else {
        let i = pos.to_index() as int;
        let next = pos + interval;
        let counted = edge <= i && i < slopes.len() - edge;
        if !pos.lt(next) || (counted && count >= usize::MAX) {
            None
        } else if counted {
            grid_sum(slopes, edge, interval, next, sum + slopes[i], count + 1)
        } else {
            grid_sum(slopes, edge, interval, next, sum, count)
        }
    }
}

/// The mean slope at the positions of the beat grid of a phase.
pub open spec fn phase_mean(slopes: Seq<Double>, edge: int, interval: Double, phase: nat) -> Option<Double> {
    match grid_sum(slopes, edge, interval, ratio(phase, 1), zero(), 0) {
        Some((sum, count)) => Some(
            if count > 0 {
                sum / ratio(count, 1)
            } else {
                zero()
            },
        ),
        None => None,
    }
}

/// The highest mean so far and the last phase that reaches it.
pub struct Plateau {
    pub best: Double,
    pub end: nat,
}

/// The tolerance within which means are the same.
pub open spec fn plateau_epsilon() -> Double {
    ratio(1, 1_000_000)
}

impl Plateau {
    /// What the mean of one more phase makes of it.
    pub open spec fn with(self, mean: Double, phase: nat) -> Plateau {
        if (self.best + plateau_epsilon()).lt(mean) {
            Plateau { best: mean, end: phase }
        } else if (self.best - plateau_epsilon()).le(mean) {
            Plateau { end: phase, ..self }
        } else {
            self
        }
    }
}

/// The highest plateau of means over the phases from `phase` on, together with what came
/// before.
pub open spec fn highest_plateau(
    slopes: Seq<Double>,
    edge: int,
    interval: Double,
    step: nat,
    phase: nat,
    plateau: Plateau,
) -> Option<Plateau>
    decreases usize::MAX - phase,
{
    if !ratio(phase, 1).lt(interval) {
        Some(plateau)
    } else {
        match phase_mean(slopes, edge, interval, phase) {
            None => None,
            Some(mean) => if step == 0 || phase + step > usize::MAX {
                None
            } else {
                highest_plateau(slopes, edge, interval, step, phase + step, plateau.with(mean, phase))
            },
        }
    }
}

/// The step between phases: a millisecond, but at least a sample.
pub open spec fn phase_step(sample_rate: u32) -> nat {
    if sample_rate >= 2000 {
        sample_rate as nat / 1000
    } else {
        1
    }
}

/// The phase, in seconds, of the beat grid that the most leading-edge energy supports.
/// Nothing where a beat grid never leaves the audio, or the phases never end.
#[verifier::opaque]
pub open spec fn best_phase(slopes: Seq<Double>, sample_rate: u32, bpm: Double) -> Option<Double> {
    match highest_plateau(
        slopes,
        sample_rate as int / 20,
        samples_per_minute(sample_rate) / bpm,
        phase_step(sample_rate),
        0,
        Plateau { best: infinity(true), end: 0 },
    ) {
        Some(plateau) => Some(ratio(plateau.end, 1) / ratio(sample_rate as nat, 1)),
        None => None,
    }
}

/// The mean slope of a phase. Nothing where its grid never leaves the audio.
fn find_phase_mean(slopes: &[Double], edge: usize, interval: Double, phase: usize) -> (r: Option<Double>)
    ensures
        r == phase_mean(slopes@, edge as int, interval, phase as nat),
{
    let n = slopes.len();
    let mut sum = Double::from_bits(0);
    let mut count: usize = 0;
    let mut pos = Double::from_index(phase);
    let ghost all = grid_sum(slopes@, edge as int, interval, pos, sum, 0);
    while pos.truncate() < n
        invariant
            n == slopes@.len(),
            all == grid_sum(slopes@, edge as int, interval, ratio(phase as nat, 1), zero(), 0),
            all == grid_sum(slopes@, edge as int, interval, pos, sum, count as nat),
        decreases INFINITE - pos.place(),
    {
        let i = pos.truncate();
        let next = pos + interval;
        if !pos.less(next) {
            return None;
        }
        if i >= edge && n - i > edge {
            if count == usize::MAX {
                return None;
            }
            sum = sum + slopes[i];
            count = count + 1;
        }
        pos = next;
    }
    if count > 0 {
        Some(sum / Double::from_index(count))
    } else {
        Some(Double::from_bits(0))
    }
}

/// Finds the phase of the beat grid that the most leading-edge energy supports. Nothing
/// where a beat grid never leaves the audio, or the phases never end.
pub fn try_slopes_best_phase(slopes: &[Double], sample_rate: u32, bpm: Double) -> (r: Option<Double>)
    ensures
        r == best_phase(slopes@, sample_rate, bpm),
{
    reveal(best_phase);
    let interval = minute(sample_rate) / bpm;
    let step: usize = if sample_rate >= 2000 {
        (sample_rate / 1000) as usize
    } else {
        1
    };
    let edge = slope_half_window(sample_rate);
    let epsilon = Double::from_ratio(1, 1_000_000);
    let mut best = Double::assemble(true, INFINITE);
    let mut end: usize = 0;
    let mut phase: usize = 0;
    let ghost all = highest_plateau(
        slopes@,
        edge as int,
        interval,
        step as nat,
        0,
        Plateau { best: infinity(true), end: 0 },
    );
    while Double::from_index(phase).less(interval)
        invariant
            step == phase_step(sample_rate),
            step > 0,
            edge == sample_rate as int / 20,
            interval == samples_per_minute(sample_rate) / bpm,
            epsilon == plateau_epsilon(),
            best_phase(slopes@, sample_rate, bpm) is None == all is None,
            all == highest_plateau(
                slopes@,
                edge as int,
                interval,
                step as nat,
                phase as nat,
                Plateau { best, end: end as nat },
            ),
        decreases usize::MAX - phase,
    {
        let mean = match find_phase_mean(slopes, edge, interval, phase) {
            Some(mean) => mean,
            None => {
                return None;
            },
        };
        if phase > usize::MAX - step {
            return None;
        }
        if (best + epsilon).less(mean) {
            best = mean;
            end = phase;
        } else if (best - epsilon).at_most(mean) {
            end = phase;
        }
        phase = phase + step;
    }
    Some(Double::from_index(end) / Double::from_u64(sample_rate as u64))
}

/// Half a beat after an offset, less a beat where that lies beyond the first beat.
pub open spec fn offbeat_of(offset: Double, bpm: Double) -> Double {
    let beat = ratio(60, 1) / bpm;
    let later = offset + beat * ratio(1, 2);
    if beat.lt(later) {
        later - beat
    } else {
        later
    }
}

/// The sums of the slopes at two beat grids, added to what came before. Nothing where the
/// grids never leave the audio, or leave it at the wrong end.
pub open spec fn grid_sums(
    slopes: Seq<Double>,
    interval: Double,
    a: Double,
    b: Double,
    sum_a: Double,
    sum_b: Double,
) -> Option<(Double, Double)>
    decreases INFINITE - a.place(),
{
    let end = ratio(slopes.len(), 1);
    if !a.lt(end) || !b.lt(end) {
        Some((sum_a, sum_b))
    } else if a.to_index() >= slopes.len() || b.to_index() >= slopes.len() {
        None
    } else {
        let next = a + interval;
        let x = sum_a + slopes[a.to_index() as int];
        let y = sum_b + slopes[b.to_index() as int];
        if next.is_nan() {
            Some((x, y))
        } else if !a.lt(next) {
            None
        } else {
            grid_sums(slopes, interval, next, b + interval, x, y)
        }
    }
}

/// An offset, or its offbeat where more leading-edge energy lies there.
#[verifier::opaque]
pub open spec fn adjusted(slopes: Seq<Double>, sample_rate: u32, offset: Double, bpm: Double) -> Option<Double> {
    let rate = ratio(sample_rate as nat, 1);
    let interval = ratio(60, 1) / bpm * rate;
    let offbeat = offbeat_of(offset, bpm);
    match grid_sums(slopes, interval, offset * rate, offbeat * rate, zero(), zero()) {
        Some((a, b)) => Some(
            if b.le(a) {
                offset
            } else {
                offbeat
            },
        ),
        None => None,
    }
}

/// The adjustment gives the offset or its offbeat.
pub proof fn lemma_adjusted(slopes: Seq<Double>, sample_rate: u32, offset: Double, bpm: Double)
    ensures
        adjusted(slopes, sample_rate, offset, bpm) matches Some(r) ==> r == offset || r == offbeat_of(offset, bpm),
{
    reveal(adjusted);
}

/// Chooses between an offset and its offbeat. Nothing where the grids never leave the
/// audio, or leave it at the wrong end.
pub fn try_adjust_for_offbeats(sample_rate: u32, slopes: &[Double], offset: Double, bpm: Double) -> (r: Option<Double>)
    ensures
        r == adjusted(slopes@, sample_rate, offset, bpm),
{
    reveal(adjusted);
    let rate = Double::from_u64(sample_rate as u64);
    let half = Double::from_ratio(1, 2);
    let seconds_per_beat = Double::from_ratio(60, 1) / bpm;
    let mut offbeat = offset + seconds_per_beat * half;
    if seconds_per_beat.less(offbeat) {
        offbeat = offbeat - seconds_per_beat;
    }
    let n = slopes.len();
    let end = Double::from_index(n);
    let interval = seconds_per_beat * rate;
    let mut a = offset * rate;
    let mut b = offbeat * rate;
    let mut sum_a = Double::from_bits(0);
    let mut sum_b = Double::from_bits(0);
    let ghost all = grid_sums(slopes@, interval, a, b, sum_a, sum_b);
    while a.less(end) && b.less(end)
        invariant_except_break
            all == grid_sums(slopes@, interval, a, b, sum_a, sum_b),
        invariant
            n == slopes@.len(),
            end == ratio(n as nat, 1),
            adjusted(slopes@, sample_rate, offset, bpm) is None == all is None,
            interval == ratio(60, 1) / bpm * ratio(sample_rate as nat, 1),
        ensures
            all == Some((sum_a, sum_b)),
        decreases INFINITE - a.place(),
    {
        let i = a.truncate();
        let j = b.truncate();
        if i >= n || j >= n {
            return None;
        }
        let next = a + interval;
        sum_a = sum_a + slopes[i];
        sum_b = sum_b + slopes[j];
        if next.get_code() > INFINITE {
            break;
        }
        if !a.less(next) {
            return None;
        }
        a = next;
        b = b + interval;
    }
    if sum_b.at_most(sum_a) {
        Some(offset)
    } else {
        Some(offbeat)
    }
}

/// The offset of a tempo.
pub open spec fn offset_for(slopes: Seq<Double>, sample_rate: u32, bpm: Double) -> Option<Double> {
    match best_phase(slopes, sample_rate, bpm) {
        Some(phase) => adjusted(slopes, sample_rate, phase, bpm),
        None => None,
    }
}

/// The first `n` candidates with their offsets.
pub open spec fn offsets(slopes: Seq<Double>, sample_rate: u32, results: Seq<TempoResult>, n: int) -> Option<
    Seq<TempoResult>,
>
    decreases n,
{
    if n <= 0 {
        Some(Seq::empty())
    } else {
        match (offsets(slopes, sample_rate, results, n - 1), offset_for(slopes, sample_rate, results[n - 1].bpm)) {
            (Some(before), Some(offset)) => Some(before.push(TempoResult { offset, ..results[n - 1] })),
            _ => None,
        }
    }
}

/// The candidates with their offsets.
pub open spec fn with_offsets(samples: Seq<Double>, sample_rate: u32, results: Seq<TempoResult>) -> Option<
    Seq<TempoResult>,
> {
    offsets(slopes_of(samples, sample_rate), sample_rate, results, results.len() as int)
}

/// Finds the offset of each candidate. Nothing where a beat grid never leaves the audio.
pub fn try_calculate_offset(samples: &[Double], sample_rate: u32, results: &[TempoResult]) -> (r: Option<
    Vec<TempoResult>,
>)
    ensures
        match r {
            Some(v) => with_offsets(samples@, sample_rate, results@) == Some(v@),
            None => with_offsets(samples@, sample_rate, results@) is None,
        },
{
    let mut out: Vec<TempoResult> = Vec::new();
    if results.len() == 0 {
        assert(out@ =~= Seq::empty());
        return Some(out);
    }
    let slopes = compute_slopes(samples, sample_rate);
    let mut i: usize = 0;
    assert(out@ =~= Seq::empty());
    while i < results.len()
        invariant
            i <= results@.len(),
            slopes@ == slopes_of(samples@, sample_rate),
            offsets(slopes@, sample_rate, results@, i as int) == Some(out@),
        decreases results@.len() - i,
    {
        let t = results[i];
        let offset = match try_slopes_best_phase(&slopes, sample_rate, t.bpm) {
            Some(phase) => try_adjust_for_offbeats(sample_rate, &slopes, phase, t.bpm),
            None => None,
        };
        match offset {
            Some(offset) => {
                out.push(TempoResult { bpm: t.bpm, offset, fitness: t.fitness });
            },
            None => {
                proof {
                    assert(offsets(slopes@, sample_rate, results@, i + 1) is None);
                    lemma_stays_failed(slopes@, sample_rate, results@, i + 1, results@.len() as int);
                }
                return None;
            },
        }
        i = i + 1;
    }
    Some(out)
}

/// A candidate without an offset spoils the whole.
proof fn lemma_stays_failed(slopes: Seq<Double>, sample_rate: u32, results: Seq<TempoResult>, i: int, j: int)
    requires
        i <= j,
        offsets(slopes, sample_rate, results, i) is None,
    ensures
        offsets(slopes, sample_rate, results, j) is None,
    decreases j - i,
{
    if i < j {
        lemma_stays_failed(slopes, sample_rate, results, i, j - 1);
    }
}

/// Fills in the offset of each candidate.
pub fn calculate_offset(samples: &[Double], sample_rate: u32, results: &mut [TempoResult])
    requires
        with_offsets(samples@, sample_rate, old(results)@) is Some,
    ensures
        with_offsets(samples@, sample_rate, old(results)@) == Some(final(results)@),
{
    let found = try_calculate_offset(samples, sample_rate, results).unwrap();
    proof {
        lemma_offsets_keep(slopes_of(samples@, sample_rate), sample_rate, results@, results@.len() as int);
    }
    let mut i: usize = 0;
    while i < found.len()
        invariant
            i <= found@.len(),
            results@.len() == found@.len(),
            forall|j: int| 0 <= j < i ==> results@[j] == found@[j],
        decreases found@.len() - i,
    {
        results[i] = found[i];
        i = i + 1;
    }
    assert(results@ =~= found@);
}

/// Offsets change nothing else of a candidate.
pub proof fn lemma_offsets_keep(slopes: Seq<Double>, sample_rate: u32, results: Seq<TempoResult>, n: int)
    requires
        0 <= n <= results.len(),
    ensures
        offsets(slopes, sample_rate, results, n) matches Some(s) ==> s.len() == n && forall|i: int|
            0 <= i < n ==> (#[trigger] s[i]).bpm == results[i].bpm && s[i].fitness == results[i].fitness,
    decreases n,
{
    if n > 0 {
        lemma_offsets_keep(slopes, sample_rate, results, n - 1);
    }
}

} // verus!
