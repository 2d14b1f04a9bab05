//! Onset detection in the complex domain.
//!
//! Each frame of the audio is a spectrum of magnitudes and phases. The spectrum that the
//! two frames before a frame predict differs from that of the frame; the sum of the
//! differences is the onset detection function. Its peaks are the onsets. The spectra
//! and the differences come from outside.

use crate::double::{ratio, zero, Double};
use crate::order::{average, lemma_ordered, mean, ordered, sort};
use crate::Onset;
use vstd::prelude::*;

verus! {

/// The length of a frame.
pub const WINDOW_SIZE: usize = 1024;

/// The distance between frames.
pub const HOP_SIZE: usize = 256;

/// The number of frames on each side whose median makes the threshold of a peak.
pub const MEDIAN_RADIUS: usize = 3;

/// The number of bins of a spectrum.
pub const NUM_BINS: usize = 513;

/// The number of frames of some audio.
pub open spec fn frames(samples: nat) -> nat {
    if samples < WINDOW_SIZE {
        0
    } else {
        ((samples - WINDOW_SIZE) / HOP_SIZE as int + 1) as nat
    }
}

/// Counts the frames of some audio.
pub fn frame_count(samples: usize) -> (r: usize)
    ensures
        r == frames(samples as nat),
{
    if samples < WINDOW_SIZE {
        0
    } else {
        (samples - WINDOW_SIZE) / HOP_SIZE + 1
    }
}

/// A frame of the audio under a window.
pub fn windowed_frame(samples: &[Double], window: &[Double], index: usize) -> (r: Vec<Double>)
    requires
        index < frames(samples@.len()),
        window@.len() == WINDOW_SIZE,
    ensures
        r@ == Seq::new(WINDOW_SIZE as nat, |i: int| samples@[index * HOP_SIZE + i] * window@[i]),
{
    let n = samples.len();
    assert(index * HOP_SIZE + WINDOW_SIZE <= n);
    let start = index * HOP_SIZE;
    let ghost all = Seq::new(WINDOW_SIZE as nat, |i: int| samples@[index * HOP_SIZE + i] * window@[i]);
    let mut out: Vec<Double> = Vec::new();
    let mut i: usize = 0;
    while i < WINDOW_SIZE
        invariant
            i <= WINDOW_SIZE,
            start == index * HOP_SIZE,
            start + WINDOW_SIZE <= n,
            n == samples@.len(),
            window@.len() == WINDOW_SIZE,
            all == Seq::new(WINDOW_SIZE as nat, |i: int| samples@[index * HOP_SIZE + i] * window@[i]),
            out@ == all.take(i as int),
        decreases WINDOW_SIZE - i,
    {
        assert(all.take(i + 1) =~= all.take(i as int).push(all[i as int]));
        out.push(samples[start + i] * window[i]);
        i = i + 1;
    }
    assert(out@ =~= all);
    out
}

/// The spectrum of a frame.
#[derive(Debug)]
pub struct Spectrum {
    pub magnitudes: Vec<Double>,
    pub phases: Vec<Double>,
}

impl Spectrum {
    /// Whether there is a magnitude and a phase for each bin.
    pub open spec fn well_formed(self) -> bool {
        self.magnitudes@.len() == NUM_BINS && self.phases@.len() == NUM_BINS
    }
}

/// The onset detection function so far, and what it takes from the frames before.
pub struct Detection {
    /// One value for each frame.
    values: Vec<Double>,
    /// The magnitudes of the last frame.
    magnitudes: Vec<Double>,
    /// The phases of the last frame.
    phases: Vec<Double>,
    /// The phases of the frame before the last.
    earlier_phases: Vec<Double>,
}

fn zeros(n: usize) -> (r: Vec<Double>)
    ensures
        r@ == Seq::new(n as nat, |i: int| zero()),
{
    let mut out: Vec<Double> = Vec::new();
    let mut i: usize = 0;
    while i < n
        invariant
            i <= n,
            out@.len() == i,
            forall|j: int| 0 <= j < i ==> out@[j] == zero(),
        decreases n - i,
    {
        out.push(Double::from_bits(0));
        i = i + 1;
    }
    assert(out@ =~= Seq::new(n as nat, |i: int| zero()));
    out
}

/// The sum of some differences, from zero on.
pub open spec fn difference(errors: Seq<Double>) -> Double
    decreases errors.len(),
{
    if errors.len() == 0 {
        zero()
    } else {
        difference(errors.drop_last()) + errors.last()
    }
}

/// The phase that two earlier phases predict.
pub open spec fn predicted_phase(last: Double, earlier: Double) -> Double {
    ratio(2, 1) * last - earlier
}

impl Detection {
    pub closed spec fn well_formed(self) -> bool {
        &&& self.magnitudes@.len() == NUM_BINS
        &&& self.phases@.len() == NUM_BINS
        &&& self.earlier_phases@.len() == NUM_BINS
    }

    /// The onset detection function so far.
    pub closed spec fn odf(self) -> Seq<Double> {
        self.values@
    }

    /// The magnitudes of the last frame; zeros before the first.
    pub closed spec fn last_magnitudes(self) -> Seq<Double> {
        self.magnitudes@
    }

    /// The phases of the last frame; zeros before the first.
    pub closed spec fn last_phases(self) -> Seq<Double> {
        self.phases@
    }

    /// The phases of the frame before the last; zeros before the second.
    pub closed spec fn second_last_phases(self) -> Seq<Double> {
        self.earlier_phases@
    }

    /// The state before the first frame.
    pub fn new() -> (r: Detection)
        ensures
            r.well_formed(),
            r.odf().len() == 0,
            r.last_magnitudes() == Seq::new(NUM_BINS as nat, |i: int| zero()),
            r.last_phases() == Seq::new(NUM_BINS as nat, |i: int| zero()),
            r.second_last_phases() == Seq::new(NUM_BINS as nat, |i: int| zero()),
    {
        Detection {
            values: Vec::new(),
            magnitudes: zeros(NUM_BINS),
            phases: zeros(NUM_BINS),
            earlier_phases: zeros(NUM_BINS),
        }
    }

    /// Whether two frames came before, so that the next can be predicted.
    pub fn is_ready(&self) -> (r: bool)
        ensures
            r == (self.odf().len() >= 2),
    {
        self.values.len() >= 2
    }

    /// The spectrum that the frames before predict.
    pub fn prediction(&self) -> (r: Spectrum)
        requires
            self.well_formed(),
        ensures
            r.well_formed(),
            r.magnitudes@ == self.last_magnitudes(),
            r.phases@ == Seq::new(
                NUM_BINS as nat,
                |k: int| predicted_phase(self.last_phases()[k], self.second_last_phases()[k]),
            ),
    {
        let two = Double::from_ratio(2, 1);
        let mut magnitudes: Vec<Double> = Vec::new();
        let mut phases: Vec<Double> = Vec::new();
        let mut k: usize = 0;
        while k < NUM_BINS
            invariant
                k <= NUM_BINS,
                self.well_formed(),
                two == ratio(2, 1),
                magnitudes@ == self.magnitudes@.take(k as int),
                phases@.len() == k,
                forall|j: int|
                    0 <= j < k ==> phases@[j] == predicted_phase(self.phases@[j], self.earlier_phases@[j]),
            decreases NUM_BINS - k,
        {
            assert(self.magnitudes@.take(k + 1) =~= self.magnitudes@.take(k as int).push(self.magnitudes@[k as int]));
            magnitudes.push(self.magnitudes[k]);
            phases.push(two * self.phases[k] - self.earlier_phases[k]);
            k = k + 1;
        }
        assert(magnitudes@ =~= self.magnitudes@);
        let r = Spectrum { magnitudes, phases };
        assert(r.phases@ =~= Seq::new(
            NUM_BINS as nat,
            |k: int| predicted_phase(self.last_phases()[k], self.second_last_phases()[k]),
        ));
        r
    }

    /// Takes in a frame. `errors` are the differences between its spectrum and the
    /// predicted one, bin by bin; those of the first two frames do not count.
    pub fn advance(&mut self, spectrum: Spectrum, errors: &[Double])
        requires
            old(self).well_formed(),
            spectrum.well_formed(),
        ensures
            final(self).well_formed(),
            final(self).last_magnitudes() == spectrum.magnitudes@,
            final(self).last_phases() == spectrum.phases@,
            final(self).second_last_phases() == old(self).last_phases(),
            final(self).odf() == old(self).odf().push(
                if old(self).odf().len() >= 2 {
                    difference(errors@)
                } else {
                    zero()
                },
            ),
    {
        let mut value = Double::from_bits(0);
        if self.values.len() >= 2 {
            let mut k: usize = 0;
            while k < errors.len()
                invariant
                    k <= errors@.len(),
                    value == difference(errors@.take(k as int)),
                decreases errors@.len() - k,
            {
                assert(errors@.take(k + 1).drop_last() =~= errors@.take(k as int));
                value = value + errors[k];
                k = k + 1;
            }
            assert(errors@.take(errors@.len() as int) =~= errors@);
        }
        self.values.push(value);
        let mut phases = spectrum.phases;
        core::mem::swap(&mut self.phases, &mut phases);
        self.earlier_phases = phases;
        self.magnitudes = spectrum.magnitudes;
    }

    /// The onset detection function.
    pub fn into_odf(self) -> (r: Vec<Double>)
        ensures
            r@ == self.odf(),
    {
        self.values
    }
}

/// The middle of some numbers: the middle one in order, or the mean of the two.
pub open spec fn median_of(s: Seq<Double>) -> Double {
    let o = ordered(s);
    let mid = s.len() as int / 2;
    if s.len() % 2 == 0 {
        (o[mid - 1] + o[mid]) / ratio(2, 1)
    } else {
        o[mid]
    }
}

/// Finds the median of at least one number.
pub fn median(values: &[Double]) -> (r: Double)
    requires
        values@.len() > 0,
    ensures
        r == median_of(values@),
{
    let sorted = sort(values);
    proof {
        lemma_ordered(values@);
    }
    let mid = sorted.len() / 2;
    if sorted.len() % 2 == 0 {
        (sorted[mid - 1] + sorted[mid]) / Double::from_ratio(2, 1)
    } else {
        sorted[mid]
    }
}

/// The place of the top of the parabola through three values around a peak, in frames from
/// the middle one.
pub open spec fn parabola_top(before: Double, peak: Double, after: Double) -> Double {
    let denom = before - ratio(2, 1) * peak + after;
    if denom.abs().lt(ratio(1, 1_000_000_000_000)) {
        zero()
    } else {
        ratio(1, 2) * (before - after) / denom
    }
}

/// Finds the top of the parabola through three values around a peak.
pub fn parabolic_offset(y_prev: Double, y_curr: Double, y_next: Double) -> (r: Double)
    ensures
        r == parabola_top(y_prev, y_curr, y_next),
{
    let denom = y_prev - Double::from_ratio(2, 1) * y_curr + y_next;
    if denom.abs().less(Double::from_ratio(1, 1_000_000_000_000)) {
        Double::from_bits(0)
    } else {
        Double::from_ratio(1, 2) * (y_prev - y_next) / denom
    }
}

/// The least distance between onsets, in frames: 20 ms, but at least one frame.
pub open spec fn min_gap(sample_rate: u32) -> nat {
    (ratio(sample_rate as nat, 1) * ratio(2, 100) / ratio(256, 1)).round().max(ratio(1, 1)).to_index()
}

/// The first frame within `radius` of a frame.
pub open spec fn near_begin(n: int, radius: int) -> int {
    if n >= radius {
        n - radius
    } else {
        0
    }
}

/// The frame behind those within `radius` of a frame.
pub open spec fn near_end(n: int, radius: int, len: int) -> int {
    if n + radius + 1 < len {
        n + radius + 1
    } else {
        len
    }
}

/// The frames around a frame, without it.
pub open spec fn surroundings(odf: Seq<Double>, n: int) -> Seq<Double> {
    odf.subrange(near_begin(n, 3), n) + odf.subrange(n + 1, near_end(n, 3, odf.len() as int))
}

/// What a peak has to exceed.
pub open spec fn threshold(odf: Seq<Double>, n: int) -> Double {
    median_of(surroundings(odf, n)) * ratio(15, 10) + ratio(1, 1_000_000)
}

/// Whether no frame within `radius` of a frame exceeds it.
pub open spec fn is_local_max(odf: Seq<Double>, n: int, radius: int) -> bool {
    forall|i: int|
        near_begin(n, radius) <= i < near_end(n, radius, odf.len() as int) ==> (#[trigger] odf[i]).le(odf[n])
}

/// Whether a frame is a peak, where the last one was at `last`.
pub open spec fn is_peak(odf: Seq<Double>, n: int, gap: nat, last: Option<nat>) -> bool {
    &&& is_local_max(odf, n, gap as int)
    &&& threshold(odf, n).lt(odf[n])
    &&& match last {
        Some(l) => n - l >= gap,
        None => true,
    }
}

/// The onset of a peak.
pub open spec fn onset_at(odf: Seq<Double>, n: int) -> Onset {
    let frame = ratio(n as nat, 1) + parabola_top(odf[n - 1], odf[n], odf[n + 1]);
    Onset {
        pos: (frame * ratio(256, 1) + ratio(600, 1)).max(zero()).to_index() as usize,
        strength: odf[n],
    }
}

/// The frames before `n` that are peaks.
pub open spec fn peaks(odf: Seq<Double>, gap: nat, n: int) -> Seq<nat>
    decreases n,
{
    if n <= 1 {
        Seq::empty()
    } else {
        let before = peaks(odf, gap, n - 1);
        let last = if before.len() > 0 {
            Some(before.last())
        } else {
            None
        };
        if is_peak(odf, n - 1, gap, last) {
            before.push((n - 1) as nat)
        } else {
            before
        }
    }
}

/// The onsets at the peaks of an onset detection function.
pub open spec fn peak_onsets(odf: Seq<Double>, sample_rate: u32) -> Seq<Onset> {
    if odf.len() < 9 {
        Seq::empty()
    } else {
        peaks(odf, min_gap(sample_rate), odf.len() - 1).map_values(|n: nat| onset_at(odf, n as int))
    }
}

/// Every peak stands out above its surroundings, is the highest nearby, and keeps its
/// distance from the next.
pub proof fn lemma_peaks(odf: Seq<Double>, gap: nat, n: int, k: int)
    requires
        0 <= k < peaks(odf, gap, n).len(),
    ensures
        0 < peaks(odf, gap, n)[k] < n,
        is_local_max(odf, peaks(odf, gap, n)[k] as int, gap as int),
        threshold(odf, peaks(odf, gap, n)[k] as int).lt(odf[peaks(odf, gap, n)[k] as int]),
        k > 0 ==> peaks(odf, gap, n)[k] - peaks(odf, gap, n)[k - 1] >= gap,
    decreases n,
{
    if n > 1 {
        let before = peaks(odf, gap, n - 1);
        if k < before.len() {
            lemma_peaks(odf, gap, n - 1, k);
        }
    }
}

/// Whether no frame from `from` up to `to` exceeds a value.
fn all_at_most(odf: &[Double], from: usize, to: usize, top: Double) -> (r: bool)
    requires
        from <= to <= odf@.len(),
    ensures
        r == (forall|i: int| from <= i < to ==> (#[trigger] odf@[i]).le(top)),
{
    let mut i = from;
    while i < to
        invariant
            from <= i <= to <= odf@.len(),
            forall|j: int| from <= j < i ==> (#[trigger] odf@[j]).le(top),
        decreases to - i,
    {
        if !odf[i].at_most(top) {
            return false;
        }
        i = i + 1;
    }
    true
}

/// Finds what a peak has to exceed.
fn find_threshold(odf: &[Double], n: usize) -> (r: Double)
    requires
        0 < n < odf@.len() - 1,
    ensures
        r == threshold(odf@, n as int),
{
    let len = odf.len();
    let from: usize = if n >= MEDIAN_RADIUS {
        n - MEDIAN_RADIUS
    } else {
        0
    };
    let to: usize = if len - n > MEDIAN_RADIUS + 1 {
        n + MEDIAN_RADIUS + 1
    } else {
        len
    };
    let mut context: Vec<Double> = Vec::new();
    let ghost left = odf@.subrange(from as int, n as int);
    let ghost right = odf@.subrange(n + 1, to as int);
    let mut i = from;
    while i < n
        invariant
            from <= i <= n < odf@.len(),
            context@ == odf@.subrange(from as int, i as int),
        decreases n - i,
    {
        assert(odf@.subrange(from as int, i + 1) =~= odf@.subrange(from as int, i as int).push(odf@[i as int]));
        context.push(odf[i]);
        i = i + 1;
    }
    i = n + 1;
    assert(context@ =~= left + odf@.subrange(n + 1, n + 1));
    while i < to
        invariant
            n < i <= to <= odf@.len(),
            context@ == left + odf@.subrange(n + 1, i as int),
        decreases to - i,
    {
        assert(odf@.subrange(n + 1, i + 1) =~= odf@.subrange(n + 1, i as int).push(odf@[i as int]));
        assert(left + odf@.subrange(n + 1, i + 1) =~= context@.push(odf@[i as int]));
        context.push(odf[i]);
        i = i + 1;
    }
    median(&context) * Double::from_ratio(15, 10) + Double::from_ratio(1, 1_000_000)
}

/// Picks the peaks of an onset detection function.
pub fn pick_peaks(odf: &[Double], sample_rate: u32) -> (r: Vec<Onset>)
    ensures
        r@ == peak_onsets(odf@, sample_rate),
{
    let mut onsets: Vec<Onset> = Vec::new();
    let len = odf.len();
    if len < 9 {
        assert(onsets@ =~= peak_onsets(odf@, sample_rate));
        return onsets;
    }
    let rate = Double::from_u64(sample_rate as u64);
    let gap = (rate * Double::from_ratio(2, 100) / Double::from_ratio(256, 1)).round().max(
        Double::from_ratio(1, 1),
    ).truncate();
    let hop = Double::from_ratio(256, 1);
    let delay = Double::from_ratio(600, 1);
    let mut last: Option<usize> = None;
    let mut n: usize = 1;
    let ghost f = |n: nat| onset_at(odf@, n as int);
    assert(onsets@ =~= peaks(odf@, gap as nat, 1).map_values(f));
    while n < len - 1
        invariant
            1 <= n <= len - 1,
            len == odf@.len(),
            gap == min_gap(sample_rate),
            hop == ratio(256, 1),
            delay == ratio(600, 1),
            f == (|n: nat| onset_at(odf@, n as int)),
            onsets@ == peaks(odf@, gap as nat, n as int).map_values(f),
            match last {
                Some(l) => l < n && peaks(odf@, gap as nat, n as int).len() > 0 && peaks(
                    odf@,
                    gap as nat,
                    n as int,
                ).last() == l,
                None => peaks(odf@, gap as nat, n as int).len() == 0,
            },
        decreases len - 1 - n,
    {
        let ghost before = peaks(odf@, gap as nat, n as int);
        let from: usize = if n >= gap {
            n - gap
        } else {
            0
        };
        let to: usize = if len - n - 1 > gap {
            n + gap + 1
        } else {
            len
        };
        let apart = match last {
            Some(l) => n - l >= gap,
            None => true,
        };
        if apart && all_at_most(odf, from, to, odf[n]) && find_threshold(odf, n).less(odf[n]) {
            assert(is_peak(
                odf@,
                n as int,
                gap as nat,
                if before.len() > 0 {
                    Some(before.last())
                } else {
                    None
                },
            ));
            let frac = parabolic_offset(odf[n - 1], odf[n], odf[n + 1]);
            let pos = ((Double::from_index(n) + frac) * hop + delay).max(Double::from_bits(0)).truncate();
            let onset = Onset { pos, strength: odf[n] };
            proof {
                assert(onset == onset_at(odf@, n as int));
                assert(before.push(n as nat).map_values(f) =~= before.map_values(f).push(f(n as nat)));
            }
            onsets.push(onset);
            last = Some(n);
        } else {
            assert(!is_peak(
                odf@,
                n as int,
                gap as nat,
                if before.len() > 0 {
                    Some(before.last())
                } else {
                    None
                },
            ));
        }
        n = n + 1;
    }
    onsets
}

/// The strengths of some onsets.
pub open spec fn strengths(onsets: Seq<Onset>) -> Seq<Double> {
    onsets.map_values(|o: Onset| o.strength)
}

/// Onsets with their strengths relative to the mean, where that is positive.
pub open spec fn normalized(onsets: Seq<Onset>) -> Seq<Onset> {
    let m = mean(strengths(onsets));
    if onsets.len() > 0 && zero().lt(m) {
        onsets.map_values(|o: Onset| Onset { strength: o.strength / m, ..o })
    } else {
        onsets
    }
}

/// Puts the strengths of onsets relative to their mean.
pub fn normalize(onsets: Vec<Onset>) -> (r: Vec<Onset>)
    ensures
        r@ == normalized(onsets@),
{
    let n = onsets.len();
    if n == 0 {
        return onsets;
    }
    let mut values: Vec<Double> = Vec::new();
    let mut i: usize = 0;
    while i < n
        invariant
            i <= n,
            n == onsets@.len(),
            values@ == strengths(onsets@).take(i as int),
        decreases n - i,
    {
        proof {
            let all = strengths(onsets@);
            assert(all.take(i + 1) =~= all.take(i as int).push(all[i as int]));
        }
        values.push(onsets[i].strength);
        i = i + 1;
    }
    assert(values@ =~= strengths(onsets@));
    let m = average(&values);
    if !Double::from_bits(0).less(m) {
        return onsets;
    }
    let ghost all = normalized(onsets@);
    let mut out: Vec<Onset> = Vec::new();
    let mut i: usize = 0;
    while i < n
        invariant
            i <= n,
            n == onsets@.len(),
            m == mean(strengths(onsets@)),
            zero().lt(m),
            all == normalized(onsets@),
            out@ == all.take(i as int),
        decreases n - i,
    {
        let o = onsets[i];
        let next = Onset { pos: o.pos, strength: o.strength / m };
        proof {
            assert(all[i as int] == next);
            assert(all.take(i + 1) =~= all.take(i as int).push(next));
        }
        out.push(next);
        i = i + 1;
    }
    assert(out@ =~= all);
    out
}

/// Finds the onsets in an onset detection function.
pub fn find_onsets(odf: &[Double], sample_rate: u32) -> (r: Vec<Onset>)
    ensures
        r@ == normalized(peak_onsets(odf@, sample_rate)),
{
    normalize(pick_peaks(odf, sample_rate))
}

} // verus!
