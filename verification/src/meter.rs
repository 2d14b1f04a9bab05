//! Experimental time signature (meter) estimation.
//!
//! Every beat of the grid that a tempo and an offset make has an accent. A bar repeats
//! the accents, so their autocorrelation at the lag of a bar is high. Only the number of
//! beats per bar is estimated; the denominator of the notation is a convention.

use crate::convert::{lemma_ratio_ordered, lemma_ratio_positive};
use crate::double::{ratio, zero, Double, INFINITE, SIGN};
use crate::interval::{minute, samples_per_minute};
use crate::offset::{compute_slopes, slopes_of};
use crate::order::{average, mean, no_sum, sum, total};
use crate::text::{characters, same_text};
use crate::Onset;
use vstd::prelude::*;
use vstd::std_specs::cmp::PartialEqSpecImpl;
use vstd::string::*;

verus! {

/// The number of groupings that are tried.
pub const GROUPINGS: usize = 5;

/// The least number of complete bars of a grouping.
pub const MIN_BARS: usize = 4;

/// The number of beats in the bars of each grouping.
pub open spec fn grouping(k: int) -> nat {
    if k <= 0 {
        2
    } else if k == 1 {
        3
    } else if k == 2 {
        4
    } else if k == 3 {
        6
    } else {
        12
    }
}

/// The conventional notation of a bar of `beats_per_bar` beats.
pub open spec fn notation(beats_per_bar: nat) -> Seq<char> {
    if beats_per_bar == 2 {
        "2/4"@
    } else if beats_per_bar == 3 {
        "3/4"@
    } else if beats_per_bar == 4 {
        "4/4"@
    } else if beats_per_bar == 6 {
        "6/8"@
    } else if beats_per_bar == 12 {
        "12/8"@
    } else {
        "unknown"@
    }
}

/// Writes the conventional notation of a bar of `beats_per_bar` beats.
pub fn notation_for(beats_per_bar: usize) -> (r: String)
    ensures
        r@ == notation(beats_per_bar as nat),
{
    let text = match beats_per_bar {
        2 => "2/4",
        3 => "3/4",
        4 => "4/4",
        6 => "6/8",
        12 => "12/8",
        _ => "unknown",
    };
    text.to_string()
}

/// The notation where beats may have three parts: two of them make 6/8 and four 12/8.
pub open spec fn felt_notation(beats_per_bar: nat, triplet_feel: bool) -> Seq<char> {
    if triplet_feel && beats_per_bar == 2 {
        "6/8"@
    } else if triplet_feel && beats_per_bar == 4 {
        "12/8"@
    } else {
        notation(beats_per_bar)
    }
}

/// An estimated time signature.
#[derive(Debug, Clone)]
pub struct MeterEstimate {
    /// The beats per bar (2, 3, 4, 6 or 12), or 0 where the accents are too weak.
    pub beats_per_bar: usize,
    /// The conventional notation, or "unknown".
    pub notation: String,
    /// How strongly the accents repeat, between 0 and 1.
    pub confidence: Double,
    /// Whether a grouping of another family scored nearly as well.
    pub ambiguous: bool,
}

/// What a [`MeterEstimate`] holds.
pub struct Meter {
    pub beats_per_bar: nat,
    pub notation: Seq<char>,
    pub confidence: Double,
    pub ambiguous: bool,
}

impl View for MeterEstimate {
    type V = Meter;

    open spec fn view(&self) -> Meter {
        Meter {
            beats_per_bar: self.beats_per_bar as nat,
            notation: self.notation@,
            confidence: self.confidence,
            ambiguous: self.ambiguous,
        }
    }
}

impl PartialEqSpecImpl for MeterEstimate {
    open spec fn obeys_eq_spec() -> bool {
        true
    }

    open spec fn eq_spec(&self, other: &MeterEstimate) -> bool {
        &&& self@.beats_per_bar == other@.beats_per_bar
        &&& self@.notation == other@.notation
        &&& self@.confidence.same(other@.confidence)
        &&& self@.ambiguous == other@.ambiguous
    }
}

impl PartialEq for MeterEstimate {
    fn eq(&self, other: &MeterEstimate) -> (r: bool) {
        let a = characters(self.notation.as_str());
        let b = characters(other.notation.as_str());
        self.beats_per_bar == other.beats_per_bar && same_text(&a, &b) && self.confidence.equals(other.confidence)
            && self.ambiguous == other.ambiguous
    }
}

/// A position moved back by whole intervals to less than one. Nothing where that never
/// ends.
pub open spec fn moved_back(pos: Double, interval: Double) -> Option<Double>
    decreases pos.place() + INFINITE,
{
    if !interval.le(pos) {
        Some(pos)
    } else {
        let next = pos - interval;
        if next.is_nan() {
            Some(next)
        } else if !next.lt(pos) {
            None
        } else {
            moved_back(next, interval)
        }
    }
}

/// A position moved forward by whole intervals until it is not negative. Nothing where
/// that never ends.
pub open spec fn moved_forward(pos: Double, interval: Double) -> Option<Double>
    decreases INFINITE - pos.place(),
{
    if !pos.lt(zero()) {
        Some(pos)
    } else {
        let next = pos + interval;
        if next.is_nan() {
            Some(next)
        } else if !pos.lt(next) {
            None
        } else {
            moved_forward(next, interval)
        }
    }
}

/// The samples at which the beats from `pos` on fall, behind others. Nothing where they
/// never leave the audio.
pub open spec fn beats_from(pos: Double, interval: Double, samples: nat, before: Seq<usize>) -> Option<Seq<usize>>
    decreases INFINITE - pos.place(),
{
    if pos.to_index() >= samples {
        Some(before)
    } else {
        let next = pos + interval;
        if !pos.lt(next) {
            None
        } else {
            beats_from(next, interval, samples, before.push(pos.to_index() as usize))
        }
    }
}

/// The samples at which the beats of a grid fall. Nothing where the grid never leaves the
/// audio.
pub open spec fn beat_grid(first: Double, interval: Double, samples: nat) -> Option<Seq<usize>> {
    match moved_back(first, interval) {
        None => None,
        Some(back) => match moved_forward(back, interval) {
            None => None,
            Some(start) => beats_from(start, interval, samples, Seq::empty()),
        },
    }
}

/// The position of the earliest onset.
pub open spec fn earliest(onsets: Seq<Onset>, n: int) -> usize
    decreases n,
{
    if n <= 1 {
        onsets[0].pos
    } else if onsets[n - 1].pos < earliest(onsets, n - 1) {
        onsets[n - 1].pos
    } else {
        earliest(onsets, n - 1)
    }
}

/// The position of the latest onset.
pub open spec fn latest(onsets: Seq<Onset>, n: int) -> usize
    decreases n,
{
    if n <= 1 {
        onsets[0].pos
    } else if onsets[n - 1].pos > latest(onsets, n - 1) {
        onsets[n - 1].pos
    } else {
        latest(onsets, n - 1)
    }
}

/// The beats from `low` to `high`.
pub open spec fn beats_within(beats: Seq<usize>, low: usize, high: usize) -> Seq<usize>
    decreases beats.len(),
{
    if beats.len() == 0 {
        beats
    } else {
        let before = beats_within(beats.drop_last(), low, high);
        if low <= beats.last() <= high {
            before.push(beats.last())
        } else {
            before
        }
    }
}

/// The beats of the region that onsets cover.
pub open spec fn covered(beats: Seq<usize>, onsets: Seq<Onset>) -> Seq<usize> {
    if onsets.len() == 0 {
        beats
    } else {
        beats_within(beats, earliest(onsets, onsets.len() as int), latest(onsets, onsets.len() as int))
    }
}

/// The least strength of the first `n` onsets.
pub open spec fn weakest(onsets: Seq<Onset>, n: int) -> Double
    decreases n,
{
    if n <= 1 {
        onsets[0].strength
    } else {
        weakest(onsets, n - 1).min(onsets[n - 1].strength)
    }
}

/// The greatest strength of the first `n` onsets.
pub open spec fn strongest(onsets: Seq<Onset>, n: int) -> Double
    decreases n,
{
    if n <= 1 {
        onsets[0].strength
    } else {
        strongest(onsets, n - 1).max(onsets[n - 1].strength)
    }
}

/// Whether the strengths of onsets carry no information.
pub open spec fn uniform(onsets: Seq<Onset>) -> bool {
    onsets.len() == 0 || (strongest(onsets, onsets.len() as int) - weakest(onsets, onsets.len() as int)).lt(
        ratio(5, 100),
    )
}

/// The strengths of the onsets within a distance of a beat, added in turn.
pub open spec fn accent(onsets: Seq<Onset>, beat: usize, distance: Double, n: int) -> Double
    decreases n,
{
    if n <= 0 {
        no_sum()
    } else {
        let o = onsets[n - 1];
        let before = accent(onsets, beat, distance, n - 1);
        if (ratio(o.pos as nat, 1) - ratio(beat as nat, 1)).abs().le(distance) {
            before + o.strength
        } else {
            before
        }
    }
}

/// The accent of each beat: the strengths of the onsets around it or, where those carry
/// no information, the leading-edge energy of the audio.
pub open spec fn accents(
    onsets: Seq<Onset>,
    samples: Seq<Double>,
    sample_rate: u32,
    beats: Seq<usize>,
    interval: Double,
) -> Seq<Double> {
    if uniform(onsets) && samples.len() > 0 {
        let slopes = slopes_of(samples, sample_rate);
        beats.map_values(
            |b: usize|
                if b < slopes.len() {
                    slopes[b as int]
                } else {
                    zero()
                },
        )
    } else {
        let distance = interval * ratio(8, 100);
        beats.map_values(|b: usize| accent(onsets, b, distance, onsets.len() as int))
    }
}

/// Numbers relative to their mean.
pub open spec fn centered(s: Seq<Double>) -> Seq<Double> {
    s.map_values(|x: Double| x - mean(s))
}

/// The energy of some numbers: the sum of their squares.
pub open spec fn energy(s: Seq<Double>) -> Double {
    total(s.map_values(|x: Double| x * x))
}

/// The sum of the first `n` products of numbers that are `lag` apart.
pub open spec fn correlation(s: Seq<Double>, lag: int, n: int) -> Double
    decreases n,
{
    if n <= 0 {
        zero()
    } else {
        correlation(s, lag, n - 1) + s[n - 1] * s[n - 1 + lag]
    }
}

/// The score of a grouping.
#[derive(Debug, Clone, Copy)]
pub struct Score {
    pub grouping: usize,
    pub score: Double,
}

/// The scores of the first `k` groupings that have enough bars.
pub open spec fn scores(s: Seq<Double>, k: int) -> Seq<Score>
    decreases k,
{
    if k <= 0 {
        Seq::empty()
    } else {
        let before = scores(s, k - 1);
        let g = grouping(k - 1);
        if s.len() >= 4 * g {
            before.push(
                Score {
                    grouping: g as usize,
                    score: correlation(s, g as int, s.len() - g) / energy(s),
                },
            )
        } else {
            before
        }
    }
}

/// The highest of the first `n` scores, at least 0.
pub open spec fn top_score(s: Seq<Score>, n: int) -> Double
    decreases n,
{
    if n <= 0 {
        zero()
    } else {
        top_score(s, n - 1).max(s[n - 1].score)
    }
}

/// The first score from `i` on that is not below a bound.
pub open spec fn first_score(s: Seq<Score>, bound: Double, i: int) -> Option<Score>
    decreases s.len() - i,
{
    if i < 0 || i >= s.len() {
        None
    } else if bound.le(s[i].score) {
        Some(s[i])
    } else {
        first_score(s, bound, i + 1)
    }
}

/// The winner: the smallest grouping whose score is within 0.05 of the highest, where
/// that is positive.
pub open spec fn winner(s: Seq<Score>) -> Option<Score> {
    let top = top_score(s, s.len() as int);
    if top.le(zero()) {
        None
    } else {
        first_score(s, top - ratio(5, 100), 0)
    }
}

/// Whether a grouping that is no multiple of the winner's scored nearly as well.
pub open spec fn rivals(won: Score, other: Score) -> bool {
    &&& other.grouping != won.grouping
    &&& other.grouping as int % won.grouping as int != 0
    &&& (ratio(8, 10) * won.score).le(other.score)
}

/// Whether a score has a rival.
pub open spec fn is_ambiguous(s: Seq<Score>, won: Score) -> bool {
    exists|i: int| 0 <= i < s.len() && rivals(won, #[trigger] s[i])
}

/// The estimate that some scores give.
pub open spec fn estimate(s: Seq<Score>, triplet_feel: bool) -> Option<Meter> {
    match winner(s) {
        None => None,
        Some(won) => Some(
            if won.score.lt(ratio(3, 10)) {
                Meter {
                    beats_per_bar: 0,
                    notation: "unknown"@,
                    confidence: won.score.clamp(zero(), ratio(1, 1)),
                    ambiguous: false,
                }
            } else {
                Meter {
                    beats_per_bar: won.grouping as nat,
                    notation: felt_notation(won.grouping as nat, triplet_feel),
                    confidence: won.score.clamp(zero(), ratio(1, 1)),
                    ambiguous: is_ambiguous(s, won),
                }
            },
        ),
    }
}

/// The estimate that the accents of beats give; none where they do not differ.
pub open spec fn accents_meter(accents: Seq<Double>, triplet_feel: bool) -> Option<Meter> {
    let c = centered(accents);
    if energy(c).le(ratio(1, 1_000_000_000)) {
        None
    } else {
        estimate(scores(c, 5), triplet_feel)
    }
}

/// The estimated meter; none where there are too few beats or no accents to group. The
/// outer nothing stands for a beat grid that never leaves the audio.
pub open spec fn meter_of(
    onsets: Seq<Onset>,
    samples: Seq<Double>,
    sample_rate: u32,
    bpm: Double,
    offset: Double,
    triplet_feel: bool,
) -> Option<Option<Meter>> {
    if bpm.le(zero()) {
        Some(None)
    } else {
        let interval = samples_per_minute(sample_rate) / bpm;
        match beat_grid(offset * ratio(sample_rate as nat, 1), interval, samples.len()) {
            None => None,
            Some(all) => {
                let beats = covered(all, onsets);
                if beats.len() < 8 {
                    Some(None)
                } else {
                    Some(accents_meter(accents(onsets, samples, sample_rate, beats, interval), triplet_feel))
                }
            },
        }
    }
}

/// Finds the samples at which the beats of a grid fall.
fn find_beats(first: Double, interval: Double, samples: usize) -> (r: Option<Vec<usize>>)
    ensures
        match r {
            Some(v) => beat_grid(first, interval, samples as nat) == Some(v@),
            None => beat_grid(first, interval, samples as nat) is None,
        },
{
    let mut pos = first;
    let ghost back = moved_back(first, interval);
    while interval.at_most(pos)
        invariant_except_break
            back == moved_back(pos, interval),
        invariant
            back == moved_back(first, interval),
        ensures
            back == Some(pos),
        decreases pos.place() + INFINITE,
    {
        let next = pos - interval;
        if next.get_code() > INFINITE {
            pos = next;
            break;
        }
        if !next.less(pos) {
            return None;
        }
        pos = next;
    }
    let ghost start = moved_forward(pos, interval);
    let ghost settled = pos;
    while pos.less(Double::from_bits(0))
        invariant_except_break
            start == moved_forward(pos, interval),
        invariant
            start == moved_forward(settled, interval),
            moved_back(first, interval) == Some(settled),
        ensures
            start == Some(pos),
        decreases INFINITE - pos.place(),
    {
        let next = pos + interval;
        if next.get_code() > INFINITE {
            pos = next;
            break;
        }
        if !pos.less(next) {
            return None;
        }
        pos = next;
    }
    let mut beats: Vec<usize> = Vec::new();
    let ghost all = beats_from(pos, interval, samples as nat, Seq::empty());
    assert(beats@ =~= Seq::empty());
    while pos.truncate() < samples
        invariant
            all == beats_from(pos, interval, samples as nat, beats@),
            all == beat_grid(first, interval, samples as nat),
        decreases INFINITE - pos.place(),
    {
        let i = pos.truncate();
        let next = pos + interval;
        if !pos.less(next) {
            return None;
        }
        beats.push(i);
        pos = next;
    }
    Some(beats)
}

/// Keeps the beats of the region that onsets cover.
fn cover(beats: Vec<usize>, onsets: &[Onset]) -> (r: Vec<usize>)
    ensures
        r@ == covered(beats@, onsets@),
{
    if onsets.len() == 0 {
        return beats;
    }
    let mut low = onsets[0].pos;
    let mut high = onsets[0].pos;
    let mut i: usize = 1;
    while i < onsets.len()
        invariant
            1 <= i <= onsets@.len(),
            low == earliest(onsets@, i as int),
            high == latest(onsets@, i as int),
        decreases onsets@.len() - i,
    {
        let p = onsets[i].pos;
        if p < low {
            low = p;
        }
        if p > high {
            high = p;
        }
        i = i + 1;
    }
    let mut out: Vec<usize> = Vec::new();
    let mut i: usize = 0;
    assert(out@ =~= beats_within(beats@.take(0), low, high));
    while i < beats.len()
        invariant
            i <= beats@.len(),
            out@ == beats_within(beats@.take(i as int), low, high),
        decreases beats@.len() - i,
    {
        let b = beats[i];
        assert(beats@.take(i + 1).drop_last() =~= beats@.take(i as int));
        if low <= b && b <= high {
            out.push(b);
        }
        i = i + 1;
    }
    assert(beats@.take(beats@.len() as int) =~= beats@);
    out
}

/// Whether the strengths of onsets carry no information.
fn is_uniform(onsets: &[Onset]) -> (r: bool)
    ensures
        r == uniform(onsets@),
{
    if onsets.len() == 0 {
        return true;
    }
    let mut low = onsets[0].strength;
    let mut high = onsets[0].strength;
    let mut i: usize = 1;
    while i < onsets.len()
        invariant
            1 <= i <= onsets@.len(),
            low == weakest(onsets@, i as int),
            high == strongest(onsets@, i as int),
        decreases onsets@.len() - i,
    {
        low = low.min(onsets[i].strength);
        high = high.max(onsets[i].strength);
        i = i + 1;
    }
    (high - low).less(Double::from_ratio(5, 100))
}

/// The strengths of the onsets within a distance of a beat.
fn find_accent(onsets: &[Onset], beat: usize, distance: Double) -> (r: Double)
    ensures
        r == accent(onsets@, beat, distance, onsets@.len() as int),
{
    let center = Double::from_index(beat);
    let mut out = Double::from_bits(SIGN);
    let mut i: usize = 0;
    while i < onsets.len()
        invariant
            i <= onsets@.len(),
            center == ratio(beat as nat, 1),
            out == accent(onsets@, beat, distance, i as int),
        decreases onsets@.len() - i,
    {
        if (Double::from_index(onsets[i].pos) - center).abs().at_most(distance) {
            out = out + onsets[i].strength;
        }
        i = i + 1;
    }
    out
}

/// Finds the accent of each beat.
pub fn beat_accents(
    onsets: &[Onset],
    samples: &[Double],
    sample_rate: u32,
    beats: &[usize],
    interval: Double,
) -> (r: Vec<Double>)
    ensures
        r@ == accents(onsets@, samples@, sample_rate, beats@, interval),
{
    let ghost all = accents(onsets@, samples@, sample_rate, beats@, interval);
    let mut out: Vec<Double> = Vec::new();
    let mut i: usize = 0;
    if is_uniform(onsets) && samples.len() > 0 {
        let slopes = compute_slopes(samples, sample_rate);
        while i < beats.len()
            invariant
                i <= beats@.len(),
                slopes@ == slopes_of(samples@, sample_rate),
                uniform(onsets@) && samples@.len() > 0,
                all == accents(onsets@, samples@, sample_rate, beats@, interval),
                out@ == all.take(i as int),
            decreases beats@.len() - i,
        {
            let b = beats[i];
            let x = if b < slopes.len() {
                slopes[b]
            } else {
                Double::from_bits(0)
            };
            assert(all[i as int] == x);
            assert(all.take(i + 1) =~= all.take(i as int).push(x));
            out.push(x);
            i = i + 1;
        }
    } else {
        let distance = interval * Double::from_ratio(8, 100);
        while i < beats.len()
            invariant
                i <= beats@.len(),
                distance == interval * ratio(8, 100),
                !(uniform(onsets@) && samples@.len() > 0),
                all == accents(onsets@, samples@, sample_rate, beats@, interval),
                out@ == all.take(i as int),
            decreases beats@.len() - i,
        {
            let x = find_accent(onsets, beats[i], distance);
            assert(all[i as int] == x);
            assert(all.take(i + 1) =~= all.take(i as int).push(x));
            out.push(x);
            i = i + 1;
        }
    }
    assert(out@ =~= all);
    out
}

/// Puts numbers relative to their mean.
fn center(s: &[Double]) -> (r: Vec<Double>)
    ensures
        r@ == centered(s@),
{
    let m = average(s);
    let mut out: Vec<Double> = Vec::new();
    let mut i: usize = 0;
    while i < s.len()
        invariant
            i <= s@.len(),
            m == mean(s@),
            out@ == centered(s@).take(i as int),
        decreases s@.len() - i,
    {
        let x = s[i] - m;
        assert(centered(s@)[i as int] == x);
        assert(centered(s@).take(i + 1) =~= centered(s@).take(i as int).push(x));
        out.push(x);
        i = i + 1;
    }
    assert(out@ =~= centered(s@));
    out
}

/// The sum of the squares of some numbers.
fn find_energy(s: &[Double]) -> (r: Double)
    ensures
        r == energy(s@),
{
    let ghost all = s@.map_values(|x: Double| x * x);
    let mut squares: Vec<Double> = Vec::new();
    let mut i: usize = 0;
    while i < s.len()
        invariant
            i <= s@.len(),
            all == s@.map_values(|x: Double| x * x),
            squares@ == all.take(i as int),
        decreases s@.len() - i,
    {
        let x = s[i] * s[i];
        assert(all.take(i + 1) =~= all.take(i as int).push(x));
        squares.push(x);
        i = i + 1;
    }
    assert(squares@ =~= all);
    sum(&squares)
}

/// The sum of the products of numbers that are `lag` apart.
fn find_correlation(s: &[Double], lag: usize) -> (r: Double)
    requires
        lag <= s@.len(),
    ensures
        r == correlation(s@, lag as int, s@.len() - lag),
{
    let n = s.len();
    let mut out = Double::from_bits(0);
    let mut i: usize = 0;
    while i < n - lag
        invariant
            n == s@.len(),
            lag <= n,
            i <= n - lag,
            out == correlation(s@, lag as int, i as int),
        decreases n - lag - i,
    {
        out = out + s[i] * s[i + lag];
        i = i + 1;
    }
    out
}

/// The scores of the groupings that have enough bars.
fn find_scores(s: &[Double]) -> (r: Vec<Score>)
    ensures
        r@ == scores(s@, 5),
{
    let total_energy = find_energy(s);
    let mut out: Vec<Score> = Vec::new();
    let mut k: usize = 0;
    assert(out@ =~= scores(s@, 0));
    while k < GROUPINGS
        invariant
            k <= 5,
            total_energy == energy(s@),
            out@ == scores(s@, k as int),
        decreases 5 - k,
    {
        let g: usize = match k {
            0 => 2,
            1 => 3,
            2 => 4,
            3 => 6,
            _ => 12,
        };
        if s.len() >= MIN_BARS * g {
            out.push(Score { grouping: g, score: find_correlation(s, g) / total_energy });
        }
        k = k + 1;
    }
    out
}

/// The meter that the accents of beats give.
pub fn meter_of_accents(accents: &[Double], triplet_feel: bool) -> (r: Option<MeterEstimate>)
    ensures
        match r {
            Some(m) => accents_meter(accents@, triplet_feel) == Some(m@),
            None => accents_meter(accents@, triplet_feel) is None,
        },
{
    let c = center(accents);
    if find_energy(&c).at_most(Double::from_ratio(1, 1_000_000_000)) {
        return None;
    }
    let s = find_scores(&c);
    proof {
        lemma_scores(c@, 5);
    }
    let mut top = Double::from_bits(0);
    let mut i: usize = 0;
    while i < s.len()
        invariant
            i <= s@.len(),
            top == top_score(s@, i as int),
        decreases s@.len() - i,
    {
        top = top.max(s[i].score);
        i = i + 1;
    }
    if top.at_most(Double::from_bits(0)) {
        return None;
    }
    let bound = top - Double::from_ratio(5, 100);
    let mut i: usize = 0;
    while i < s.len() && !bound.at_most(s[i].score)
        invariant
            i <= s@.len(),
            first_score(s@, bound, 0) == first_score(s@, bound, i as int),
        ensures
            i <= s@.len(),
            i == s@.len() || bound.le(s@[i as int].score),
        decreases s@.len() - i,
    {
        i = i + 1;
    }
    if i == s.len() {
        return None;
    }
    let won = s[i];
    let confidence = won.score.clamp(Double::from_bits(0), Double::from_ratio(1, 1));
    if won.score.less(Double::from_ratio(3, 10)) {
        return Some(
            MeterEstimate { beats_per_bar: 0, notation: "unknown".to_string(), confidence, ambiguous: false },
        );
    }
    let bar = Double::from_ratio(8, 10) * won.score;
    let mut ambiguous = false;
    let mut j: usize = 0;
    while j < s.len()
        invariant
            j <= s@.len(),
            won.grouping > 0,
            bar == ratio(8, 10) * won.score,
            ambiguous == (exists|i: int| 0 <= i < j && rivals(won, #[trigger] s@[i])),
        decreases s@.len() - j,
    {
        let other = s[j];
        if other.grouping != won.grouping && other.grouping % won.grouping != 0 && bar.at_most(other.score) {
            assert(rivals(won, s@[j as int]));
            ambiguous = true;
        } else {
            assert(!rivals(won, s@[j as int]));
        }
        j = j + 1;
    }
    let notation = if triplet_feel && won.grouping == 2 {
        "6/8".to_string()
    } else if triplet_feel && won.grouping == 4 {
        "12/8".to_string()
    } else {
        notation_for(won.grouping)
    };
    Some(MeterEstimate { beats_per_bar: won.grouping, notation, confidence, ambiguous })
}

/// Every score belongs to one of the groupings, and smaller groupings come first.
pub proof fn lemma_scores(s: Seq<Double>, k: int)
    requires
        0 <= k <= 5,
    ensures
        forall|i: int|
            0 <= i < scores(s, k).len() ==> {
                let g = (#[trigger] scores(s, k)[i]).grouping;
                (g == 2 || g == 3 || g == 4 || g == 6 || g == 12) && (k > 0 ==> g <= grouping(k - 1)) && s.len() >= 4 * g
            },
        forall|i: int, j: int|
            0 <= i < j < scores(s, k).len() ==> (#[trigger] scores(s, k)[i]).grouping < (#[trigger] scores(
                s,
                k,
            )[j]).grouping,
    decreases k,
{
    if k > 0 {
        lemma_scores(s, k - 1);
        let before = scores(s, k - 1);
        let after = scores(s, k);
        assert forall|i: int| 0 <= i < after.len() implies {
            let g = (#[trigger] after[i]).grouping;
            (g == 2 || g == 3 || g == 4 || g == 6 || g == 12) && g <= grouping(k - 1) && s.len() >= 4 * g
        } by {
            if i < before.len() {
                assert(after[i] == before[i]);
                assert(k > 1);
            }
        }
        assert forall|i: int, j: int| 0 <= i < j < after.len() implies (#[trigger] after[i]).grouping < (
        #[trigger] after[j]).grouping by {
            assert(after[i] == before[i]);
            if j < before.len() {
                assert(after[j] == before[j]);
            } else {
                assert(before[i].grouping <= grouping(k - 2));
            }
        }
    }
}

pub(crate) proof fn lemma_first_score(s: Seq<Score>, bound: Double, i: int)
    requires
        0 <= i <= s.len(),
    ensures
        first_score(s, bound, i) matches Some(won) ==> exists|j: int|
            i <= j < s.len() && #[trigger] s[j] == won && bound.le(won.score) && forall|k: int|
                i <= k < j ==> !bound.le((#[trigger] s[k]).score),
        first_score(s, bound, i) is None ==> forall|k: int| i <= k < s.len() ==> !bound.le((#[trigger] s[k]).score),
    decreases s.len() - i,
{
    if i < s.len() {
        if bound.le(s[i].score) {
            assert(s[i] == first_score(s, bound, i).unwrap());
        } else {
            lemma_first_score(s, bound, i + 1);
            if let Some(won) = first_score(s, bound, i + 1) {
                let j = choose|j: int|
                    i + 1 <= j < s.len() && #[trigger] s[j] == won && bound.le(won.score) && forall|k: int|
                        i + 1 <= k < j ==> !bound.le((#[trigger] s[k]).score);
                assert(s[j] == won);
            }
        }
    }
}

/// The winner is within 0.05 of the highest score, and no smaller grouping is.
pub proof fn lemma_winner(s: Seq<Score>, won: Score)
    requires
        winner(s) == Some(won),
    ensures
        ({
            let bound = top_score(s, s.len() as int) - ratio(5, 100);
            bound.le(won.score) && exists|j: int|
                0 <= j < s.len() && #[trigger] s[j] == won && forall|k: int|
                    0 <= k < j ==> !bound.le((#[trigger] s[k]).score)
        }),
{
    lemma_first_score(s, top_score(s, s.len() as int) - ratio(5, 100), 0);
}

/// An estimate has a known number of beats per bar, or 0 exactly where it is "unknown";
/// its confidence lies between 0 and 1.
pub proof fn lemma_estimate(c: Seq<Double>, triplet_feel: bool)
    ensures
        estimate(scores(c, 5), triplet_feel) matches Some(m) ==> {
            &&& m.beats_per_bar == 0 || m.beats_per_bar == 2 || m.beats_per_bar == 3 || m.beats_per_bar == 4
                || m.beats_per_bar == 6 || m.beats_per_bar == 12
            &&& m.beats_per_bar == 0 <==> m.notation == "unknown"@
            &&& zero().le(m.confidence) && m.confidence.le(ratio(1, 1))
            &&& m.beats_per_bar == 0 ==> m.confidence.lt(ratio(3, 10)) && !m.ambiguous
        },
{
    let s = scores(c, 5);
    lemma_scores(c, 5);
    if let Some(won) = winner(s) {
        lemma_winner(s, won);
        let j = choose|j: int| 0 <= j < s.len() && #[trigger] s[j] == won;
        reveal_strlit("unknown");
        reveal_strlit("2/4");
        reveal_strlit("3/4");
        reveal_strlit("4/4");
        reveal_strlit("6/8");
        reveal_strlit("12/8");
        lemma_ratio_positive(1, 1);
        lemma_ratio_positive(3, 10);
        assert("unknown"@.len() == 7);
        assert("2/4"@.len() == 3);
        assert("3/4"@.len() == 3);
        assert("4/4"@.len() == 3);
        assert("6/8"@.len() == 3);
        assert("12/8"@.len() == 4);
        lemma_ratio_ordered(3, 10, 1, 1);
    }
}

/// Estimates the time signature of the beat grid of a tempo and an offset. None where there
/// are too few beats or no accents to group; the outer nothing stands for a beat grid that
/// never leaves the audio. `triplet_feel` tells whether beats have three parts.
pub fn try_estimate_meter(
    onsets: &[Onset],
    samples: &[Double],
    sample_rate: u32,
    bpm: Double,
    offset: Double,
    triplet_feel: bool,
) -> (r: Option<Option<MeterEstimate>>)
    ensures
        ({
            let expected = meter_of(onsets@, samples@, sample_rate, bpm, offset, triplet_feel);
            match r {
                None => expected is None,
                Some(None) => expected == Some(None::<Meter>),
                Some(Some(m)) => expected == Some(Some(m@)),
            }
        }),
{
    if bpm.at_most(Double::from_bits(0)) {
        return Some(None);
    }
    let interval = minute(sample_rate) / bpm;
    let first = offset * Double::from_u64(sample_rate as u64);
    let beats = match find_beats(first, interval, samples.len()) {
        Some(beats) => beats,
        None => {
            return None;
        },
    };
    let beats = cover(beats, onsets);
    if beats.len() < MIN_BARS * 2 {
        return Some(None);
    }
    let accents = beat_accents(onsets, samples, sample_rate, &beats, interval);
    Some(meter_of_accents(&accents, triplet_feel))
}

/// Estimates the time signature of the beat grid of a tempo and an offset.
pub fn estimate_meter(
    onsets: &[Onset],
    samples: &[Double],
    sample_rate: u32,
    bpm: Double,
    offset: Double,
    triplet_feel: bool,
) -> (r: Option<MeterEstimate>)
    requires
        meter_of(onsets@, samples@, sample_rate, bpm, offset, triplet_feel) is Some,
    ensures
        match r {
            None => meter_of(onsets@, samples@, sample_rate, bpm, offset, triplet_feel) == Some(None::<Meter>),
            Some(m) => meter_of(onsets@, samples@, sample_rate, bpm, offset, triplet_feel) == Some(Some(m@)),
        },
{
    try_estimate_meter(onsets, samples, sample_rate, bpm, offset, triplet_feel).unwrap()
}

} // verus!
