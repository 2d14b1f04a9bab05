//! The scan for beat intervals: coarse over the whole range of tempos, then fine
//! around the intervals that stand out.

use crate::convert::lemma_ratio_positive;
use crate::double::{ratio, zero, Double};
use crate::gapdata::{interval_confidence, window_length, GapData};
use crate::polyfit::{cubic_fit, polynomial, polyval, try_polyfit_cubic};
use crate::window::hamming;
use crate::Onset;
use vstd::arithmetic::power2::*;
use vstd::prelude::*;

verus! {

/// The step of the coarse scan, in samples.
pub const INTERVAL_DELTA: usize = 10;

/// The resolution of the scan.
pub const INTERVAL_DOWNSAMPLE: u32 = 3;

/// A tempo found by the scan.
#[derive(Debug, Clone, Copy)]
pub struct IntervalCandidate {
    pub bpm: Double,
    pub fitness: Double,
}

/// The number of samples per minute.
pub open spec fn samples_per_minute(sample_rate: u32) -> Double {
    ratio(sample_rate as nat, 1) * ratio(60, 1)
}

/// The number of samples per beat of a tempo, to the nearest whole one.
pub open spec fn interval_for(sample_rate: u32, bpm: Double) -> nat {
    (samples_per_minute(sample_rate) / bpm + ratio(1, 2)).to_index()
}

/// The tempo of an interval.
pub open spec fn bpm_of(sample_rate: u32, min_interval: nat, index: nat) -> Double {
    samples_per_minute(sample_rate) / ratio(index + min_interval, 1)
}

/// The number of intervals that the coarse scan visits.
pub open spec fn coarse_count(intervals: nat) -> nat {
    (intervals + 9) / 10
}

/// What a scan works on: the onsets, the window, the shortest interval and the number of
/// intervals.
pub struct Task {
    pub onsets: Seq<Onset>,
    pub window: Seq<Double>,
    pub min_interval: nat,
    pub intervals: nat,
}

impl Task {
    /// The confidence of the interval at an index.
    pub open spec fn confidence(self, i: int) -> Double {
        interval_confidence(self.onsets, self.window, self.min_interval + i as nat, 3)
    }

    /// The interval at an index, as a number.
    pub open spec fn interval(self, i: int) -> Double {
        ratio(self.min_interval + i as nat, 1)
    }

    /// The confidence at a step of the coarse scan, at least 0.001.
    pub open spec fn coarse(self, k: int) -> Double {
        self.confidence(10 * k).max(ratio(1, 1000))
    }

    /// The intervals of the coarse scan.
    pub open spec fn xs(self) -> Seq<Double> {
        Seq::new(coarse_count(self.intervals), |k: int| self.interval(10 * k))
    }

    /// The confidences of the coarse scan.
    pub open spec fn ys(self) -> Seq<Double> {
        Seq::new(coarse_count(self.intervals), |k: int| self.coarse(k))
    }

    /// The value of the cubic at the interval at an index.
    #[verifier::opaque]
    pub open spec fn trend(self, coefs: Seq<Double>, i: int) -> Double {
        polynomial(coefs, self.interval(i), coefs.len() as int)
    }

    /// The fitness at a step of the coarse scan: the confidence above the cubic.
    pub open spec fn coarse_fitness(self, coefs: Seq<Double>, k: int) -> Double {
        self.coarse(k) - self.trend(coefs, 10 * k)
    }

    /// The fitness that the coarse scan leaves at an index; 0 where it did not come.
    pub open spec fn initial_fitness(self, coefs: Seq<Double>, i: int) -> Double {
        if i % 10 == 0 {
            self.coarse_fitness(coefs, i / 10)
        } else {
            zero()
        }
    }

    /// The fitness that the fine scan puts at an index, at least 0.1.
    pub open spec fn fine_fitness(self, coefs: Seq<Double>, i: int) -> Double {
        (self.confidence(i) - self.trend(coefs, i)).max(ratio(1, 10))
    }

    /// The fitness at an index that the fine scan has visited.
    pub open spec fn fitness(self, coefs: Seq<Double>, i: int) -> Double {
        let initial = self.initial_fitness(coefs, i);
        if initial.same(zero()) {
            self.fine_fitness(coefs, i)
        } else {
            initial
        }
    }

    /// The fitness at each index after the fine scan of all of them.
    pub open spec fn refined(self, coefs: Seq<Double>) -> Seq<Double> {
        Seq::new(self.intervals, |i: int| self.fitness(coefs, i))
    }

    /// The highest fitness of the first `k` steps of the coarse scan, at least 0.001.
    pub open spec fn peak(self, coefs: Seq<Double>, k: int) -> Double
        decreases k,
    {
        if k <= 0 {
            ratio(1, 1000)
        } else {
            self.peak(coefs, k - 1).max(self.coarse_fitness(coefs, k - 1))
        }
    }

    /// The fitness above which a step of the coarse scan stands out.
    pub open spec fn threshold(self, coefs: Seq<Double>) -> Double {
        self.peak(coefs, coarse_count(self.intervals) as int) * ratio(4, 10)
    }

    /// The first index of the neighborhood of a step.
    pub open spec fn begin(self, k: int) -> int {
        if k >= 1 {
            10 * k - 10
        } else {
            0
        }
    }

    /// The index behind the neighborhood of a step.
    pub open spec fn end(self, k: int) -> int {
        if 10 * k + 10 < self.intervals {
            10 * k + 10
        } else {
            self.intervals as int
        }
    }

    /// The best tempo in the neighborhood of a step.
    pub open spec fn candidate(self, coefs: Seq<Double>, sample_rate: u32, k: int) -> IntervalCandidate {
        let best = best_index(self.refined(coefs), self.begin(k), self.end(k));
        IntervalCandidate {
            bpm: bpm_of(sample_rate, self.min_interval, best as nat),
            fitness: self.fitness(coefs, best),
        }
    }

    /// The tempos around those of the first `k` steps that stand out.
    pub open spec fn candidates(self, coefs: Seq<Double>, sample_rate: u32, k: int) -> Seq<IntervalCandidate>
        decreases k,
    {
        if k <= 0 {
            Seq::empty()
        } else {
            let before = self.candidates(coefs, sample_rate, k - 1);
            if self.threshold(coefs).lt(self.coarse_fitness(coefs, k - 1)) {
                before.push(self.candidate(coefs, sample_rate, k - 1))
            } else {
                before
            }
        }
    }

    /// Whether the intervals are long enough for the window, and enough for a cubic.
    pub open spec fn feasible(self) -> bool {
        &&& self.intervals >= 31
        &&& self.onsets.len() > 0 ==> self.min_interval >= 1024
    }
}

/// The highest fitness from `begin` up to `end`, at least 0.
pub open spec fn best_fitness(fitness: Seq<Double>, begin: int, end: int) -> Double
    decreases end - begin,
{
    if end <= begin {
        zero()
    } else {
        let before = best_fitness(fitness, begin, end - 1);
        if before.lt(fitness[end - 1]) {
            fitness[end - 1]
        } else {
            before
        }
    }
}

/// The first index from `begin` up to `end` with the highest fitness, or `begin` where
/// none is positive.
pub open spec fn best_index(fitness: Seq<Double>, begin: int, end: int) -> int
    decreases end - begin,
{
    if end <= begin {
        begin
    } else if best_fitness(fitness, begin, end - 1).lt(fitness[end - 1]) {
        end - 1
    } else {
        best_index(fitness, begin, end - 1)
    }
}

/// The task of a scan, where the slowest tempo has an interval that is not shorter than
/// that of the fastest.
pub open spec fn task_of(
    onsets: Seq<Onset>,
    window: Seq<Double>,
    sample_rate: u32,
    min_bpm: Double,
    max_bpm: Double,
) -> Option<Task> {
    let low = interval_for(sample_rate, max_bpm);
    let high = interval_for(sample_rate, min_bpm);
    if low <= high {
        Some(Task { onsets, window, min_interval: low, intervals: (high - low) as nat })
    } else {
        None
    }
}

/// The tempos that a scan finds; nothing where the range of tempos gives too few or too
/// short intervals, or the cubic cannot be fitted.
#[verifier::opaque]
pub open spec fn scan(
    onsets: Seq<Onset>,
    window: Seq<Double>,
    sample_rate: u32,
    min_bpm: Double,
    max_bpm: Double,
) -> Option<Seq<IntervalCandidate>> {
    match task_of(onsets, window, sample_rate, min_bpm, max_bpm) {
        Some(task) => if task.feasible() {
            match cubic_fit(task.xs(), task.ys()) {
                Some(coefs) => Some(
                    task.candidates(coefs, sample_rate, coarse_count(task.intervals) as int),
                ),
                None => None,
            }
        } else {
            None
        },
        None => None,
    }
}

/// The number of samples per minute.
pub(crate) fn minute(sample_rate: u32) -> (r: Double)
    ensures
        r == samples_per_minute(sample_rate),
{
    Double::from_u64(sample_rate as u64) * Double::from_ratio(60, 1)
}

/// The interval of a tempo.
pub fn find_interval(sample_rate: u32, bpm: Double) -> (r: usize)
    ensures
        r == interval_for(sample_rate, bpm),
{
    (minute(sample_rate) / bpm + Double::from_ratio(1, 2)).truncate()
}

/// The tempo of the interval at an index.
fn interval_to_bpm(sample_rate: u32, min_interval: usize, index: usize) -> (r: Double)
    requires
        index + min_interval <= usize::MAX,
    ensures
        r == bpm_of(sample_rate, min_interval as nat, index as nat),
{
    minute(sample_rate) / Double::from_index(index + min_interval)
}

/// Fills in the fitness at the indices from `begin` up to `end` at which it is 0.
fn fill_interval_range(
    fitness: &mut Vec<Double>,
    gapdata: &mut GapData,
    onsets: &[Onset],
    min_interval: usize,
    coefs: &[Double],
    begin: usize,
    end: usize,
    Ghost(task): Ghost<Task>,
)
    requires
        old(gapdata).well_formed(),
        old(gapdata).resolution() == 3,
        old(gapdata).window_view() == task.window,
        old(gapdata).window_view().len() == 256,
        old(gapdata).bins().len() == min_interval + task.intervals,
        task.onsets == onsets@,
        task.min_interval == min_interval,
        task.feasible(),
        begin <= end <= task.intervals,
        old(fitness)@.len() == task.intervals,
    ensures
        final(gapdata).well_formed(),
        final(gapdata).resolution() == 3,
        final(gapdata).window_view() == task.window,
        final(gapdata).bins().len() == min_interval + task.intervals,
        final(fitness)@ == Seq::new(
            task.intervals,
            |i: int|
                if begin <= i < end && old(fitness)@[i].same(zero()) {
                    task.fine_fitness(coefs@, i)
                } else {
                    old(fitness)@[i]
                },
        ),
{
    let ghost before = fitness@;
    let floor = Double::from_ratio(1, 10);
    let mut i = begin;
    while i < end
        invariant
            gapdata.well_formed(),
            gapdata.resolution() == 3,
            gapdata.window_view() == task.window,
            gapdata.window_view().len() == 256,
            gapdata.bins().len() == min_interval + task.intervals,
            task.onsets == onsets@,
            task.min_interval == min_interval,
            task.feasible(),
            begin <= i <= end <= task.intervals,
            fitness@.len() == task.intervals,
            before.len() == task.intervals,
            floor == ratio(1, 10),
            forall|j: int|
                0 <= j < task.intervals ==> #[trigger] fitness@[j] == if begin <= j < i && before[j].same(zero()) {
                    task.fine_fitness(coefs@, j)
                } else {
                    before[j]
                },
        decreases end - i,
    {
        if fitness[i].equals(Double::from_bits(0)) {
            let interval = add_index(min_interval, i, gapdata);
            proof {
                lemma_reduced(interval as nat, onsets@.len());
            }
            let f = gapdata.confidence_for_interval(onsets, interval);
            let f = f - find_trend(coefs, interval, Ghost(task), Ghost(i as int));
            fitness.set(i, f.max(floor));
        }
        i = i + 1;
    }
    assert(fitness@ =~= Seq::new(
        task.intervals,
        |i: int|
            if begin <= i < end && before[i].same(zero()) {
                task.fine_fitness(coefs@, i)
            } else {
                before[i]
            },
    ));
}

/// The value of the cubic at an interval.
fn find_trend(coefs: &[Double], interval: usize, Ghost(task): Ghost<Task>, Ghost(i): Ghost<int>) -> (r: Double)
    requires
        i >= 0,
        interval == task.min_interval + i,
    ensures
        r == task.trend(coefs@, i),
{
    reveal(Task::trend);
    polyval(coefs, Double::from_index(interval))
}

/// The interval at an index of a scan whose intervals fit the buffers.
fn add_index(min_interval: usize, i: usize, gapdata: &GapData) -> (r: usize)
    requires
        min_interval + i < gapdata.bins().len(),
    ensures
        r == min_interval + i,
{
    proof {
        gapdata.lemma_bins_fit();
    }
    min_interval + i
}

/// What the confidence of an interval asks of the window.
proof fn lemma_reduced(interval: nat, onsets: nat)
    requires
        onsets > 0 ==> interval >= 1024,
    ensures
        onsets > 0 ==> 256 <= 2 * (interval / pow2(3)),
{
    lemma2_to64();
}

/// The index from `begin` up to `end` with the highest fitness.
pub fn find_best_interval(fitness: &[Double], begin: usize, end: usize) -> (r: usize)
    requires
        begin <= end <= fitness@.len(),
    ensures
        r == best_index(fitness@, begin as int, end as int),
        begin < end ==> begin <= r < end,
{
    let mut best = begin;
    let mut highest = Double::from_bits(0);
    let mut i = begin;
    while i < end
        invariant
            begin <= i <= end <= fitness@.len(),
            best == best_index(fitness@, begin as int, i as int),
            highest == best_fitness(fitness@, begin as int, i as int),
            begin < i ==> begin <= best < i,
            begin == i ==> best == begin,
        decreases end - i,
    {
        if highest.less(fitness[i]) {
            highest = fitness[i];
            best = i;
        }
        i = i + 1;
    }
    best
}

/// No fitness between `begin` and `end` exceeds that at the best index, unless none is
/// positive.
pub proof fn lemma_best_index(fitness: Seq<Double>, begin: int, end: int, i: int)
    requires
        0 <= begin <= i < end <= fitness.len(),
    ensures
        begin <= best_index(fitness, begin, end) < end,
        !fitness[best_index(fitness, begin, end)].lt(fitness[i]) || !zero().lt(fitness[i]),
        best_index(fitness, begin, end) > begin ==> zero().lt(fitness[best_index(fitness, begin, end)]),
    decreases end - begin,
{
    lemma_best_fitness(fitness, begin, end, i);
}

/// What the highest fitness and its index have to do with each other.
pub(crate) proof fn lemma_best_fitness(fitness: Seq<Double>, begin: int, end: int, i: int)
    requires
        0 <= begin <= end <= fitness.len(),
    ensures
        begin < end ==> begin <= best_index(fitness, begin, end) < end,
        !best_fitness(fitness, begin, end).is_nan(),
        best_fitness(fitness, begin, end).place() >= 0,
        best_fitness(fitness, begin, end) == fitness[best_index(fitness, begin, end)] || (best_fitness(
            fitness,
            begin,
            end,
        ) == zero() && best_index(fitness, begin, end) == begin),
        best_index(fitness, begin, end) > begin ==> zero().lt(fitness[best_index(fitness, begin, end)]),
        begin <= i < end ==> !best_fitness(fitness, begin, end).lt(fitness[i]),
    decreases end - begin,
{
    if begin < end {
        lemma_best_fitness(fitness, begin, end - 1, i);
    }
}

/// The fitness above which a step stands out is not negative.
pub(crate) proof fn lemma_threshold(task: Task, coefs: Seq<Double>, k: int)
    ensures
        zero().lt(task.peak(coefs, k)),
        zero().le(task.peak(coefs, k) * ratio(4, 10)),
    decreases k,
{
    lemma_ratio_positive(1, 1000);
    lemma_ratio_positive(4, 10);
    if k > 0 {
        lemma_threshold(task, coefs, k - 1);
    }
    reveal(Double::times);
}

/// Every candidate is the tempo of an interval of the range, with the fitness of that
/// interval, which is above the threshold.
pub proof fn lemma_candidates(task: Task, coefs: Seq<Double>, sample_rate: u32, k: int, j: int)
    requires
        0 <= k <= coarse_count(task.intervals),
        0 <= j < task.candidates(coefs, sample_rate, k).len(),
    ensures
        zero().le(task.threshold(coefs)),
        task.threshold(coefs).lt(task.candidates(coefs, sample_rate, k)[j].fitness),
        exists|i: int|
            0 <= i < task.intervals && task.candidates(coefs, sample_rate, k)[j] == (IntervalCandidate {
                bpm: bpm_of(sample_rate, task.min_interval, i as nat),
                fitness: #[trigger] task.fitness(coefs, i),
            }),
    decreases k,
{
    lemma_threshold(task, coefs, coarse_count(task.intervals) as int);
    let before = task.candidates(coefs, sample_rate, k - 1);
    if j < before.len() {
        lemma_candidates(task, coefs, sample_rate, k - 1, j);
    } else {
        let idx = 10 * (k - 1);
        let all = task.refined(coefs);
        let best = best_index(all, task.begin(k - 1), task.end(k - 1));
        lemma_best_fitness(all, task.begin(k - 1), task.end(k - 1), idx);
        assert(task.initial_fitness(coefs, idx) == task.coarse_fitness(coefs, k - 1));
        assert(all[idx] == task.coarse_fitness(coefs, k - 1));
        assert(all[best] == task.fitness(coefs, best));
    }
}

/// Scans the intervals of a range of tempos. Nothing where the range gives too few or too
/// short intervals, or the cubic cannot be fitted. `cosines` are those of the window.
pub fn try_scan_intervals(
    onsets: &[Onset],
    sample_rate: u32,
    min_bpm: Double,
    max_bpm: Double,
    cosines: &[Double],
) -> (r: Option<Vec<IntervalCandidate>>)
    requires
        cosines@.len() == 256,
    ensures
        match r {
            Some(c) => scan(onsets@, hamming(cosines@), sample_rate, min_bpm, max_bpm) == Some(c@),
            None => scan(onsets@, hamming(cosines@), sample_rate, min_bpm, max_bpm) is None,
        },
{
    reveal(scan);
    let min_interval = find_interval(sample_rate, max_bpm);
    let max_interval = find_interval(sample_rate, min_bpm);
    if min_interval > max_interval {
        return None;
    }
    let intervals = max_interval - min_interval;
    let ghost task = Task {
        onsets: onsets@,
        window: hamming(cosines@),
        min_interval: min_interval as nat,
        intervals: intervals as nat,
    };
    if intervals < 31 || (onsets.len() > 0 && min_interval < 1024) {
        return None;
    }
    proof {
        lemma2_to64();
        assert(window_length(3) == 256);
    }
    let mut gapdata = GapData::new(max_interval, INTERVAL_DOWNSAMPLE, cosines);
    let mut fitness: Vec<Double> = Vec::new();
    let mut xs: Vec<Double> = Vec::new();
    let mut ys: Vec<Double> = Vec::new();
    coarse_scan(onsets, min_interval, intervals, &mut gapdata, &mut fitness, &mut xs, &mut ys, Ghost(task));
    let coefs = match try_polyfit_cubic(&xs, &ys) {
        Some(c) => c,
        None => {
            return None;
        },
    };
    let threshold = subtract_trend(min_interval, intervals, &coefs, &mut fitness, Ghost(task));
    let count = xs.len();
    let mut candidates: Vec<IntervalCandidate> = Vec::new();
    let mut k: usize = 0;
    assert(candidates@ =~= task.candidates(coefs@, sample_rate, 0));
    proof {
        lemma_not_refined(task, coefs@, fitness@);
    }
    while k < count
        invariant
            k <= count,
            count == coarse_count(task.intervals),
            task.onsets == onsets@,
            task.min_interval == min_interval,
            task.intervals == intervals,
            max_interval == min_interval + intervals,
            task.feasible(),
            gapdata.well_formed(),
            gapdata.resolution() == 3,
            gapdata.window_view() == task.window,
            task.window.len() == 256,
            gapdata.bins().len() == min_interval + intervals,
            threshold == task.threshold(coefs@),
            partly_refined(task, coefs@, fitness@, k as int),
            candidates@ == task.candidates(coefs@, sample_rate, k as int),
        decreases count - k,
    {
        proof {
            lemma_partly_refined(task, coefs@, fitness@, k as int);
        }
        if threshold.less(fitness[10 * k]) {
            let found = refine(
                onsets,
                sample_rate,
                min_interval,
                intervals,
                &coefs,
                k,
                &mut fitness,
                &mut gapdata,
                Ghost(task),
            );
            candidates.push(found);
        }
        k = k + 1;
    }
    Some(candidates)
}

/// Whether the fitness at each index is the one that the coarse scan leaves or the one that
/// the fine scan leaves, and the former from a step on.
#[verifier::opaque]
spec fn partly_refined(task: Task, coefs: Seq<Double>, fitness: Seq<Double>, k: int) -> bool {
    &&& fitness.len() == task.intervals
    &&& forall|i: int| 10 * k <= i < task.intervals ==> #[trigger] fitness[i] == task.initial_fitness(coefs, i)
    &&& forall|i: int|
        0 <= i < task.intervals ==> (#[trigger] fitness[i]) == task.initial_fitness(coefs, i) || fitness[i]
            == task.fitness(coefs, i)
}

/// The coarse scan refines nothing.
proof fn lemma_not_refined(task: Task, coefs: Seq<Double>, fitness: Seq<Double>)
    requires
        fitness == Seq::new(task.intervals, |i: int| task.initial_fitness(coefs, i)),
    ensures
        partly_refined(task, coefs, fitness, 0),
{
    reveal(partly_refined);
}

/// The fitness at a step is that of the coarse scan until the fine scan comes there.
proof fn lemma_partly_refined(task: Task, coefs: Seq<Double>, fitness: Seq<Double>, k: int)
    requires
        partly_refined(task, coefs, fitness, k),
        0 <= k < coarse_count(task.intervals),
    ensures
        fitness.len() == task.intervals,
        10 * k < task.intervals,
        fitness[10 * k] == task.coarse_fitness(coefs, k),
        partly_refined(task, coefs, fitness, k + 1),
{
    reveal(partly_refined);
}

/// Scans the neighborhood of a step and finds its best tempo.
fn refine(
    onsets: &[Onset],
    sample_rate: u32,
    min_interval: usize,
    intervals: usize,
    coefs: &[Double; 4],
    k: usize,
    fitness: &mut Vec<Double>,
    gapdata: &mut GapData,
    Ghost(task): Ghost<Task>,
) -> (r: IntervalCandidate)
    requires
        k < coarse_count(task.intervals),
        min_interval + intervals <= usize::MAX,
        task.onsets == onsets@,
        task.min_interval == min_interval,
        task.intervals == intervals,
        task.feasible(),
        task.window.len() == 256,
        old(gapdata).well_formed(),
        old(gapdata).resolution() == 3,
        old(gapdata).window_view() == task.window,
        old(gapdata).bins().len() == min_interval + intervals,
        partly_refined(task, coefs@, old(fitness)@, k as int),
    ensures
        final(gapdata).well_formed(),
        final(gapdata).resolution() == 3,
        final(gapdata).window_view() == task.window,
        final(gapdata).bins().len() == min_interval + intervals,
        partly_refined(task, coefs@, final(fitness)@, k + 1),
        r == task.candidate(coefs@, sample_rate, k as int),
{
    let ghost before = fitness@;
    proof {
        lemma_partly_refined(task, coefs@, before, k as int);
    }
    let idx: usize = 10 * k;
    let begin: usize = if k >= 1 {
        idx - INTERVAL_DELTA
    } else {
        0
    };
    let end: usize = if intervals - idx > INTERVAL_DELTA {
        idx + INTERVAL_DELTA
    } else {
        intervals
    };
    fill_interval_range(fitness, gapdata, onsets, min_interval, coefs, begin, end, Ghost(task));
    proof {
        lemma_refined(task, coefs@, before, fitness@, k as int, begin as int, end as int);
        lemma_best_same(fitness@, task.refined(coefs@), begin as int, end as int);
    }
    let best = find_best_interval(fitness, begin, end);
    IntervalCandidate { bpm: interval_to_bpm(sample_rate, min_interval, best), fitness: fitness[best] }
}

/// After the fine scan of the neighborhood of a step the fitness there is the one that
/// stands at the end.
proof fn lemma_refined(
    task: Task,
    coefs: Seq<Double>,
    before: Seq<Double>,
    after: Seq<Double>,
    k: int,
    begin: int,
    end: int,
)
    requires
        partly_refined(task, coefs, before, k),
        0 <= k,
        0 <= begin <= end <= 10 * (k + 1),
        end <= task.intervals,
        after == Seq::new(
            task.intervals,
            |i: int|
                if begin <= i < end && before[i].same(zero()) {
                    task.fine_fitness(coefs, i)
                } else {
                    before[i]
                },
        ),
    ensures
        partly_refined(task, coefs, after, k + 1),
        forall|i: int| begin <= i < end ==> #[trigger] after[i] == task.refined(coefs)[i],
{
    reveal(partly_refined);
    assert forall|i: int| 0 <= i < task.intervals implies {
        &&& begin <= i < end ==> #[trigger] after[i] == task.refined(coefs)[i]
        &&& after[i] == task.initial_fitness(coefs, i) || after[i] == task.fitness(coefs, i)
        &&& 10 * (k + 1) <= i ==> after[i] == task.initial_fitness(coefs, i)
    } by {
        assert(before[i] == task.initial_fitness(coefs, i) || before[i] == task.fitness(coefs, i));
        lemma_filled(task, coefs, before[i], i);
    }
}

/// The fine scan leaves the fitness that stands at the end.
proof fn lemma_filled(task: Task, coefs: Seq<Double>, before: Double, i: int)
    requires
        before == task.initial_fitness(coefs, i) || before == task.fitness(coefs, i),
    ensures
        before.same(zero()) ==> task.fitness(coefs, i) == task.fine_fitness(coefs, i),
        !before.same(zero()) ==> before == task.fitness(coefs, i),
{
    let fine = task.fine_fitness(coefs, i);
    lemma_tenth_positive();
    assert(!fine.same(zero()));
}

/// A tenth is not zero.
proof fn lemma_tenth_positive()
    ensures
        zero().lt(ratio(1, 10)),
{
    lemma_ratio_positive(1, 10);
}

/// The best index depends on the fitness between the ends alone.
proof fn lemma_best_same(a: Seq<Double>, b: Seq<Double>, begin: int, end: int)
    requires
        forall|i: int| begin <= i < end ==> a[i] == b[i],
    ensures
        best_index(a, begin, end) == best_index(b, begin, end),
        best_fitness(a, begin, end) == best_fitness(b, begin, end),
    decreases end - begin,
{
    if begin < end {
        lemma_best_same(a, b, begin, end - 1);
    }
}

/// The coarse scan.
fn coarse_scan(
    onsets: &[Onset],
    min_interval: usize,
    intervals: usize,
    gapdata: &mut GapData,
    fitness: &mut Vec<Double>,
    xs: &mut Vec<Double>,
    ys: &mut Vec<Double>,
    Ghost(task): Ghost<Task>,
)
    requires
        old(gapdata).well_formed(),
        old(gapdata).resolution() == 3,
        old(gapdata).window_view() == task.window,
        task.window.len() == 256,
        old(gapdata).bins().len() == min_interval + intervals,
        task.onsets == onsets@,
        task.min_interval == min_interval,
        task.intervals == intervals,
        task.feasible(),
        old(fitness)@.len() == 0,
        old(xs)@.len() == 0,
        old(ys)@.len() == 0,
    ensures
        final(gapdata).well_formed(),
        final(gapdata).resolution() == 3,
        final(gapdata).window_view() == task.window,
        final(gapdata).bins().len() == min_interval + intervals,
        final(xs)@ == task.xs(),
        final(ys)@ == task.ys(),
        final(fitness)@ == Seq::new(
            intervals as nat,
            |i: int|
                if i % 10 == 0 {
                    task.coarse(i / 10)
                } else {
                    zero()
                },
        ),
{
    let least = Double::from_ratio(1, 1000);
    let mut i: usize = 0;
    while i < intervals
        invariant
            i <= intervals,
            gapdata.well_formed(),
            gapdata.resolution() == 3,
            gapdata.window_view() == task.window,
            task.window.len() == 256,
            gapdata.bins().len() == min_interval + intervals,
            task.onsets == onsets@,
            task.min_interval == min_interval,
            task.intervals == intervals,
            task.feasible(),
            least == ratio(1, 1000),
            fitness@.len() == i,
            forall|j: int|
                0 <= j < i ==> #[trigger] fitness@[j] == if j % 10 == 0 {
                    task.coarse(j / 10)
                } else {
                    zero()
                },
            xs@.len() == (i + 9) / 10,
            ys@.len() == xs@.len(),
            forall|k: int| 0 <= k < xs@.len() ==> #[trigger] xs@[k] == task.interval(10 * k),
            forall|k: int| 0 <= k < ys@.len() ==> #[trigger] ys@[k] == task.coarse(k),
        decreases intervals - i,
    {
        if i % INTERVAL_DELTA == 0 {
            let interval = add_index(min_interval, i, gapdata);
            proof {
                lemma_reduced(interval as nat, onsets@.len());
            }
            let confidence = gapdata.confidence_for_interval(onsets, interval).max(least);
            fitness.push(confidence);
            xs.push(Double::from_index(interval));
            ys.push(confidence);
        } else {
            fitness.push(Double::from_bits(0));
        }
        i = i + 1;
    }
    assert(xs@ =~= task.xs());
    assert(ys@ =~= task.ys());
    assert(fitness@ =~= Seq::new(
        intervals as nat,
        |i: int|
            if i % 10 == 0 {
                task.coarse(i / 10)
            } else {
                zero()
            },
    ));
}

/// Takes the cubic from the fitness of the coarse scan, and finds the fitness above which
/// a step stands out.
fn subtract_trend(
    min_interval: usize,
    intervals: usize,
    coefs: &[Double; 4],
    fitness: &mut Vec<Double>,
    Ghost(task): Ghost<Task>,
) -> (r: Double)
    requires
        task.min_interval == min_interval,
        task.intervals == intervals,
        min_interval + intervals <= usize::MAX,
        old(fitness)@ == Seq::new(
            intervals as nat,
            |i: int|
                if i % 10 == 0 {
                    task.coarse(i / 10)
                } else {
                    zero()
                },
        ),
    ensures
        r == task.threshold(coefs@),
        final(fitness)@ == Seq::new(intervals as nat, |i: int| task.initial_fitness(coefs@, i)),
{
    let mut highest = Double::from_ratio(1, 1000);
    let mut k: usize = 0;
    let ghost before = fitness@;
    let count: usize = if intervals % 10 == 0 {
        intervals / 10
    } else {
        intervals / 10 + 1
    };
    while k < count
        invariant
            k <= count,
            count == coarse_count(intervals as nat),
            task.min_interval == min_interval,
            task.intervals == intervals,
            min_interval + intervals <= usize::MAX,
            fitness@.len() == intervals,
            before.len() == intervals,
            forall|i: int|
                0 <= i < intervals ==> #[trigger] before[i] == if i % 10 == 0 {
                    task.coarse(i / 10)
                } else {
                    zero()
                },
            forall|i: int|
                0 <= i < intervals ==> #[trigger] fitness@[i] == if i < 10 * k {
                    task.initial_fitness(coefs@, i)
                } else {
                    before[i]
                },
            highest == task.peak(coefs@, k as int),
        decreases count - k,
    {
        let idx: usize = 10 * k;
        assert(before[idx as int] == task.coarse(k as int));
        let f = fitness[idx] - find_trend(coefs, min_interval + idx, Ghost(task), Ghost(idx as int));
        fitness.set(idx, f);
        highest = highest.max(f);
        k = k + 1;
    }
    assert(fitness@ =~= Seq::new(intervals as nat, |i: int| task.initial_fitness(coefs@, i)));
    highest * Double::from_ratio(4, 10)
}

/// Scans the intervals of a range of tempos.
pub fn scan_intervals(
    onsets: &[Onset],
    sample_rate: u32,
    min_bpm: Double,
    max_bpm: Double,
    cosines: &[Double],
) -> (r: Vec<IntervalCandidate>)
    requires
        cosines@.len() == 256,
        scan(onsets@, hamming(cosines@), sample_rate, min_bpm, max_bpm) is Some,
    ensures
        scan(onsets@, hamming(cosines@), sample_rate, min_bpm, max_bpm) == Some(r@),
{
    try_scan_intervals(onsets, sample_rate, min_bpm, max_bpm, cosines).unwrap()
}

} // verus!
