//! Tempo detection: the scan, then the removal of duplicates, the rounding of tempos
//! that are nearly whole, and a second opinion where the two best are close.

use crate::double::{ratio, zero, Double};
use crate::gapdata::{fractional_confidence, whole_interval, window_length, GapData};
use crate::interval::{find_interval, interval_for, minute, samples_per_minute, scan, try_scan_intervals, IntervalCandidate};
use crate::window::{hamming, Cosines};
use crate::{DetectOptions, Onset, TempoResult};
use vstd::arithmetic::power2::*;
use vstd::prelude::*;

verus! {

/// Candidates in which one more finds its place: behind those that are at least as fit.
pub open spec fn inserted(s: Seq<TempoResult>, t: TempoResult) -> Seq<TempoResult>
    decreases s.len(),
{
    if s.len() > 0 && s.last().fitness.total_place() < t.fitness.total_place() {
        inserted(s.drop_last(), t).push(s.last())
    } else {
        s.push(t)
    }
}

/// Candidates sorted by fitness, the fittest first; equally fit ones keep their order.
pub open spec fn sorted(s: Seq<TempoResult>) -> Seq<TempoResult>
    decreases s.len(),
{
    if s.len() == 0 {
        s
    } else {
        inserted(sorted(s.drop_last()), s.last())
    }
}

/// Whether no candidate is fitter than one before it.
pub open spec fn descending(s: Seq<TempoResult>) -> bool {
    forall|i: int, j: int|
        0 <= i <= j < s.len() ==> (#[trigger] s[i]).fitness.total_place() >= (#[trigger] s[j]).fitness.total_place()
}

/// How far a tempo is from another, its double or its half.
pub open spec fn distance(kept: Double, v: Double) -> Double {
    (v - kept).abs().min((v - kept * ratio(2, 1)).abs()).min((v - kept * ratio(1, 2)).abs())
}

/// Whether a tempo is nearly another one, its double or its half.
pub open spec fn duplicates(kept: TempoResult, t: TempoResult) -> bool {
    distance(kept.bpm, t.bpm).lt(ratio(1, 10))
}

/// The candidates that do not duplicate one.
pub open spec fn without(kept: TempoResult, s: Seq<TempoResult>) -> Seq<TempoResult>
    decreases s.len(),
{
    if s.len() == 0 {
        s
    } else if duplicates(kept, s.last()) {
        without(kept, s.drop_last())
    } else {
        without(kept, s.drop_last()).push(s.last())
    }
}

/// The candidates after each from the one at `i` on has removed the later ones that
/// duplicate it.
pub open spec fn deduplicated(s: Seq<TempoResult>, i: int) -> Seq<TempoResult>
    decreases s.len() - i,
    via deduplicated_decreases
{
    if i < 0 || i >= s.len() {
        s
    } else {
        deduplicated(s.take(i + 1) + without(s[i], s.skip(i + 1)), i + 1)
    }
}

#[via_fn]
proof fn deduplicated_decreases(s: Seq<TempoResult>, i: int) {
    if 0 <= i < s.len() {
        lemma_without_short(s[i], s.skip(i + 1));
    }
}

proof fn lemma_without_short(kept: TempoResult, s: Seq<TempoResult>)
    ensures
        without(kept, s).len() <= s.len(),
    decreases s.len(),
{
    if s.len() > 0 {
        lemma_without_short(kept, s.drop_last());
    }
}

/// What full-precision checks work on.
pub struct Precise {
    pub onsets: Seq<Onset>,
    pub window: Seq<Double>,
    pub sample_rate: u32,
    /// The longest interval that the buffers hold.
    pub longest: nat,
}

impl Precise {
    /// The interval of a tempo.
    pub open spec fn interval(self, bpm: Double) -> Double {
        samples_per_minute(self.sample_rate) / bpm
    }

    /// Whether the interval of a tempo is neither longer than the buffers nor shorter than
    /// half the window.
    pub open spec fn fits(self, bpm: Double) -> bool {
        let whole = whole_interval(self.interval(bpm));
        whole <= self.longest && (self.onsets.len() > 0 ==> 2048 <= 2 * whole)
    }

    /// The confidence of a tempo.
    pub open spec fn confidence(self, bpm: Double) -> Double {
        fractional_confidence(self.onsets, self.window, self.interval(bpm))
    }

    /// A tempo, or the whole number that it is close to where that is about as good;
    /// nothing where an interval does not fit.
    pub open spec fn snapped(self, bpm: Double) -> Option<Double> {
        let whole = bpm.round();
        let diff = (bpm - whole).abs();
        if diff.lt(ratio(1, 100)) {
            Some(whole)
        } else if diff.lt(ratio(5, 100)) {
            if !self.fits(bpm) || !self.fits(whole) {
                None
            } else if (self.confidence(bpm) * ratio(99, 100)).lt(self.confidence(whole)) {
                Some(whole)
            } else {
                Some(bpm)
            }
        } else {
            Some(bpm)
        }
    }

    /// The first `n` candidates with their tempos snapped.
    pub open spec fn rounded(self, s: Seq<TempoResult>, n: int) -> Option<Seq<TempoResult>>
        decreases n,
    {
        if n <= 0 {
            Some(Seq::empty())
        } else {
            match (self.rounded(s, n - 1), self.snapped(s[n - 1].bpm)) {
                (Some(before), Some(bpm)) => Some(before.push(TempoResult { bpm, ..s[n - 1] })),
                _ => None,
            }
        }
    }

    /// Whether the two best candidates are about equally fit.
    pub open spec fn close(self, s: Seq<TempoResult>) -> bool {
        s.len() >= 2 && (s[0].fitness / s[1].fitness).lt(ratio(105, 100))
    }

    /// The candidates with the fitness that full precision gives.
    pub open spec fn rated(self, s: Seq<TempoResult>) -> Seq<TempoResult> {
        s.map_values(|t: TempoResult| TempoResult { fitness: self.confidence(t.bpm), ..t })
    }

    /// The candidates, rated and sorted anew where the two best are close.
    pub open spec fn judged(self, s: Seq<TempoResult>) -> Option<Seq<TempoResult>> {
        if self.close(s) {
            if forall|i: int| 0 <= i < s.len() ==> self.fits((#[trigger] s[i]).bpm) {
                Some(sorted(self.rated(s)))
            } else {
                None
            }
        } else {
            Some(s)
        }
    }
}

/// The best three of some candidates.
pub open spec fn best_three(s: Seq<TempoResult>) -> Seq<TempoResult> {
    if s.len() > 3 {
        s.take(3)
    } else {
        s
    }
}

/// A candidate of the scan.
pub open spec fn result_of(c: IntervalCandidate) -> TempoResult {
    TempoResult { bpm: c.bpm, offset: zero(), fitness: c.fitness }
}

/// What is given where there are too few onsets.
pub open spec fn placeholder() -> TempoResult {
    TempoResult { bpm: ratio(100, 1), offset: zero(), fitness: ratio(1, 1) }
}

/// The tempo candidates of some onsets; nothing where the range of tempos gives too few,
/// too short or too long intervals, or the scan cannot be normalized.
pub open spec fn tempos(
    onsets: Seq<Onset>,
    coarse: Seq<Double>,
    fine: Seq<Double>,
    sample_rate: u32,
    opts: DetectOptions,
) -> Option<Seq<TempoResult>> {
    if onsets.len() < 2 {
        Some(seq![placeholder()])
    } else {
        match scan(onsets, coarse, sample_rate, opts.min_bpm, opts.max_bpm) {
            None => None,
            Some(found) => {
                let precise = Precise {
                    onsets,
                    window: fine,
                    sample_rate,
                    longest: interval_for(sample_rate, opts.min_bpm),
                };
                let distinct = deduplicated(sorted(found.map_values(|c: IntervalCandidate| result_of(c))), 0);
                match precise.rounded(distinct, distinct.len() as int) {
                    None => None,
                    Some(whole) => match precise.judged(whole) {
                        None => None,
                        Some(s) => Some(best_three(s)),
                    },
                }
            },
        }
    }
}

/// Adds a candidate at its place.
fn insert(tempo: &mut Vec<TempoResult>, t: TempoResult)
    ensures
        final(tempo)@ == inserted(old(tempo)@, t),
{
    let mut i: usize = tempo.len();
    let ghost s = tempo@;
    assert(s.take(i as int) =~= s);
    assert(inserted(s, t) =~= inserted(s.take(i as int), t) + s.skip(i as int));
    while i > 0 && tempo[i - 1].fitness.total_before(t.fitness)
        invariant
            i <= s.len(),
            s == tempo@,
            inserted(s, t) == inserted(s.take(i as int), t) + s.skip(i as int),
        ensures
            i <= s.len(),
            i == 0 || s[i - 1].fitness.total_place() >= t.fitness.total_place(),
        decreases i,
    {
        proof {
            let a = s.take(i as int);
            assert(a.drop_last() =~= s.take(i - 1));
            assert(inserted(a, t) + s.skip(i as int) =~= inserted(s.take(i - 1), t) + s.skip(i - 1));
        }
        i = i - 1;
    }
    tempo.insert(i, t);
    assert(tempo@ =~= s.take(i as int).push(t) + s.skip(i as int));
}

/// Sorts candidates by fitness, the fittest first.
pub fn sort_by_fitness(tempo: &Vec<TempoResult>) -> (r: Vec<TempoResult>)
    ensures
        r@ == sorted(tempo@),
{
    let mut out: Vec<TempoResult> = Vec::new();
    let mut i: usize = 0;
    assert(out@ =~= sorted(tempo@.take(0)));
    while i < tempo.len()
        invariant
            i <= tempo@.len(),
            out@ == sorted(tempo@.take(i as int)),
        decreases tempo@.len() - i,
    {
        assert(tempo@.take(i + 1).drop_last() =~= tempo@.take(i as int));
        insert(&mut out, tempo[i]);
        i = i + 1;
    }
    assert(tempo@.take(tempo@.len() as int) =~= tempo@);
    out
}

/// Whether a candidate duplicates another.
fn is_duplicate(kept: TempoResult, t: TempoResult) -> (r: bool)
    ensures
        r == duplicates(kept, t),
{
    let v = t.bpm;
    let bpm = kept.bpm;
    let doubled = bpm * Double::from_ratio(2, 1);
    let halved = bpm * Double::from_ratio(1, 2);
    let min_diff = (v - bpm).abs().min((v - doubled).abs()).min((v - halved).abs());
    min_diff.less(Double::from_ratio(1, 10))
}

/// Removes the tempos that are nearly a fitter one, its double or its half.
pub fn remove_duplicates(tempo: &mut Vec<TempoResult>)
    ensures
        final(tempo)@ == deduplicated(old(tempo)@, 0),
{
    let ghost all = deduplicated(tempo@, 0);
    let mut i: usize = 0;
    while i < tempo.len()
        invariant
            i <= tempo@.len(),
            all == deduplicated(tempo@, i as int),
        decreases tempo@.len() - i,
    {
        let ghost s = tempo@;
        let n = tempo.len();
        let kept = tempo[i];
        let mut next: Vec<TempoResult> = Vec::new();
        let mut j: usize = 0;
        while j <= i
            invariant
                i < n,
                n == tempo@.len(),
                j <= i + 1,
                next@ == tempo@.take(j as int),
            decreases i + 1 - j,
        {
            assert(tempo@.take(j + 1) =~= tempo@.take(j as int).push(tempo@[j as int]));
            next.push(tempo[j]);
            j = j + 1;
        }
        let ghost head = next@;
        let ghost tail = tempo@.skip(i + 1);
        assert(without(kept, tail.take(0)) =~= Seq::empty());
        assert(next@ =~= head + without(kept, tail.take(0)));
        while j < tempo.len()
            invariant
                i < j <= tempo@.len(),
                tail == tempo@.skip(i + 1),
                next@ == head + without(kept, tail.take(j - i - 1)),
            decreases tempo@.len() - j,
        {
            let t = tempo[j];
            proof {
                let a = tail.take(j - i);
                assert(a.drop_last() =~= tail.take(j - i - 1));
                assert(a.last() == t);
            }
            if !is_duplicate(kept, t) {
                next.push(t);
            }
            assert(next@ =~= head + without(kept, tail.take(j - i)));
            j = j + 1;
        }
        proof {
            assert(tail.take(tail.len() as int) =~= tail);
            assert(head =~= s.take(i + 1));
            lemma_without_short(kept, tail);
        }
        *tempo = next;
        i = i + 1;
    }
}

/// Snaps the tempos that are nearly whole. Nothing where an interval does not fit the
/// buffers.
pub fn try_round_bpm_values(
    gapdata: &mut GapData,
    onsets: &[Onset],
    sample_rate: u32,
    longest: usize,
    tempo: &Vec<TempoResult>,
) -> (r: Option<Vec<TempoResult>>)
    requires
        old(gapdata).well_formed(),
        old(gapdata).resolution() == 0,
        old(gapdata).window_view().len() == 2048,
        old(gapdata).bins().len() == longest,
    ensures
        final(gapdata).well_formed(),
        final(gapdata).resolution() == 0,
        final(gapdata).window_view() == old(gapdata).window_view(),
        final(gapdata).bins().len() == longest,
        ({
            let precise = Precise {
                onsets: onsets@,
                window: old(gapdata).window_view(),
                sample_rate,
                longest: longest as nat,
            };
            match r {
                Some(v) => precise.rounded(tempo@, tempo@.len() as int) == Some(v@),
                None => precise.rounded(tempo@, tempo@.len() as int) is None,
            }
        }),
{
    let ghost precise = Precise {
        onsets: onsets@,
        window: gapdata.window_view(),
        sample_rate,
        longest: longest as nat,
    };
    let near = Double::from_ratio(1, 100);
    let far = Double::from_ratio(5, 100);
    let mut out: Vec<TempoResult> = Vec::new();
    let mut i: usize = 0;
    let mut failed = false;
    assert(out@ =~= Seq::empty());
    while i < tempo.len() && !failed
        invariant
            i <= tempo@.len(),
            gapdata.well_formed(),
            gapdata.resolution() == 0,
            gapdata.window_view() == precise.window,
            gapdata.window_view().len() == 2048,
            gapdata.bins().len() == longest,
            precise == (Precise {
                onsets: onsets@,
                window: precise.window,
                sample_rate,
                longest: longest as nat,
            }),
            near == ratio(1, 100),
            far == ratio(5, 100),
            !failed ==> precise.rounded(tempo@, i as int) == Some(out@),
            failed ==> precise.rounded(tempo@, i as int) is None,
        decreases tempo@.len() - i,
    {
        let t = tempo[i];
        let whole = t.bpm.round();
        let diff = (t.bpm - whole).abs();
        let mut bpm = t.bpm;
        if diff.less(near) {
            bpm = whole;
        } else if diff.less(far) {
            let old_interval = minute(sample_rate) / t.bpm;
            let new_interval = minute(sample_rate) / whole;
            if !interval_fits(old_interval, longest, onsets.len()) || !interval_fits(
                new_interval,
                longest,
                onsets.len(),
            ) {
                failed = true;
            } else {
                let old_confidence = gapdata.confidence_for_bpm(onsets, old_interval);
                let new_confidence = gapdata.confidence_for_bpm(onsets, new_interval);
                if (old_confidence * Double::from_ratio(99, 100)).less(new_confidence) {
                    bpm = whole;
                }
            }
        }
        if !failed {
            out.push(TempoResult { bpm, offset: t.offset, fitness: t.fitness });
        }
        i = i + 1;
    }
    if failed {
        proof {
            lemma_stays_failed(precise, tempo@, i as int, tempo@.len() as int);
        }
        None
    } else {
        Some(out)
    }
}

/// A tempo that cannot be snapped spoils the whole.
proof fn lemma_stays_failed(precise: Precise, s: Seq<TempoResult>, i: int, j: int)
    requires
        i <= j,
        precise.rounded(s, i) is None,
    ensures
        precise.rounded(s, j) is None,
    decreases j - i,
{
    if i < j {
        lemma_stays_failed(precise, s, i, j - 1);
    }
}

/// Whether an interval is neither longer than the buffers nor shorter than half the window.
fn interval_fits(interval: Double, longest: usize, onsets: usize) -> (r: bool)
    ensures
        r == (whole_interval(interval) <= longest && (onsets > 0 ==> 2048 <= 2 * whole_interval(interval))),
{
    let whole = interval.round().max(Double::from_ratio(1, 1)).truncate();
    whole <= longest && (onsets == 0 || whole >= 1024)
}

/// Rates and sorts the candidates anew where the two best are close. Nothing where an
/// interval does not fit the buffers.
fn try_judge(
    gapdata: &mut GapData,
    onsets: &[Onset],
    sample_rate: u32,
    longest: usize,
    tempo: Vec<TempoResult>,
) -> (r: Option<Vec<TempoResult>>)
    requires
        old(gapdata).well_formed(),
        old(gapdata).resolution() == 0,
        old(gapdata).window_view().len() == 2048,
        old(gapdata).bins().len() == longest,
    ensures
        ({
            let precise = Precise {
                onsets: onsets@,
                window: old(gapdata).window_view(),
                sample_rate,
                longest: longest as nat,
            };
            match r {
                Some(v) => precise.judged(tempo@) == Some(v@),
                None => precise.judged(tempo@) is None,
            }
        }),
{
    let ghost precise = Precise {
        onsets: onsets@,
        window: gapdata.window_view(),
        sample_rate,
        longest: longest as nat,
    };
    if tempo.len() < 2 || !(tempo[0].fitness / tempo[1].fitness).less(Double::from_ratio(105, 100)) {
        return Some(tempo);
    }
    let mut out: Vec<TempoResult> = Vec::new();
    let mut i: usize = 0;
    let mut failed = false;
    while i < tempo.len() && !failed
        invariant
            i <= tempo@.len(),
            gapdata.well_formed(),
            gapdata.resolution() == 0,
            gapdata.window_view() == precise.window,
            gapdata.window_view().len() == 2048,
            gapdata.bins().len() == longest,
            precise == (Precise {
                onsets: onsets@,
                window: precise.window,
                sample_rate,
                longest: longest as nat,
            }),
            !failed ==> out@ == precise.rated(tempo@).take(i as int),
            !failed ==> forall|j: int| 0 <= j < i ==> precise.fits((#[trigger] tempo@[j]).bpm),
            failed ==> !forall|j: int| 0 <= j < tempo@.len() ==> precise.fits((#[trigger] tempo@[j]).bpm),
        decreases tempo@.len() - i,
    {
        let t = tempo[i];
        let interval = minute(sample_rate) / t.bpm;
        if interval_fits(interval, longest, onsets.len()) {
            let fitness = gapdata.confidence_for_bpm(onsets, interval);
            let next = TempoResult { bpm: t.bpm, offset: t.offset, fitness };
            proof {
                let all = precise.rated(tempo@);
                assert(all.take(i + 1) =~= all.take(i as int).push(all[i as int]));
                assert(next == all[i as int]);
            }
            out.push(next);
        } else {
            assert(!precise.fits(tempo@[i as int].bpm));
            failed = true;
        }
        i = i + 1;
    }
    if failed {
        None
    } else {
        assert(out@ =~= precise.rated(tempo@));
        Some(sort_by_fitness(&out))
    }
}

/// Finds the tempo candidates of some onsets, the best three at most and the fittest
/// first. Nothing where the range of tempos gives too few, too short or too long
/// intervals, or the scan cannot be normalized.
pub fn try_calculate_bpm(
    onsets: &[Onset],
    sample_rate: u32,
    opts: &DetectOptions,
    cosines: &Cosines,
) -> (r: Option<Vec<TempoResult>>)
    requires
        cosines.well_formed(),
    ensures
        ({
            let expected = tempos(onsets@, hamming(cosines.coarse@), hamming(cosines.fine@), sample_rate, *opts);
            match r {
                Some(v) => expected == Some(v@),
                None => expected is None,
            }
        }),
{
    if onsets.len() < 2 {
        let mut out: Vec<TempoResult> = Vec::new();
        out.push(
            TempoResult {
                bpm: Double::from_ratio(100, 1),
                offset: Double::from_bits(0),
                fitness: Double::from_ratio(1, 1),
            },
        );
        assert(out@ =~= seq![placeholder()]);
        return Some(out);
    }
    let found = match try_scan_intervals(onsets, sample_rate, opts.min_bpm, opts.max_bpm, &cosines.coarse) {
        Some(found) => found,
        None => {
            return None;
        },
    };
    let mut tempo: Vec<TempoResult> = Vec::new();
    let ghost all = found@.map_values(|c: IntervalCandidate| result_of(c));
    let mut i: usize = 0;
    while i < found.len()
        invariant
            i <= found@.len(),
            all == found@.map_values(|c: IntervalCandidate| result_of(c)),
            tempo@ == all.take(i as int),
        decreases found@.len() - i,
    {
        let c = found[i];
        assert(all.take(i + 1) =~= all.take(i as int).push(all[i as int]));
        tempo.push(TempoResult { bpm: c.bpm, offset: Double::from_bits(0), fitness: c.fitness });
        i = i + 1;
    }
    assert(tempo@ =~= all);
    let mut tempo = sort_by_fitness(&tempo);
    remove_duplicates(&mut tempo);
    let longest = find_interval(sample_rate, opts.min_bpm);
    proof {
        lemma2_to64();
        assert(window_length(0) == 2048);
    }
    let mut gapdata = GapData::new(longest, 0, &cosines.fine);
    let tempo = match try_round_bpm_values(&mut gapdata, onsets, sample_rate, longest, &tempo) {
        Some(tempo) => tempo,
        None => {
            return None;
        },
    };
    let mut tempo = match try_judge(&mut gapdata, onsets, sample_rate, longest, tempo) {
        Some(tempo) => tempo,
        None => {
            return None;
        },
    };
    tempo.truncate(3);
    Some(tempo)
}

/// Finds the tempo candidates of some onsets.
pub fn calculate_bpm(onsets: &[Onset], sample_rate: u32, opts: &DetectOptions, cosines: &Cosines) -> (r: Vec<
    TempoResult,
>)
    requires
        cosines.well_formed(),
        tempos(onsets@, hamming(cosines.coarse@), hamming(cosines.fine@), sample_rate, *opts) is Some,
    ensures
        tempos(onsets@, hamming(cosines.coarse@), hamming(cosines.fine@), sample_rate, *opts) == Some(r@),
{
    try_calculate_bpm(onsets, sample_rate, opts, cosines).unwrap()
}

proof fn lemma_inserted(s: Seq<TempoResult>, t: TempoResult)
    requires
        descending(s),
    ensures
        descending(inserted(s, t)),
        inserted(s, t).len() == s.len() + 1,
        inserted(s, t).to_multiset() =~= s.to_multiset().insert(t),
        forall|i: int|
            0 <= i < inserted(s, t).len() ==> (#[trigger] inserted(s, t)[i]) == t || s.contains(inserted(s, t)[i]),
    decreases s.len(),
{
    broadcast use vstd::seq_lib::group_to_multiset_ensures;

    if s.len() > 0 && s.last().fitness.total_place() < t.fitness.total_place() {
        let rest = s.drop_last();
        lemma_inserted(rest, t);
        let a = inserted(rest, t);
        assert(s =~= rest.push(s.last()));
        assert forall|i: int| 0 <= i < a.len() implies (#[trigger] a[i]).fitness.total_place()
            >= s.last().fitness.total_place() by {
            if a[i] != t {
                let j = choose|j: int| 0 <= j < rest.len() && rest[j] == a[i];
                assert(s[j] == a[i]);
                assert(s[s.len() - 1] == s.last());
            }
        }
        assert forall|i: int| 0 <= i < a.push(s.last()).len() implies (#[trigger] a.push(s.last())[i]) == t
            || s.contains(a.push(s.last())[i]) by {
            if i < a.len() {
                if a[i] != t {
                    let j = choose|j: int| 0 <= j < rest.len() && rest[j] == a[i];
                    assert(s[j] == a[i]);
                }
            } else {
                assert(s[s.len() - 1] == s.last());
            }
        }
    } else {
        let a = s.push(t);
        assert forall|i: int, j: int| 0 <= i <= j < a.len() implies (#[trigger] a[i]).fitness.total_place() >= (
        #[trigger] a[j]).fitness.total_place() by {
            if j == s.len() && i < s.len() {
                assert(s[i].fitness.total_place() >= s[s.len() - 1].fitness.total_place());
            }
        }
        assert forall|i: int| 0 <= i < a.len() implies (#[trigger] a[i]) == t || s.contains(a[i]) by {
            if i < s.len() {
                assert(a[i] == s[i]);
            }
        }
    }
}

/// Sorting orders the candidates by fitness and keeps all of them.
pub proof fn lemma_sorted(s: Seq<TempoResult>)
    ensures
        descending(sorted(s)),
        sorted(s).to_multiset() =~= s.to_multiset(),
    decreases s.len(),
{
    broadcast use vstd::seq_lib::group_to_multiset_ensures;

    if s.len() > 0 {
        lemma_sorted(s.drop_last());
        lemma_inserted(sorted(s.drop_last()), s.last());
        assert(s =~= s.drop_last().push(s.last()));
    }
}

/// What stays beside a kept candidate does not duplicate it, and stood there before, in
/// the same order.
proof fn lemma_without(kept: TempoResult, s: Seq<TempoResult>)
    ensures
        forall|i: int| 0 <= i < without(kept, s).len() ==> !duplicates(kept, #[trigger] without(kept, s)[i]),
        forall|i: int| 0 <= i < without(kept, s).len() ==> s.contains(#[trigger] without(kept, s)[i]),
        descending(s) ==> descending(without(kept, s)),
    decreases s.len(),
{
    if s.len() > 0 {
        let rest = s.drop_last();
        let last = s.last();
        lemma_without(kept, rest);
        let a = without(kept, rest);
        assert forall|i: int| 0 <= i < a.len() implies s.contains(#[trigger] a[i]) by {
            let j = choose|j: int| 0 <= j < rest.len() && rest[j] == a[i];
            assert(s[j] == a[i]);
        }
        assert(s[s.len() - 1] == last);
        if descending(s) {
            assert(descending(rest)) by {
                assert forall|i: int, j: int| 0 <= i <= j < rest.len() implies (#[trigger] rest[i]).fitness.total_place()
                    >= (#[trigger] rest[j]).fitness.total_place() by {
                    assert(s[i] == rest[i] && s[j] == rest[j]);
                }
            }
            if !duplicates(kept, last) {
                let b = a.push(last);
                assert forall|i: int, j: int| 0 <= i <= j < b.len() implies (#[trigger] b[i]).fitness.total_place() >= (
                #[trigger] b[j]).fitness.total_place() by {
                    if j == a.len() && i < a.len() {
                        let k = choose|k: int| 0 <= k < rest.len() && rest[k] == a[i];
                        assert(s[k] == a[i]);
                        assert(s[k].fitness.total_place() >= s[s.len() - 1].fitness.total_place());
                    }
                }
            }
        }
    }
}

/// Whether no candidate before `n` is duplicated by a later one.
spec fn unique_up_to(s: Seq<TempoResult>, n: int) -> bool {
    forall|i: int, j: int| 0 <= i < n && i < j < s.len() ==> !duplicates(#[trigger] s[i], #[trigger] s[j])
}

proof fn lemma_deduplicated_from(s: Seq<TempoResult>, n: int)
    requires
        0 <= n <= s.len(),
        unique_up_to(s, n),
    ensures
        unique_up_to(deduplicated(s, n), deduplicated(s, n).len() as int),
        deduplicated(s, n).len() >= n,
        deduplicated(s, n).take(n) =~= s.take(n),
        descending(s) ==> descending(deduplicated(s, n)),
    decreases s.len() - n,
{
    if n < s.len() {
        let head = s.take(n + 1);
        let tail = s.skip(n + 1);
        let rest = without(s[n], tail);
        let next = head + rest;
        lemma_without(s[n], tail);
        lemma_without_short(s[n], tail);
        assert forall|j: int| n < j < next.len() implies exists|k: int| n < k < s.len() && s[k] == #[trigger] next[j] by {
            let k = choose|k: int| 0 <= k < tail.len() && tail[k] == rest[j - (n + 1)];
            assert(s[k + n + 1] == next[j]);
        }
        assert(unique_up_to(next, n + 1)) by {
            assert forall|i: int, j: int| 0 <= i < n + 1 && i < j < next.len() implies !duplicates(
                #[trigger] next[i],
                #[trigger] next[j],
            ) by {
                assert(next[i] == s[i]);
                if j > n {
                    if i == n {
                        assert(next[j] == rest[j - (n + 1)]);
                    } else {
                        let k = choose|k: int| n < k < s.len() && s[k] == next[j];
                        assert(!duplicates(s[i], s[k]));
                    }
                } else {
                    assert(next[j] == s[j]);
                }
            }
        }
        if descending(s) {
            assert(descending(tail)) by {
                assert forall|i: int, j: int| 0 <= i <= j < tail.len() implies (#[trigger] tail[i]).fitness.total_place()
                    >= (#[trigger] tail[j]).fitness.total_place() by {
                    assert(s[i + n + 1] == tail[i] && s[j + n + 1] == tail[j]);
                }
            }
            assert forall|i: int, j: int| 0 <= i <= j < next.len() implies (#[trigger] next[i]).fitness.total_place()
                >= (#[trigger] next[j]).fitness.total_place() by {
                if j <= n {
                    assert(s[i] == next[i] && s[j] == next[j]);
                } else if i <= n {
                    let k = choose|k: int| n < k < s.len() && s[k] == next[j];
                    assert(s[i] == next[i]);
                    assert(s[i].fitness.total_place() >= s[k].fitness.total_place());
                } else {
                    assert(rest[i - (n + 1)] == next[i] && rest[j - (n + 1)] == next[j]);
                }
            }
        }
        lemma_deduplicated_from(next, n + 1);
        let d = deduplicated(next, n + 1);
        assert(d.take(n) =~= d.take(n + 1).take(n));
        assert(next.take(n + 1).take(n) =~= s.take(n));
    }
}

/// The fittest tempo stays, and no tempo that stays is nearly a fitter one, its double or
/// its half.
pub proof fn lemma_deduplicated(s: Seq<TempoResult>)
    requires
        s.len() > 0,
    ensures
        deduplicated(s, 0).len() > 0,
        deduplicated(s, 0)[0] == s[0],
        forall|i: int, j: int|
            0 <= i < j < deduplicated(s, 0).len() ==> !duplicates(
                #[trigger] deduplicated(s, 0)[i],
                #[trigger] deduplicated(s, 0)[j],
            ),
{
    lemma_deduplicated_from(s, 0);
    let next = s.take(1) + without(s[0], s.skip(1));
    lemma_without(s[0], s.skip(1));
    assert(unique_up_to(next, 1)) by {
        assert forall|a: int, b: int| 0 <= a < 1 && a < b < next.len() implies !duplicates(
            #[trigger] next[a],
            #[trigger] next[b],
        ) by {
            assert(next[b] == without(s[0], s.skip(1))[b - 1]);
        }
    }
    lemma_deduplicated_from(next, 1);
    assert(deduplicated(next, 1).take(1)[0] == next.take(1)[0]);
}

/// Whether some candidates are those at increasing places among others.
pub open spec fn stand_at(kept: Seq<TempoResult>, s: Seq<TempoResult>, places: Seq<int>) -> bool {
    &&& places.len() == kept.len()
    &&& forall|i: int| 0 <= i < places.len() ==> 0 <= (#[trigger] places[i]) < s.len() && kept[i] == s[places[i]]
    &&& forall|i: int, j: int| 0 <= i < j < places.len() ==> (#[trigger] places[i]) < (#[trigger] places[j])
}

/// Whether a candidate duplicates one at a place before it.
pub open spec fn is_duplicated(s: Seq<TempoResult>, places: Seq<int>, j: int) -> bool {
    exists|i: int| 0 <= i < places.len() && (#[trigger] places[i]) < j && duplicates(s[places[i]], s[j])
}

/// The places of the candidates that do not duplicate one.
proof fn lemma_without_places(kept: TempoResult, s: Seq<TempoResult>) -> (places: Seq<int>)
    ensures
        stand_at(without(kept, s), s, places),
        forall|j: int| 0 <= j < s.len() ==> (#[trigger] places.contains(j)) || duplicates(kept, s[j]),
    decreases s.len(),
{
    if s.len() == 0 {
        Seq::empty()
    } else {
        let rest = s.drop_last();
        let before = lemma_without_places(kept, rest);
        let last = s.len() - 1;
        assert(forall|i: int| 0 <= i < rest.len() ==> rest[i] == s[i]);
        assert(stand_at(without(kept, rest), s, before)) by {
            assert forall|i: int| 0 <= i < before.len() implies 0 <= (#[trigger] before[i]) < s.len() && without(
                kept,
                rest,
            )[i] == s[before[i]] by {
                assert(rest[before[i]] == s[before[i]]);
            }
        }
        if duplicates(kept, s.last()) {
            assert forall|j: int| 0 <= j < s.len() implies (#[trigger] before.contains(j)) || duplicates(kept, s[j]) by {
                if j < last {
                    assert(before.contains(j) || duplicates(kept, rest[j]));
                }
            }
            before
        } else {
            let places = before.push(last);
            assert forall|i: int, j: int| 0 <= i < j < places.len() implies (#[trigger] places[i]) < (
            #[trigger] places[j]) by {
                assert(places[i] == before[i]);
                assert(before[i] < rest.len());
            }
            assert forall|i: int| 0 <= i < places.len() implies 0 <= (#[trigger] places[i]) < s.len() && without(
                kept,
                s,
            )[i] == s[places[i]] by {
                if i < before.len() {
                    assert(places[i] == before[i]);
                }
            }
            assert forall|j: int| 0 <= j < s.len() implies (#[trigger] places.contains(j)) || duplicates(kept, s[j]) by {
                if j < last {
                    assert(before.contains(j) || duplicates(kept, rest[j]));
                    if before.contains(j) {
                        let i = choose|i: int| 0 <= i < before.len() && before[i] == j;
                        assert(places[i] == j);
                    }
                } else {
                    assert(places[before.len() as int] == j);
                }
            }
            places
        }
    }
}

/// The place of a candidate before the later ones that duplicate the one at `n` were
/// removed.
spec fn earlier_place(n: int, tail: Seq<int>, i: int) -> int {
    if i <= n {
        i
    } else {
        n + 1 + tail[i - (n + 1)]
    }
}

/// The places of the candidates that stay.
proof fn lemma_deduplicated_places(s: Seq<TempoResult>, n: int) -> (places: Seq<int>)
    requires
        0 <= n <= s.len(),
    ensures
        stand_at(deduplicated(s, n), s, places),
        places.len() >= n,
        forall|i: int| 0 <= i < n ==> (#[trigger] places[i]) == i,
        forall|j: int| 0 <= j < s.len() ==> (#[trigger] places.contains(j)) || is_duplicated(s, places, j),
    decreases s.len() - n,
{
    if n == s.len() {
        let places = Seq::new(s.len(), |i: int| i);
        assert forall|j: int| 0 <= j < s.len() implies #[trigger] places.contains(j) by {
            assert(places[j] == j);
        }
        places
    } else {
        let tail = s.skip(n + 1);
        let next = s.take(n + 1) + without(s[n], tail);
        let p = lemma_without_places(s[n], tail);
        lemma_without_short(s[n], tail);
        let q = lemma_deduplicated_places(next, n + 1);
        let places = Seq::new(q.len(), |i: int| earlier_place(n, p, q[i]));
        assert forall|i: int| 0 <= i < next.len() implies {
            let g = #[trigger] earlier_place(n, p, i);
            0 <= g < s.len() && next[i] == s[g]
        } by {
            if i > n {
                let k = i - (n + 1);
                assert(0 <= p[k] < tail.len());
                assert(next[i] == without(s[n], tail)[k]);
                assert(tail[p[k]] == s[n + 1 + p[k]]);
            }
        }
        assert forall|a: int, b: int| 0 <= a < b < next.len() implies (#[trigger] earlier_place(n, p, a)) < (
        #[trigger] earlier_place(n, p, b)) by {
            if b > n {
                assert(0 <= p[b - (n + 1)]);
                if a > n {
                    assert(p[a - (n + 1)] < p[b - (n + 1)]);
                }
            }
        }
        let d = deduplicated(s, n);
        assert forall|i: int| 0 <= i < places.len() implies 0 <= (#[trigger] places[i]) < s.len() && d[i]
            == s[places[i]] by {
            assert(0 <= q[i] < next.len());
            assert(places[i] == earlier_place(n, p, q[i]));
        }
        assert forall|i: int, j: int| 0 <= i < j < places.len() implies (#[trigger] places[i]) < (#[trigger] places[j]) by {
            assert(0 <= q[i] < next.len() && 0 <= q[j] < next.len());
            assert(q[i] < q[j]);
            assert(earlier_place(n, p, q[i]) < earlier_place(n, p, q[j]));
        }
        assert forall|i: int| 0 <= i < n implies (#[trigger] places[i]) == i by {
            assert(q[i] == i);
        }
        assert forall|j: int| 0 <= j < s.len() implies (#[trigger] places.contains(j)) || is_duplicated(s, places, j) by {
            if j <= n {
                assert(q[j] == j);
                assert(places[j] == j);
            } else {
                let t = j - (n + 1);
                assert(tail[t] == s[j]);
                if p.contains(t) {
                    let a = choose|a: int| 0 <= a < p.len() && p[a] == t;
                    let i = n + 1 + a;
                    assert(earlier_place(n, p, i) == j);
                    assert(q.contains(i) || is_duplicated(next, q, i));
                    if q.contains(i) {
                        let k = choose|k: int| 0 <= k < q.len() && q[k] == i;
                        assert(places[k] == j);
                    } else {
                        let k = choose|k: int|
                            0 <= k < q.len() && (#[trigger] q[k]) < i && duplicates(next[q[k]], next[i]);
                        assert(0 <= q[k] < next.len());
                        assert(earlier_place(n, p, q[k]) < earlier_place(n, p, i));
                        assert(places[k] == earlier_place(n, p, q[k]));
                        assert(duplicates(s[places[k]], s[j]));
                    }
                } else {
                    assert(duplicates(s[n], tail[t]));
                    assert(q[n] == n);
                    assert(places[n] == n);
                    assert(duplicates(s[places[n]], s[j]));
                }
            }
        }
        places
    }
}

/// What stays is some of the candidates in their order, and every other one is nearly one
/// that stays before it, its double or its half.
pub proof fn lemma_removed(s: Seq<TempoResult>)
    ensures
        exists|places: Seq<int>|
            {
                &&& #[trigger] stand_at(deduplicated(s, 0), s, places)
                &&& forall|j: int|
                    0 <= j < s.len() ==> (#[trigger] places.contains(j)) || is_duplicated(s, places, j)
            },
{
    let places = lemma_deduplicated_places(s, 0);
    assert(stand_at(deduplicated(s, 0), s, places));
}

/// A snapped tempo is the tempo or the whole number nearest to it.
pub proof fn lemma_snapped(precise: Precise, bpm: Double)
    ensures
        precise.snapped(bpm) matches Some(r) ==> r == bpm || r == bpm.round(),
{
}

proof fn lemma_rounded(precise: Precise, s: Seq<TempoResult>, n: int)
    requires
        0 <= n <= s.len(),
        precise.rounded(s, n) is Some,
    ensures
        precise.rounded(s, n).unwrap().len() == n,
        forall|i: int|
            0 <= i < n ==> (#[trigger] precise.rounded(s, n).unwrap()[i]).fitness == s[i].fitness,
    decreases n,
{
    if n > 0 {
        lemma_rounded(precise, s, n - 1);
    }
}

/// At most three candidates are given, the fittest first.
pub proof fn lemma_tempos(
    onsets: Seq<Onset>,
    coarse: Seq<Double>,
    fine: Seq<Double>,
    sample_rate: u32,
    opts: DetectOptions,
)
    ensures
        tempos(onsets, coarse, fine, sample_rate, opts) matches Some(s) ==> s.len() <= 3 && descending(s),
{
    if onsets.len() >= 2 && tempos(onsets, coarse, fine, sample_rate, opts) is Some {
        let found = scan(onsets, coarse, sample_rate, opts.min_bpm, opts.max_bpm).unwrap();
        let precise = Precise {
            onsets,
            window: fine,
            sample_rate,
            longest: interval_for(sample_rate, opts.min_bpm),
        };
        let first = sorted(found.map_values(|c: IntervalCandidate| result_of(c)));
        let distinct = deduplicated(first, 0);
        lemma_sorted(found.map_values(|c: IntervalCandidate| result_of(c)));
        lemma_deduplicated_from(first, 0);
        lemma_rounded(precise, distinct, distinct.len() as int);
        let whole = precise.rounded(distinct, distinct.len() as int).unwrap();
        assert(descending(whole)) by {
            assert forall|i: int, j: int| 0 <= i <= j < whole.len() implies (#[trigger] whole[i]).fitness.total_place()
                >= (#[trigger] whole[j]).fitness.total_place() by {
                assert(distinct[i].fitness.total_place() >= distinct[j].fitness.total_place());
            }
        }
        lemma_sorted(precise.rated(whole));
        let s = precise.judged(whole).unwrap();
        assert(descending(s));
        let b = best_three(s);
        assert forall|i: int, j: int| 0 <= i <= j < b.len() implies (#[trigger] b[i]).fitness.total_place() >= (
        #[trigger] b[j]).fitness.total_place() by {
            assert(s[i] == b[i] && s[j] == b[j]);
        }
    }
}

} // verus!
