//! The tempos that a scan finds are those of its intervals, within the range of tempos.

use crate::arith::quotient_to;
use crate::bpm::{
    best_three, deduplicated, lemma_deduplicated, lemma_removed, lemma_sorted, result_of, sorted, stand_at, tempos,
    Precise,
};
use crate::convert::{lemma_exact, lemma_exact_integer};
use crate::double::{lemma_build, lemma_round_exact, one_units, ratio, round, zero, Double, TOP};
use crate::gapdata::{fractional_confidence, interval_confidence, whole_interval};
use crate::grain::lemma_magnitude_ordered;
use crate::interval::{
    best_index, bpm_of, coarse_count, interval_for, lemma_best_fitness, lemma_candidates, lemma_threshold,
    samples_per_minute, scan, task_of, IntervalCandidate, Task,
};
use crate::phase::lemma_samples_per_minute;
use crate::polyfit::{cubic_fit, polynomial};
use crate::precision::lemma_value_order;
use crate::rounding::{encode, lemma_encode_ordered, lemma_encode_scale};
use crate::{equal_votes, DetectOptions, Onset, TempoResult, Work};
use vstd::arithmetic::div_mod::*;
use vstd::arithmetic::power2::*;
use vstd::prelude::*;

verus! {

/// The tempo of a whole number of samples per beat is the number of samples per minute
/// divided by it, rounded once.
proof fn lemma_tempo_of(sample_rate: u32, interval: nat)
    requires
        0 < interval < TOP,
    ensures
        samples_per_minute(sample_rate) / ratio(interval, 1) == ratio(60 * sample_rate as nat, interval),
{
    broadcast use lemma_build;

    reveal(quotient_to);
    let one = one_units();
    let s = 60 * sample_rate as nat;
    lemma_pow2_pos(1074);
    lemma_samples_per_minute(sample_rate);
    lemma_exact_integer(interval);
    lemma_encode_scale(TOP as nat, s * one, interval, one);
    assert(interval * one > 0) by (nonlinear_arith)
        requires
            interval > 0,
            one > 0,
    ;
    assert(ratio(interval, 1).code() != 0) by {
        assert(crate::double::decode(0) == 0);
    }
}

/// A quotient by a tempo lies on the same side of a number as the exact quotient.
pub(crate) proof fn lemma_beat_bounds(sample_rate: u32, bpm: Double, m: nat, k: nat)
    requires
        bpm.is_finite(),
        zero().lt(bpm),
        60 * sample_rate * one_units() < pow2(31) * bpm.magnitude(),
        m < TOP,
        k <= 1100,
    ensures
        ({
            let q = samples_per_minute(sample_rate) / bpm;
            let s = 60 * sample_rate as nat * one_units();
            let b = bpm.magnitude();
            &&& b > 0
            &&& q.is_finite()
            &&& !q.negative()
            &&& q.magnitude() <= pow2(1105)
            &&& (m * pow2(k)) * b <= s * one_units() ==> m * pow2(k) <= q.magnitude()
            &&& s * one_units() <= (m * pow2(k)) * b ==> q.magnitude() <= m * pow2(k)
        }),
{
    broadcast use lemma_build;

    reveal(quotient_to);
    let top = TOP as nat;
    let one = one_units();
    let s = 60 * sample_rate as nat * one;
    let b = bpm.magnitude();
    let c = m * pow2(k);
    bpm.lemma_magnitude_positive();
    lemma_pow2_pos(1074);
    lemma_samples_per_minute(sample_rate);
    lemma_exact(false, m, k);
    lemma_exact(false, 1, 1105);
    assert(1 * pow2(1105) == pow2(1105));
    lemma_pow2_adds(31, 1074);
    assert(s * one <= pow2(1105) * b) by (nonlinear_arith)
        requires
            s < pow2(31) * b,
            pow2(1105) == pow2(31) * one,
    ;
    let code = encode(top, s * one, b);
    lemma_encode_ordered(top, s * one, b, pow2(1105), 1);
    lemma_magnitude_ordered(code, encode(top, pow2(1105), 1));
    if c * b <= s * one {
        lemma_encode_ordered(top, c, 1, s * one, b);
        lemma_magnitude_ordered(encode(top, c, 1), code);
    }
    if s * one <= c * b {
        lemma_encode_ordered(top, s * one, b, c, 1);
        lemma_magnitude_ordered(code, encode(top, c, 1));
    }
}

/// Half a sample more, cut to a whole number.
proof fn lemma_rounded_interval(q: Double, m: nat)
    requires
        q.is_finite(),
        !q.negative(),
        q.magnitude() <= pow2(1105),
        m < pow2(32),
    ensures
        ({
            let n = (q + ratio(1, 2)).to_index();
            &&& n <= pow2(31) + 1
            &&& n < usize::MAX ==> {
                &&& (2 * m + 1) * pow2(1073) <= q.magnitude() ==> n >= m + 1
                &&& q.magnitude() <= (4096 * m + 2047) * pow2(1062) ==> n <= m
            }
        }),
{
    broadcast use lemma_build;

    reveal(Double::to_index);
    let one = one_units();
    let h = ratio(1, 2);
    let x = q + h;
    lemma2_to64();
    lemma2_to64_rest();
    lemma_pow2_pos(1074);
    lemma_pow2_pos(1062);
    lemma_pow2_adds(12, 1062);
    lemma_pow2_adds(11, 1062);
    lemma_pow2_adds(31, 1074);
    lemma_pow2_unfold(1074);
    lemma_pow2_unfold(1106);
    lemma_pow2_strictly_increases(1073, 1105);
    crate::eval::lemma_one_half();
    lemma_exact_integer(m + 1);
    lemma_exact_integer(pow2(31) + 1);
    crate::peaks::lemma_sum_bounded(q, h, ratio(m + 1, 1), 1106);
    crate::peaks::lemma_sum_bounded(q, h, zero(), 1106);
    crate::peaks::lemma_sum_bounded(q, h, ratio(pow2(31) + 1, 1), 1106);
    assert(zero().value() == 0);
    lemma_value_order(zero(), x);
    if x.negative() {
        assert(x.code() == 0 || x.magnitude() > 0) by {
            if x.code() > 0 {
                x.lemma_magnitude_positive();
            }
        }
    }
    let p = pow2(1062);
    let w = x.whole();
    lemma_fundamental_div_mod(x.magnitude() as int, one as int);
    lemma_mod_bound(x.magnitude() as int, one as int);
    assert((pow2(31) + 1) * one == pow2(1105) + one) by (nonlinear_arith)
        requires
            pow2(1105) == pow2(31) * one,
    ;
    assert(w <= pow2(31) + 1) by (nonlinear_arith)
        requires
            one * w <= (pow2(31) + 1) * one,
            one > 0,
    ;
    if (2 * m + 1) * pow2(1073) <= q.magnitude() {
        assert((2 * m + 1) * pow2(1073) + pow2(1073) == (m + 1) * one) by (nonlinear_arith)
            requires
                one == 2 * pow2(1073),
        ;
        assert(w >= m + 1) by (nonlinear_arith)
            requires
                x.magnitude() >= (m + 1) * one,
                x.magnitude() == one * w + x.magnitude() % one,
                x.magnitude() % one < one,
                one > 0,
        ;
    }
    if q.magnitude() <= (4096 * m + 2047) * p {
        let c = 4096 * m + 4095;
        lemma_exact(false, c, 1062);
        crate::peaks::lemma_sum_bounded(q, h, round(false, c * p, 1), 1106);
        assert((4096 * m + 2047) * p + pow2(1073) == c * p) by (nonlinear_arith)
            requires
                pow2(1073) == 2048 * p,
                c == 4096 * m + 4095,
        ;
        assert(w <= m) by (nonlinear_arith)
            requires
                one * w <= c * p,
                c == 4096 * m + 4095,
                one == 4096 * p,
                p > 0,
        ;
    }
}

/// Whether a beat of a tempo is less than two to the 31 samples.
pub open spec fn is_brisk(sample_rate: u32, bpm: Double) -> bool {
    &&& bpm.is_finite()
    &&& zero().lt(bpm)
    &&& 60 * sample_rate * one_units() < pow2(31) * bpm.magnitude()
}

/// The interval of a tempo is the whole number of samples nearest to a beat: it is longer
/// than half a sample less than a beat, but for a tie or a part in 4096 of a sample, and
/// shorter than half a sample more.
pub proof fn lemma_interval_nearest(sample_rate: u32, bpm: Double)
    requires
        is_brisk(sample_rate, bpm),
        interval_for(sample_rate, bpm) < usize::MAX,
    ensures
        ({
            let minute = 60 * sample_rate * one_units();
            let n = interval_for(sample_rate, bpm);
            &&& 2 * minute < (2 * n + 1) * bpm.magnitude()
            &&& (4096 * n - 2049) * bpm.magnitude() < 4096 * minute
        }),
{
    let one = one_units();
    let s = 60 * sample_rate as nat * one;
    let b = bpm.magnitude();
    let n = interval_for(sample_rate, bpm);
    let q = samples_per_minute(sample_rate) / bpm;
    lemma2_to64();
    lemma2_to64_rest();
    lemma_pow2_unfold(1074);
    lemma_pow2_pos(1062);
    lemma_pow2_adds(12, 1062);
    lemma_beat_bounds(sample_rate, bpm, 0, 0);
    lemma_rounded_interval(q, 0);
    let h = pow2(1073);
    let p = pow2(1062);
    if 2 * s >= (2 * n + 1) * b {
        let m = 2 * n + 1;
        lemma_beat_bounds(sample_rate, bpm, m, 1073);
        assert((m * h) * b <= s * one) by (nonlinear_arith)
            requires
                2 * s >= m * b,
                one == 2 * h,
        ;
        lemma_rounded_interval(q, n);
    }
    if (4096 * n - 2049) * b >= 4096 * s {
        if n == 0 {
            assert((4096 * n - 2049) * b < 0) by (nonlinear_arith)
                requires
                    n == 0,
                    b > 0,
            ;
        } else {
            let l = (n - 1) as nat;
            let m = 4096 * l + 2047;
            lemma_beat_bounds(sample_rate, bpm, m, 1062);
            assert(s * one <= (m * p) * b) by (nonlinear_arith)
                requires
                    m * b >= 4096 * s,
                    one == 4096 * p,
            ;
            lemma_rounded_interval(q, l);
        }
    }
}

/// The confidence of an interval of a scan.
pub open spec fn confidence_at(onsets: Seq<Onset>, window: Seq<Double>, interval: nat) -> Double {
    interval_confidence(onsets, window, interval, 3)
}

/// The coefficients of the cubic that fits the confidences of every tenth interval from
/// `low` on, each at least a thousandth.
pub open spec fn trend_of(onsets: Seq<Onset>, window: Seq<Double>, low: nat, high: nat) -> Option<Seq<Double>> {
    let count = ((high - low + 9) / 10) as nat;
    cubic_fit(
        Seq::new(count, |k: int| ratio(low + (10 * k) as nat, 1)),
        Seq::new(count, |k: int| confidence_at(onsets, window, low + (10 * k) as nat).max(ratio(1, 1000))),
    )
}

/// How far the confidence of an interval lies above the cubic, where the confidence is at
/// least a thousandth.
pub open spec fn coarse_excess(onsets: Seq<Onset>, window: Seq<Double>, coefs: Seq<Double>, interval: nat) -> Double {
    confidence_at(onsets, window, interval).max(ratio(1, 1000)) - polynomial(
        coefs,
        ratio(interval, 1),
        coefs.len() as int,
    )
}

/// How far the confidence of an interval lies above the cubic, at least a tenth.
pub open spec fn fine_excess(onsets: Seq<Onset>, window: Seq<Double>, coefs: Seq<Double>, interval: nat) -> Double {
    (confidence_at(onsets, window, interval) - polynomial(coefs, ratio(interval, 1), coefs.len() as int)).max(
        ratio(1, 10),
    )
}

/// Whether a candidate is the tempo of an interval, the number of samples per minute divided
/// by it, with the fitness of the same interval.
pub open spec fn is_tempo_at(
    c: IntervalCandidate,
    onsets: Seq<Onset>,
    window: Seq<Double>,
    sample_rate: u32,
    coefs: Seq<Double>,
    interval: nat,
) -> bool {
    &&& 0 < interval < TOP ==> c.bpm == ratio(60 * sample_rate as nat, interval)
    &&& c.fitness == coarse_excess(onsets, window, coefs, interval) || c.fitness == fine_excess(
        onsets,
        window,
        coefs,
        interval,
    )
}

/// What a candidate of a task is.
proof fn lemma_candidate_at(task: Task, coefs: Seq<Double>, sample_rate: u32, i: int, c: IntervalCandidate)
    requires
        0 <= i,
        c == (IntervalCandidate {
            bpm: bpm_of(sample_rate, task.min_interval, i as nat),
            fitness: task.fitness(coefs, i),
        }),
    ensures
        is_tempo_at(c, task.onsets, task.window, sample_rate, coefs, task.min_interval + i as nat),
{
    let n = task.min_interval + i as nat;
    reveal(Task::trend);
    if 0 < n < TOP {
        lemma_tempo_of(sample_rate, n);
    }
    if i % 10 == 0 {
        assert(10 * (i / 10) == i);
    }
}

/// The cubic of a task is that of its range of intervals.
proof fn lemma_trend_of(task: Task)
    ensures
        cubic_fit(task.xs(), task.ys()) == trend_of(
            task.onsets,
            task.window,
            task.min_interval,
            task.min_interval + task.intervals,
        ),
{
    let low = task.min_interval;
    let count = ((low + task.intervals - low + 9) / 10) as nat;
    assert(task.xs() =~= Seq::new(count, |k: int| ratio(low + (10 * k) as nat, 1)));
    assert(task.ys() =~= Seq::new(
        count,
        |k: int| confidence_at(task.onsets, task.window, low + (10 * k) as nat).max(ratio(1, 1000)),
    ));
}

/// Every tempo that a scan finds is that of an interval of the range, the number of samples
/// per minute divided by the interval, and has the fitness of the same interval.
pub proof fn lemma_scan_tempos(
    onsets: Seq<Onset>,
    window: Seq<Double>,
    sample_rate: u32,
    min_bpm: Double,
    max_bpm: Double,
    j: int,
)
    ensures
        scan(onsets, window, sample_rate, min_bpm, max_bpm) matches Some(found) ==> {
            let low = interval_for(sample_rate, max_bpm);
            let high = interval_for(sample_rate, min_bpm);
            &&& low < high
            &&& trend_of(onsets, window, low, high) is Some
            &&& 0 <= j < found.len() ==> exists|n: nat|
                low <= n < high && #[trigger] is_tempo_at(
                    found[j],
                    onsets,
                    window,
                    sample_rate,
                    trend_of(onsets, window, low, high).unwrap(),
                    n,
                )
        },
{
    reveal(scan);
    if let Some(found) = scan(onsets, window, sample_rate, min_bpm, max_bpm) {
        let task = task_of(onsets, window, sample_rate, min_bpm, max_bpm).unwrap();
        lemma_trend_of(task);
        let coefs = cubic_fit(task.xs(), task.ys()).unwrap();
        let count = coarse_count(task.intervals) as int;
        if 0 <= j < found.len() {
            lemma_candidates(task, coefs, sample_rate, count, j);
            let i = choose|i: int|
                0 <= i < task.intervals && found[j] == (IntervalCandidate {
                    bpm: bpm_of(sample_rate, task.min_interval, i as nat),
                    fitness: #[trigger] task.fitness(coefs, i),
                });
            lemma_candidate_at(task, coefs, sample_rate, i, found[j]);
        }
    }
}

/// A scan fails only where the fastest tempo has a longer interval than the slowest, where
/// there are less than 31 intervals, where an interval is shorter than 1024 samples though
/// there are onsets, or where the cubic cannot be fitted.
pub proof fn lemma_scan_succeeds(
    onsets: Seq<Onset>,
    window: Seq<Double>,
    sample_rate: u32,
    min_bpm: Double,
    max_bpm: Double,
)
    ensures
        ({
            let low = interval_for(sample_rate, max_bpm);
            let high = interval_for(sample_rate, min_bpm);
            scan(onsets, window, sample_rate, min_bpm, max_bpm) is Some <==> {
                &&& low + 31 <= high
                &&& onsets.len() > 0 ==> low >= 1024
                &&& trend_of(onsets, window, low, high) is Some
            }
        }),
{
    reveal(scan);
    if let Some(task) = task_of(onsets, window, sample_rate, min_bpm, max_bpm) {
        lemma_trend_of(task);
    }
}

/// Whether a tempo is that of an interval within a range of tempos: the number of samples
/// per minute divided by a whole number of samples. It is not below the slowest tempo, and
/// half a sample more would make it one that is not above the fastest.
pub open spec fn is_tempo_within(sample_rate: u32, min_bpm: Double, max_bpm: Double, bpm: Double, interval: nat) -> bool {
    &&& interval > 0
    &&& bpm == ratio(60 * sample_rate as nat, interval)
    &&& min_bpm.le(bpm)
    &&& ratio(120 * sample_rate as nat, 2 * interval + 1).le(max_bpm)
}

/// The intervals between those of two tempos have the tempos between, up to half a sample.
proof fn lemma_within(sample_rate: u32, min_bpm: Double, max_bpm: Double, n: nat)
    requires
        is_brisk(sample_rate, min_bpm),
        is_brisk(sample_rate, max_bpm),
        0 < interval_for(sample_rate, max_bpm) <= n < interval_for(sample_rate, min_bpm) < usize::MAX,
    ensures
        n < TOP,
        is_tempo_within(sample_rate, min_bpm, max_bpm, ratio(60 * sample_rate as nat, n), n),
{
    broadcast use lemma_build;

    let top = TOP as nat;
    let one = one_units();
    let s = 60 * sample_rate as nat;
    let high = interval_for(sample_rate, min_bpm);
    let low = interval_for(sample_rate, max_bpm);
    lemma_interval_nearest(sample_rate, min_bpm);
    lemma_interval_nearest(sample_rate, max_bpm);
    let a = min_bpm.magnitude();
    let b = max_bpm.magnitude();
    lemma2_to64();
    lemma2_to64_rest();
    lemma_beat_bounds(sample_rate, min_bpm, 0, 0);
    lemma_beat_bounds(sample_rate, max_bpm, 0, 0);
    lemma_rounded_interval(samples_per_minute(sample_rate) / min_bpm, 0);
    lemma_round_exact(min_bpm);
    lemma_round_exact(max_bpm);
    assert(a * n <= (s * one) * 1) by (nonlinear_arith)
        requires
            (4096 * high - 2049) * a < 4096 * (s * one),
            n + 1 <= high,
            a > 0,
    ;
    lemma_encode_ordered(top, a, 1, s * one, n);
    assert((2 * s * one) * 1 <= b * (2 * n + 1)) by (nonlinear_arith)
        requires
            2 * (s * one) < (2 * low + 1) * b,
            low <= n,
            b > 0,
    ;
    lemma_encode_ordered(top, 2 * s * one, 2 * n + 1, b, 1);
    assert(120 * sample_rate as nat == 2 * s);
}

/// Every tempo that a scan of onsets finds lies between the slowest and the fastest one, up
/// to the half sample to which the shortest interval is rounded.
pub proof fn lemma_scan_range(
    onsets: Seq<Onset>,
    window: Seq<Double>,
    sample_rate: u32,
    min_bpm: Double,
    max_bpm: Double,
    j: int,
)
    requires
        onsets.len() > 0,
        is_brisk(sample_rate, min_bpm),
        is_brisk(sample_rate, max_bpm),
        interval_for(sample_rate, min_bpm) < usize::MAX,
    ensures
        scan(onsets, window, sample_rate, min_bpm, max_bpm) matches Some(found) ==> (0 <= j < found.len() ==> exists|
            n: nat,
        |
            #[trigger] is_tempo_within(sample_rate, min_bpm, max_bpm, found[j].bpm, n)),
{
    if let Some(found) = scan(onsets, window, sample_rate, min_bpm, max_bpm) {
        if 0 <= j < found.len() {
            lemma_scan_tempos(onsets, window, sample_rate, min_bpm, max_bpm, j);
            let low = interval_for(sample_rate, max_bpm);
            let high = interval_for(sample_rate, min_bpm);
            let n = choose|n: nat|
                low <= n < high && #[trigger] is_tempo_at(
                    found[j],
                    onsets,
                    window,
                    sample_rate,
                    trend_of(onsets, window, low, high).unwrap(),
                    n,
                );
            assert(low >= 1024) by {
                reveal(scan);
            }
            lemma_within(sample_rate, min_bpm, max_bpm, n);
        }
    }
}

/// The highest fitness of the coarse scan is that of a step, or the least one.
proof fn lemma_peak(task: Task, coefs: Seq<Double>, k: int)
    requires
        0 <= k,
    ensures
        task.peak(coefs, k) == ratio(1, 1000) || exists|i: int|
            0 <= i < k && task.peak(coefs, k) == #[trigger] task.coarse_fitness(coefs, i),
        !task.peak(coefs, k).is_nan(),
    decreases k,
{
    broadcast use lemma_build;

    if k > 0 {
        lemma_peak(task, coefs, k - 1);
        if task.peak(coefs, k) != ratio(1, 1000) && task.peak(coefs, k) != task.coarse_fitness(coefs, k - 1) {
            let i = choose|i: int| 0 <= i < k - 1 && task.peak(coefs, k - 1) == #[trigger] task.coarse_fitness(coefs, i);
            assert(task.peak(coefs, k) == task.coarse_fitness(coefs, i));
        }
    }
}

/// Every step that stands out has its candidate.
proof fn lemma_step_kept(task: Task, coefs: Seq<Double>, sample_rate: u32, c: int, k: int) -> (j: int)
    requires
        0 <= k < c,
        task.threshold(coefs).lt(task.coarse_fitness(coefs, k)),
    ensures
        0 <= j < task.candidates(coefs, sample_rate, c).len(),
        task.candidates(coefs, sample_rate, c)[j] == task.candidate(coefs, sample_rate, k),
    decreases c,
{
    if k < c - 1 {
        lemma_step_kept(task, coefs, sample_rate, c - 1, k)
    } else {
        task.candidates(coefs, sample_rate, c - 1).len() as int
    }
}

/// Whether a candidate is one from the neighborhood of an interval: less than ten samples
/// away, or ten samples shorter. No interval there that is not one of every tenth fits
/// better, and neither does the interval itself.
pub open spec fn is_best_near(
    c: IntervalCandidate,
    onsets: Seq<Onset>,
    window: Seq<Double>,
    sample_rate: u32,
    low: nat,
    high: nat,
    center: nat,
    interval: nat,
) -> bool {
    let coefs = trend_of(onsets, window, low, high).unwrap();
    &&& low <= interval < high
    &&& center - 10 <= interval < center + 10
    &&& is_tempo_at(c, onsets, window, sample_rate, coefs, interval)
    &&& !c.fitness.lt(coarse_excess(onsets, window, coefs, center))
    &&& forall|m: nat|
        low <= m < high && center - 10 <= m < center + 10 && (m - low) % 10 != 0 ==> !c.fitness.lt(
            #[trigger] fine_excess(onsets, window, coefs, m),
        )
}

/// Whether the confidence of one of every tenth intervals lies above the cubic by more than
/// 0.4 times as much as that of any of them, and by more than 0.4 times a thousandth.
pub open spec fn is_prominent(onsets: Seq<Onset>, window: Seq<Double>, low: nat, high: nat, k: nat) -> bool {
    let coefs = trend_of(onsets, window, low, high).unwrap();
    let excess = coarse_excess(onsets, window, coefs, low + 10 * k);
    &&& low + 10 * k < high
    &&& (ratio(1, 1000) * ratio(4, 10)).lt(excess)
    &&& forall|i: nat|
        low + 10 * i < high ==> {
            let other = #[trigger] coarse_excess(onsets, window, coefs, low + 10 * i);
            other.is_nan() || (other * ratio(4, 10)).lt(excess)
        }
}

/// The fitness at a step is that of its interval.
proof fn lemma_step_fitness(task: Task, coefs: Seq<Double>, k: nat)
    ensures
        task.coarse_fitness(coefs, k as int) == coarse_excess(
            task.onsets,
            task.window,
            coefs,
            task.min_interval + 10 * k,
        ),
{
    reveal(Task::trend);
}

/// A prominent step stands out.
proof fn lemma_prominent(task: Task, coefs: Seq<Double>, k: nat)
    requires
        trend_of(task.onsets, task.window, task.min_interval, task.min_interval + task.intervals) == Some(coefs),
        is_prominent(task.onsets, task.window, task.min_interval, task.min_interval + task.intervals, k),
    ensures
        k < coarse_count(task.intervals),
        task.threshold(coefs).lt(task.coarse_fitness(coefs, k as int)),
{
    let count = coarse_count(task.intervals) as int;
    let low = task.min_interval;
    lemma_step_fitness(task, coefs, k);
    lemma_peak(task, coefs, count);
    if task.peak(coefs, count) != ratio(1, 1000) {
        let i = choose|i: int| 0 <= i < count && task.peak(coefs, count) == #[trigger] task.coarse_fitness(coefs, i);
        lemma_step_fitness(task, coefs, i as nat);
        let other = coarse_excess(task.onsets, task.window, coefs, low + 10 * (i as nat));
        assert(other == task.peak(coefs, count));
    }
}

/// The index of the best tempo around a step that stands out.
proof fn lemma_step_best(task: Task, coefs: Seq<Double>, sample_rate: u32, k: nat) -> (best: int)
    requires
        k < coarse_count(task.intervals),
        task.threshold(coefs).lt(task.coarse_fitness(coefs, k as int)),
    ensures
        0 <= best < task.intervals,
        10 * k - 10 <= best < 10 * k + 10,
        task.candidate(coefs, sample_rate, k as int) == (IntervalCandidate {
            bpm: bpm_of(sample_rate, task.min_interval, best as nat),
            fitness: task.fitness(coefs, best),
        }),
        forall|i: int|
            0 <= i < task.intervals && 10 * k - 10 <= i < 10 * k + 10 ==> !task.fitness(coefs, best).lt(
                #[trigger] task.fitness(coefs, i),
            ),
{
    let begin = task.begin(k as int);
    let end = task.end(k as int);
    let all = task.refined(coefs);
    let idx = 10 * (k as int);
    let best = best_index(all, begin, end);
    let own = task.coarse_fitness(coefs, k as int);
    lemma_threshold(task, coefs, coarse_count(task.intervals) as int);
    lemma_best_fitness(all, begin, end, idx);
    assert(task.initial_fitness(coefs, idx) == own);
    assert(all[idx] == own);
    assert(all[best] == task.fitness(coefs, best));
    assert forall|i: int| 0 <= i < task.intervals && 10 * k - 10 <= i < 10 * k + 10 implies !task.fitness(
        coefs,
        best,
    ).lt(#[trigger] task.fitness(coefs, i)) by {
        lemma_best_fitness(all, begin, end, i);
        assert(all[i] == task.fitness(coefs, i));
    }
    best
}

/// The fitness at an index that is not a step is the excess of its interval; the fitness at a
/// step that stands out is, too.
proof fn lemma_fitness_at(task: Task, coefs: Seq<Double>, i: nat)
    ensures
        i % 10 != 0 ==> task.fitness(coefs, i as int) == fine_excess(
            task.onsets,
            task.window,
            coefs,
            task.min_interval + i,
        ),
        i % 10 == 0 && zero().lt(coarse_excess(task.onsets, task.window, coefs, task.min_interval + i))
            ==> task.fitness(coefs, i as int) == coarse_excess(task.onsets, task.window, coefs, task.min_interval + i),
{
    reveal(Task::trend);
    if i % 10 == 0 {
        assert(10 * (i as int / 10) == i);
    } else {
        assert(task.initial_fitness(coefs, i as int) == zero());
    }
}

/// What the best tempo around a prominent step is.
proof fn lemma_best_near(task: Task, coefs: Seq<Double>, sample_rate: u32, k: nat) -> (best: nat)
    requires
        trend_of(task.onsets, task.window, task.min_interval, task.min_interval + task.intervals) == Some(coefs),
        is_prominent(task.onsets, task.window, task.min_interval, task.min_interval + task.intervals, k),
    ensures
        is_best_near(
            task.candidate(coefs, sample_rate, k as int),
            task.onsets,
            task.window,
            sample_rate,
            task.min_interval,
            task.min_interval + task.intervals,
            task.min_interval + 10 * k,
            task.min_interval + best,
        ),
{
    let low = task.min_interval;
    lemma_prominent(task, coefs, k);
    let best = lemma_step_best(task, coefs, sample_rate, k);
    let c = task.candidate(coefs, sample_rate, k as int);
    lemma_candidate_at(task, coefs, sample_rate, best, c);
    lemma_step_fitness(task, coefs, k);
    lemma_threshold(task, coefs, coarse_count(task.intervals) as int);
    lemma_fitness_at(task, coefs, 10 * k);
    assert(!task.fitness(coefs, best).lt(task.fitness(coefs, (10 * k) as int)));
    assert forall|m: nat|
        low <= m < low + task.intervals && low + 10 * k - 10 <= m < low + 10 * k + 10 && (m - low) % 10 != 0 implies
    !c.fitness.lt(#[trigger] fine_excess(task.onsets, task.window, coefs, m)) by {
        let i = (m - low) as nat;
        lemma_fitness_at(task, coefs, i);
        assert(!task.fitness(coefs, best).lt(task.fitness(coefs, i as int)));
    }
    best as nat
}

/// No interval that is prominent is missed: a scan finds the best tempo nearby.
pub proof fn lemma_scan_complete(
    onsets: Seq<Onset>,
    window: Seq<Double>,
    sample_rate: u32,
    min_bpm: Double,
    max_bpm: Double,
    k: nat,
)
    requires
        scan(onsets, window, sample_rate, min_bpm, max_bpm) is Some,
        is_prominent(onsets, window, interval_for(sample_rate, max_bpm), interval_for(sample_rate, min_bpm), k),
    ensures
        ({
            let found = scan(onsets, window, sample_rate, min_bpm, max_bpm).unwrap();
            let low = interval_for(sample_rate, max_bpm);
            let high = interval_for(sample_rate, min_bpm);
            exists|j: int, n: nat|
                0 <= j < found.len() && #[trigger] is_best_near(
                    found[j],
                    onsets,
                    window,
                    sample_rate,
                    low,
                    high,
                    low + 10 * k,
                    n,
                )
        }),
{
    reveal(scan);
    let found = scan(onsets, window, sample_rate, min_bpm, max_bpm).unwrap();
    let low = interval_for(sample_rate, max_bpm);
    let high = interval_for(sample_rate, min_bpm);
    let task = task_of(onsets, window, sample_rate, min_bpm, max_bpm).unwrap();
    let coefs = cubic_fit(task.xs(), task.ys()).unwrap();
    lemma_trend_of(task);
    lemma_prominent(task, coefs, k);
    let j = lemma_step_kept(task, coefs, sample_rate, coarse_count(task.intervals) as int, k as int);
    let best = lemma_best_near(task, coefs, sample_rate, k);
    assert(is_best_near(found[j], onsets, window, sample_rate, low, high, low + 10 * k, low + best));
}

/// What a snapped candidate is.
proof fn lemma_rounded_at(precise: Precise, s: Seq<TempoResult>, n: int, i: int)
    requires
        0 <= i < n <= s.len(),
        precise.rounded(s, n) is Some,
    ensures
        precise.rounded(s, n).unwrap().len() == n,
        precise.snapped(s[i].bpm) is Some,
        precise.rounded(s, n).unwrap()[i] == (TempoResult { bpm: precise.snapped(s[i].bpm).unwrap(), ..s[i] }),
    decreases n,
{
    reveal_with_fuel(Precise::rounded, 2);
    if n > 1 {
        if i < n - 1 {
            lemma_rounded_at(precise, s, n - 1, i);
        } else {
            lemma_rounded_at(precise, s, n - 1, 0);
        }
    }
}

/// What is sorted was there before.
proof fn lemma_sorted_from(s: Seq<TempoResult>, i: int) -> (k: int)
    requires
        0 <= i < sorted(s).len(),
    ensures
        0 <= k < s.len(),
        s[k] == sorted(s)[i],
        sorted(s).len() == s.len(),
{
    broadcast use vstd::seq_lib::group_to_multiset_ensures;

    lemma_sorted(s);
    let x = sorted(s)[i];
    assert(sorted(s).contains(x));
    assert(s.to_multiset().count(x) > 0);
    assert(s.contains(x));
    assert(sorted(s).to_multiset().len() == s.to_multiset().len());
    choose|k: int| 0 <= k < s.len() && s[k] == x
}

/// Whether a tempo comes from another: it is the same, or the whole number nearest to it
/// where that is less than a twentieth away. It is the whole number where that is less than
/// a hundredth away.
pub open spec fn is_snapped(from: Double, to: Double) -> bool {
    let away = (from - from.round()).abs();
    &&& to == from || (to == from.round() && away.lt(ratio(1, 20)))
    &&& away.lt(ratio(1, 100)) ==> to == from.round()
}

/// A snapped tempo comes from the tempo.
proof fn lemma_snapped_from(precise: Precise, bpm: Double)
    requires
        precise.snapped(bpm) is Some,
    ensures
        is_snapped(bpm, precise.snapped(bpm).unwrap()),
{
    let one = one_units();
    lemma_encode_scale(TOP as nat, 1 * one, 20, 5);
    assert((1 * one) * 5 == 5 * one);
    assert(ratio(5, 100) == ratio(1, 20));
    crate::convert::lemma_ratio_ordered(1, 100, 1, 20);
}

/// What the candidates of the detection are made of.
spec fn all_tempos(found: Seq<IntervalCandidate>) -> Seq<TempoResult> {
    found.map_values(|c: IntervalCandidate| result_of(c))
}

/// The checks at full precision of a detection.
spec fn precise_of(onsets: Seq<Onset>, fine: Seq<Double>, sample_rate: u32, opts: DetectOptions) -> Precise {
    Precise { onsets, window: fine, sample_rate, longest: interval_for(sample_rate, opts.min_bpm) }
}

/// Where a candidate of the detection comes from in the scan.
proof fn lemma_tempo_from(
    onsets: Seq<Onset>,
    coarse: Seq<Double>,
    fine: Seq<Double>,
    sample_rate: u32,
    opts: DetectOptions,
    j: int,
) -> (k: int)
    requires
        onsets.len() >= 2,
        tempos(onsets, coarse, fine, sample_rate, opts) is Some,
        0 <= j < tempos(onsets, coarse, fine, sample_rate, opts).unwrap().len(),
    ensures
        scan(onsets, coarse, sample_rate, opts.min_bpm, opts.max_bpm) is Some,
        ({
            let found = scan(onsets, coarse, sample_rate, opts.min_bpm, opts.max_bpm).unwrap();
            let t = tempos(onsets, coarse, fine, sample_rate, opts).unwrap()[j];
            &&& 0 <= k < found.len()
            &&& is_snapped(found[k].bpm, t.bpm)
            &&& t.offset == zero()
        }),
{
    let found = scan(onsets, coarse, sample_rate, opts.min_bpm, opts.max_bpm).unwrap();
    let precise = precise_of(onsets, fine, sample_rate, opts);
    let all = all_tempos(found);
    let first = sorted(all);
    let distinct = deduplicated(first, 0);
    let whole = precise.rounded(distinct, distinct.len() as int).unwrap();
    let judged = precise.judged(whole).unwrap();
    let s = best_three(judged);
    assert(tempos(onsets, coarse, fine, sample_rate, opts) == Some(s));
    assert(s[j] == judged[j]);
    let a = if precise.close(whole) {
        lemma_sorted_from(precise.rated(whole), j)
    } else {
        j
    };
    assert(whole.len() == distinct.len()) by {
        if distinct.len() > 0 {
            lemma_rounded_at(precise, distinct, distinct.len() as int, 0);
        }
    }
    assert(judged[j].bpm == whole[a].bpm && judged[j].offset == whole[a].offset);
    lemma_rounded_at(precise, distinct, distinct.len() as int, a);
    lemma_snapped_from(precise, distinct[a].bpm);
    lemma_removed(first);
    let places = choose|places: Seq<int>| #[trigger] stand_at(distinct, first, places);
    assert(0 <= places[a] < first.len() && distinct[a] == first[places[a]]);
    lemma_sorted_from(all, places[a])
}

/// Every tempo that the detection gives is that of an interval within the range of tempos,
/// or the whole number nearest to it; no candidate has an offset yet. Where there are less
/// than two onsets, a tempo of 100 stands for what is not known.
pub proof fn lemma_tempos_range(
    onsets: Seq<Onset>,
    coarse: Seq<Double>,
    fine: Seq<Double>,
    sample_rate: u32,
    opts: DetectOptions,
    j: int,
)
    requires
        is_brisk(sample_rate, opts.min_bpm),
        is_brisk(sample_rate, opts.max_bpm),
        interval_for(sample_rate, opts.min_bpm) < usize::MAX,
    ensures
        tempos(onsets, coarse, fine, sample_rate, opts) matches Some(s) ==> {
            &&& onsets.len() < 2 ==> s == seq![
                TempoResult { bpm: ratio(100, 1), offset: ratio(0, 1), fitness: ratio(1, 1) },
            ]
            &&& onsets.len() >= 2 && 0 <= j < s.len() ==> s[j].offset == ratio(0, 1) && exists|bpm: Double, n: nat|
                #[trigger] is_tempo_within(sample_rate, opts.min_bpm, opts.max_bpm, bpm, n) && is_snapped(bpm, s[j].bpm)
        },
{
    broadcast use lemma_build;

    assert(ratio(0, 1) == zero()) by {
        assert(0 * one_units() == 0);
        crate::rounding::lemma_encode_zero(TOP as nat, 1);
    }
    if let Some(s) = tempos(onsets, coarse, fine, sample_rate, opts) {
        if onsets.len() >= 2 && 0 <= j < s.len() {
            let k = lemma_tempo_from(onsets, coarse, fine, sample_rate, opts, j);
            let found = scan(onsets, coarse, sample_rate, opts.min_bpm, opts.max_bpm).unwrap();
            lemma_scan_range(onsets, coarse, sample_rate, opts.min_bpm, opts.max_bpm, k);
            let n = choose|n: nat|
                #[trigger] is_tempo_within(sample_rate, opts.min_bpm, opts.max_bpm, found[k].bpm, n);
            assert(is_snapped(found[k].bpm, s[j].bpm));
        }
    }
}

/// Every tempo that comes out of the whole detection is that of an interval within the range
/// of tempos, or the whole number nearest to it; its offset lies within the first beat.
pub proof fn lemma_detected(work: Work, j: int)
    requires
        work.sample_rate > 0,
        work.onsets().len() >= 2,
        is_brisk(work.sample_rate, work.opts.min_bpm),
        is_brisk(work.sample_rate, work.opts.max_bpm),
        interval_for(work.sample_rate, work.opts.min_bpm) < usize::MAX,
    ensures
        work.results() matches Some(s) ==> s.len() <= 3 && (0 <= j < s.len() ==> {
            &&& exists|bpm: Double, n: nat|
                #[trigger] is_tempo_within(work.sample_rate, work.opts.min_bpm, work.opts.max_bpm, bpm, n) && is_snapped(
                    bpm,
                    s[j].bpm,
                )
            &&& zero().lt(s[j].bpm) ==> zero().le(s[j].offset) && s[j].offset.le(ratio(60, 1) / s[j].bpm)
        }),
{
    if let Some(s) = work.results() {
        let voters = equal_votes(work.onsets());
        let found = tempos(voters, work.coarse, work.fine, work.sample_rate, work.opts).unwrap();
        crate::lemma_results(work);
        crate::phase::lemma_offset_alone(work.samples, work.sample_rate, found);
        if 0 <= j < s.len() {
            lemma_tempos_range(voters, work.coarse, work.fine, work.sample_rate, work.opts, j);
            crate::phase::lemma_offset_of_plateau(work.samples, work.sample_rate, found, j);
            if zero().lt(s[j].bpm) {
                crate::phase::lemma_offsets_within_beats(work.samples, work.sample_rate, found, j);
            }
        }
    }
}

/// Whether the interval of a tempo, to the nearest whole one, is at least 1024 samples and not
/// longer than that of the slowest tempo.
pub open spec fn has_room(sample_rate: u32, min_bpm: Double, bpm: Double) -> bool {
    1024 <= whole_interval(samples_per_minute(sample_rate) / bpm) <= interval_for(sample_rate, min_bpm)
}

/// Snapping succeeds where all intervals have room.
proof fn lemma_rounded_succeeds(precise: Precise, min_bpm: Double, s: Seq<TempoResult>, n: int)
    requires
        precise.longest == interval_for(precise.sample_rate, min_bpm),
        0 <= n <= s.len(),
        forall|i: int|
            0 <= i < s.len() ==> has_room(precise.sample_rate, min_bpm, (#[trigger] s[i]).bpm) && has_room(
                precise.sample_rate,
                min_bpm,
                s[i].bpm.round(),
            ),
    ensures
        precise.rounded(s, n) is Some,
    decreases n,
{
    if n > 0 {
        lemma_rounded_succeeds(precise, min_bpm, s, n - 1);
        assert(has_room(precise.sample_rate, min_bpm, s[n - 1].bpm));
    }
}

/// The detection of tempos succeeds where the scan does and the tempos that it finds, and the
/// whole numbers nearest to them, have room. It gives three candidates, or all where there
/// are less that are distinct.
pub proof fn lemma_tempos_succeed(
    onsets: Seq<Onset>,
    coarse: Seq<Double>,
    fine: Seq<Double>,
    sample_rate: u32,
    opts: DetectOptions,
)
    requires
        onsets.len() >= 2,
        scan(onsets, coarse, sample_rate, opts.min_bpm, opts.max_bpm) is Some,
        ({
            let found = scan(onsets, coarse, sample_rate, opts.min_bpm, opts.max_bpm).unwrap();
            forall|k: int|
                0 <= k < found.len() ==> has_room(sample_rate, opts.min_bpm, (#[trigger] found[k]).bpm) && has_room(
                    sample_rate,
                    opts.min_bpm,
                    found[k].bpm.round(),
                )
        }),
    ensures
        tempos(onsets, coarse, fine, sample_rate, opts) is Some,
        ({
            let found = scan(onsets, coarse, sample_rate, opts.min_bpm, opts.max_bpm).unwrap();
            let distinct = deduplicated(sorted(found.map_values(|c: IntervalCandidate| result_of(c))), 0).len();
            tempos(onsets, coarse, fine, sample_rate, opts).unwrap().len() == if distinct < 3 {
                distinct
            } else {
                3
            }
        }),
{
    let found = scan(onsets, coarse, sample_rate, opts.min_bpm, opts.max_bpm).unwrap();
    let precise = precise_of(onsets, fine, sample_rate, opts);
    let all = all_tempos(found);
    let first = sorted(all);
    let distinct = deduplicated(first, 0);
    let n = distinct.len() as int;
    lemma_removed(first);
    let places = choose|places: Seq<int>| #[trigger] stand_at(distinct, first, places);
    assert forall|i: int| 0 <= i < distinct.len() implies has_room(
        sample_rate,
        opts.min_bpm,
        (#[trigger] distinct[i]).bpm,
    ) && has_room(sample_rate, opts.min_bpm, distinct[i].bpm.round()) by {
        assert(0 <= places[i] < first.len() && distinct[i] == first[places[i]]);
        let k = lemma_sorted_from(all, places[i]);
        assert(all[k].bpm == found[k].bpm);
        assert(has_room(sample_rate, opts.min_bpm, found[k].bpm));
    }
    lemma_rounded_succeeds(precise, opts.min_bpm, distinct, n);
    let whole = precise.rounded(distinct, n).unwrap();
    assert(whole.len() == n) by {
        if n > 0 {
            lemma_rounded_at(precise, distinct, n, 0);
        }
    }
    assert forall|i: int| 0 <= i < whole.len() implies precise.fits((#[trigger] whole[i]).bpm) by {
        lemma_rounded_at(precise, distinct, n, i);
        lemma_snapped_from(precise, distinct[i].bpm);
        assert(has_room(sample_rate, opts.min_bpm, distinct[i].bpm));
    }
    lemma_sorted_length(precise.rated(whole));
}

/// Whether a candidate of a scan is one of the fittest.
pub open spec fn is_fittest(found: Seq<IntervalCandidate>, k: int) -> bool {
    &&& 0 <= k < found.len()
    &&& forall|i: int|
        0 <= i < found.len() ==> (#[trigger] found[i]).fitness.total_place() <= found[k].fitness.total_place()
}

/// Where a scan finds any tempo, the detection gives one. The first is the fittest tempo of
/// the scan, snapped, unless all are rated anew at full precision.
pub proof fn lemma_fittest_kept(
    onsets: Seq<Onset>,
    coarse: Seq<Double>,
    fine: Seq<Double>,
    sample_rate: u32,
    opts: DetectOptions,
)
    requires
        onsets.len() >= 2,
        tempos(onsets, coarse, fine, sample_rate, opts) is Some,
        scan(onsets, coarse, sample_rate, opts.min_bpm, opts.max_bpm).unwrap().len() > 0,
    ensures
        ({
            let found = scan(onsets, coarse, sample_rate, opts.min_bpm, opts.max_bpm).unwrap();
            let s = tempos(onsets, coarse, fine, sample_rate, opts).unwrap();
            &&& s.len() > 0
            &&& {
                ||| exists|k: int| #[trigger]
                    is_fittest(found, k) && s[0].fitness == found[k].fitness && is_snapped(found[k].bpm, s[0].bpm)
                ||| forall|i: int|
                    0 <= i < s.len() ==> (#[trigger] s[i]).fitness == fractional_confidence(
                        onsets,
                        fine,
                        samples_per_minute(sample_rate) / s[i].bpm,
                    )
            }
        }),
{
    let found = scan(onsets, coarse, sample_rate, opts.min_bpm, opts.max_bpm).unwrap();
    let precise = precise_of(onsets, fine, sample_rate, opts);
    let all = all_tempos(found);
    let first = sorted(all);
    let distinct = deduplicated(first, 0);
    let whole = precise.rounded(distinct, distinct.len() as int).unwrap();
    let judged = precise.judged(whole).unwrap();
    let s = best_three(judged);
    assert(tempos(onsets, coarse, fine, sample_rate, opts) == Some(s));
    lemma_sorted(all);
    lemma_sorted_length(all);
    lemma_deduplicated(first);
    lemma_rounded_at(precise, distinct, distinct.len() as int, 0);
    lemma_snapped_from(precise, distinct[0].bpm);
    if precise.close(whole) {
        let rated = precise.rated(whole);
        lemma_sorted_length(rated);
        assert forall|i: int| 0 <= i < s.len() implies (#[trigger] s[i]).fitness == fractional_confidence(
            onsets,
            fine,
            samples_per_minute(sample_rate) / s[i].bpm,
        ) by {
            let k = lemma_sorted_from(rated, i);
            assert(s[i] == rated[k]);
        }
    } else {
        let k = lemma_sorted_from(all, 0);
        assert forall|i: int| 0 <= i < found.len() implies (#[trigger] found[i]).fitness.total_place()
            <= found[k].fitness.total_place() by {
            let l = lemma_sorted_to(all, i);
            assert(first[0].fitness.total_place() >= first[l].fitness.total_place());
            assert(all[i].fitness == found[i].fitness && all[k].fitness == found[k].fitness);
        }
        assert(is_fittest(found, k));
    }
}

/// Sorting keeps the number of candidates.
proof fn lemma_sorted_length(s: Seq<TempoResult>)
    ensures
        sorted(s).len() == s.len(),
{
    broadcast use vstd::seq_lib::group_to_multiset_ensures;

    lemma_sorted(s);
    assert(sorted(s).to_multiset().len() == s.to_multiset().len());
}

/// What was there before is among what is sorted.
proof fn lemma_sorted_to(s: Seq<TempoResult>, i: int) -> (k: int)
    requires
        0 <= i < s.len(),
    ensures
        0 <= k < sorted(s).len(),
        sorted(s)[k] == s[i],
{
    broadcast use vstd::seq_lib::group_to_multiset_ensures;

    lemma_sorted(s);
    let x = s[i];
    assert(s.contains(x));
    assert(sorted(s).to_multiset().count(x) > 0);
    assert(sorted(s).contains(x));
    choose|k: int| 0 <= k < sorted(s).len() && sorted(s)[k] == x
}

} // verus!
