//! Gap confidence: how well a beat interval explains some onsets.
//!
//! The strengths of the onsets are gathered in a histogram of their positions
//! modulo the interval. The confidence is the area of the histogram around its
//! best-supported position under a Hamming window.

use crate::arith::sum_to;
use crate::double::{build, lemma_rebuild, lemma_round_exact, one_units, ratio, zero, Double, INFINITE, SIGN, TOP};
use crate::rounding::lemma_encode_zero;
use crate::window::{hamming, hamming_window};
use crate::Onset;
use vstd::arithmetic::power2::*;
use vstd::prelude::*;

verus! {

/// The length of the analysis window at full resolution.
pub const FULL_WINDOW: usize = 2048;

/// One product under the window: the histogram at `start + j`, wrapped around, times
/// the window at `j`.
pub open spec fn term(histogram: Seq<Double>, window: Seq<Double>, interval: int, start: int, j: int) -> Double {
    histogram[(start + j) % interval] * window[j]
}

/// A sum to which the products for `j` from `from` up to `to` are added in turn.
pub open spec fn area_from(
    sum: Double,
    histogram: Seq<Double>,
    window: Seq<Double>,
    interval: int,
    start: int,
    from: int,
    to: int,
) -> Double
    decreases to - from,
{
    if to <= from {
        sum
    } else {
        area_from(sum, histogram, window, interval, start, from, to - 1) + term(
            histogram,
            window,
            interval,
            start,
            to - 1,
        )
    }
}

/// The first place of the window that does not lie before the histogram.
pub open spec fn left_end(start: int) -> int {
    if start < 0 {
        -start
    } else {
        0
    }
}

/// The first place of the window that lies behind the histogram.
pub open spec fn right_begin(size: int, interval: int, start: int) -> int {
    if interval - start < size {
        interval - start
    } else {
        size
    }
}

/// The area of a histogram around a position under a window, wrapped around both ends
/// of the interval. What wraps at the left is added first, then what wraps at the
/// right, then the rest.
pub open spec fn area(histogram: Seq<Double>, window: Seq<Double>, gap_pos: int, interval: int) -> Double {
    let size = window.len() as int;
    let start = gap_pos - size / 2;
    let left = left_end(start);
    let right = right_begin(size, interval, start);
    let a = area_from(zero(), histogram, window, interval, start, 0, left);
    let b = area_from(a, histogram, window, interval, start, right, size);
    area_from(b, histogram, window, interval, start, left, right)
}

/// The strength of the first `n` onsets whose position is `b`.
pub open spec fn bin(onsets: Seq<Onset>, positions: Seq<usize>, n: int, b: int) -> Double
    decreases n,
{
    if n <= 0 {
        zero()
    } else if positions[n - 1] == b {
        bin(onsets, positions, n - 1, b) + onsets[n - 1].strength
    } else {
        bin(onsets, positions, n - 1, b)
    }
}

/// The histogram of the strengths of onsets at their positions.
pub open spec fn histogram(onsets: Seq<Onset>, positions: Seq<usize>, interval: int) -> Seq<Double> {
    Seq::new(interval as nat, |b: int| bin(onsets, positions, onsets.len() as int, b))
}

/// The confidence of a position: its area, and half the area of its offbeat.
pub open spec fn support(histogram: Seq<Double>, window: Seq<Double>, pos: int, interval: int) -> Double {
    area(histogram, window, pos, interval) + area(histogram, window, (pos + interval / 2) % interval, interval) * ratio(
        1,
        2,
    )
}

/// The highest confidence of the first `n` positions, at least 0.
pub open spec fn highest(
    histogram: Seq<Double>,
    window: Seq<Double>,
    positions: Seq<usize>,
    interval: int,
    n: int,
) -> Double
    decreases n,
{
    if n <= 0 {
        zero()
    } else {
        let before = highest(histogram, window, positions, interval, n - 1);
        let confidence = support(histogram, window, positions[n - 1] as int, interval);
        if before.lt(confidence) {
            confidence
        } else {
            before
        }
    }
}

/// The confidence of an interval with onsets at some positions in it.
pub open spec fn confidence(
    onsets: Seq<Onset>,
    positions: Seq<usize>,
    window: Seq<Double>,
    interval: int,
) -> Double {
    highest(histogram(onsets, positions, interval), window, positions, interval, positions.len() as int)
}

/// The positions of onsets modulo an interval, in steps of two to the `downsample`.
pub open spec fn wrapped(onsets: Seq<Onset>, interval: nat, downsample: nat) -> Seq<usize> {
    onsets.map_values(|o: Onset| (o.pos as nat % interval / pow2(downsample)) as usize)
}

/// Whether a histogram has a bin for every position of some onsets modulo an interval. One
/// as long as the interval has.
pub open spec fn has_bins(bins: nat, onsets: Seq<Onset>, interval: nat, downsample: nat) -> bool {
    ||| interval <= bins
    ||| interval / pow2(downsample) <= bins && forall|i: int|
        0 <= i < onsets.len() ==> (#[trigger] wrapped(onsets, interval, downsample)[i]) < bins
}

/// The confidence of an interval at reduced resolution.
#[verifier::opaque]
pub open spec fn interval_confidence(
    onsets: Seq<Onset>,
    window: Seq<Double>,
    interval: nat,
    downsample: nat,
) -> Double {
    confidence(
        onsets,
        wrapped(onsets, interval, downsample),
        window,
        (interval / pow2(downsample)) as int,
    )
}

/// The whole number of samples nearest to an interval, at least 1.
pub open spec fn whole_interval(interval: Double) -> nat {
    interval.round().max(ratio(1, 1)).to_index()
}

/// The position of an onset modulo an interval that need not be whole.
pub open spec fn fractional_position(pos: usize, interval: Double) -> usize {
    let p = ratio(pos as nat, 1).rem_euclid(interval).to_index();
    let last = whole_interval(interval) - 1;
    if p < last {
        p as usize
    } else {
        last as usize
    }
}

/// The confidence of an interval that need not be whole, at full resolution.
#[verifier::opaque]
pub open spec fn fractional_confidence(onsets: Seq<Onset>, window: Seq<Double>, interval: Double) -> Double {
    confidence(
        onsets,
        onsets.map_values(|o: Onset| fractional_position(o.pos, interval)),
        window,
        whole_interval(interval) as int,
    )
}

/// The highest confidence of some positions is a number that is not negative.
proof fn lemma_highest(histogram: Seq<Double>, window: Seq<Double>, positions: Seq<usize>, interval: int, n: int)
    ensures
        zero().le(highest(histogram, window, positions, interval, n)),
    decreases n,
{
    if n > 0 {
        lemma_highest(histogram, window, positions, interval, n - 1);
    }
}

/// Confidences are numbers that are not negative.
pub proof fn lemma_confidence_not_negative(
    onsets: Seq<Onset>,
    window: Seq<Double>,
    interval: nat,
    downsample: nat,
    interval_f: Double,
)
    ensures
        zero().le(interval_confidence(onsets, window, interval, downsample)),
        zero().le(fractional_confidence(onsets, window, interval_f)),
{
    reveal(interval_confidence);
    reveal(fractional_confidence);
    let a = wrapped(onsets, interval, downsample);
    let m = (interval / pow2(downsample)) as int;
    lemma_highest(histogram(onsets, a, m), window, a, m, a.len() as int);
    let b = onsets.map_values(|o: Onset| fractional_position(o.pos, interval_f));
    let n = whole_interval(interval_f) as int;
    lemma_highest(histogram(onsets, b, n), window, b, n, b.len() as int);
}

/// The length of the analysis window at reduced resolution.
pub open spec fn window_length(downsample: nat) -> nat {
    FULL_WINDOW as nat / pow2(downsample)
}

/// Adding a zero changes no number but the negative zero.
pub proof fn lemma_add_nothing(sum: Double, weight: Double)
    requires
        !sum.is_nan(),
        sum.bits != SIGN,
        weight.is_finite(),
    ensures
        sum + zero() * weight == sum,
{
    reveal(Double::times);
    reveal(sum_to);
    lemma_rebuild(sum);
    let product = zero() * weight;
    lemma_pow2_pos(1074);
    lemma_encode_zero(TOP as nat, one_units());
    assert(0 * weight.magnitude() == 0);
    assert(product == build(weight.negative(), 0));
    if sum.is_finite() {
        if sum.code() > 0 {
            sum.lemma_magnitude_positive();
            lemma_round_exact(sum);
        }
    }
}

/// The buffers with which the confidence of many intervals is found.
pub struct GapData {
    window: Vec<Double>,
    window_size: usize,
    downsample: u32,
    histogram: Vec<Double>,
}

impl GapData {
    /// Whether the parts fit together.
    pub closed spec fn well_formed(self) -> bool {
        &&& self.downsample <= 10
        &&& self.window_size == window_length(self.downsample as nat)
        &&& self.window@.len() == self.window_size
        &&& self.window_size >= 2
        &&& self.window_size <= FULL_WINDOW
    }

    /// The window over the neighborhood of a position.
    pub closed spec fn window_view(self) -> Seq<Double> {
        self.window@
    }

    /// The resolution: positions are taken in steps of two to this.
    pub closed spec fn resolution(self) -> nat {
        self.downsample as nat
    }

    /// The histogram.
    pub closed spec fn bins(self) -> Seq<Double> {
        self.histogram@
    }

    /// The length of the histogram is a machine integer.
    pub proof fn lemma_bins_fit(&self)
        ensures
            self.bins().len() <= usize::MAX,
    {
        vstd::std_specs::vec::axiom_spec_len(&self.histogram);
    }

    /// Makes the buffers for intervals of up to `buffer_size` samples. `cosines` are
    /// those of the angles of the window.
    pub fn new(buffer_size: usize, downsample: u32, cosines: &[Double]) -> (r: GapData)
        requires
            downsample <= 10,
            cosines@.len() == window_length(downsample as nat),
        ensures
            r.well_formed(),
            r.window_view() == hamming(cosines@),
            r.resolution() == downsample,
            r.bins() == Seq::new(buffer_size as nat, |i: int| zero()),
    {
        proof {
            lemma_window_length(downsample as nat);
        }
        let window_size = cosines.len();
        let mut window: Vec<Double> = Vec::new();
        let mut i: usize = 0;
        while i < window_size
            invariant
                i <= window_size,
                window@.len() == i,
            decreases window_size - i,
        {
            window.push(Double::from_bits(0));
            i = i + 1;
        }
        hamming_window(window.as_mut_slice(), cosines);
        let mut histogram: Vec<Double> = Vec::new();
        let mut i: usize = 0;
        while i < buffer_size
            invariant
                i <= buffer_size,
                histogram@.len() == i,
                forall|j: int| 0 <= j < i ==> histogram@[j] == zero(),
            decreases buffer_size - i,
        {
            histogram.push(Double::from_bits(0));
            i = i + 1;
        }
        assert(histogram@ =~= Seq::new(buffer_size as nat, |i: int| zero()));
        GapData { window, window_size, downsample, histogram }
    }

    /// The histogram, to be changed.
    pub fn histogram_mut(&mut self) -> (r: &mut [Double])
        requires
            old(self).well_formed(),
        ensures
            r@ == old(self).bins(),
            final(self).bins() == final(r)@,
            final(self).window_view() == old(self).window_view(),
            final(self).resolution() == old(self).resolution(),
            final(self).well_formed(),
    {
        self.histogram.as_mut_slice()
    }

    /// Adds the products for `j` from `from` up to `to`, whose histogram places follow
    /// each other from `place` on.
    fn add_products(
        &self,
        sum: Double,
        place: usize,
        from: usize,
        to: usize,
        Ghost(interval): Ghost<int>,
        Ghost(start): Ghost<int>,
    ) -> (r: Double)
        requires
            from <= to <= self.window@.len(),
            place + (to - from) <= self.histogram@.len(),
            forall|j: int| from <= j < to ==> (#[trigger] (start + j)) % interval == place + (j - from),
        ensures
            r == area_from(sum, self.histogram@, self.window@, interval, start, from as int, to as int),
    {
        let mut sum = sum;
        let ghost sum0 = sum;
        let end = self.histogram.len();
        let mut j = from;
        while j < to
            invariant
                from <= j <= to <= self.window@.len(),
                end == self.histogram@.len(),
                place + (to - from) <= end,
                forall|j: int| from <= j < to ==> (#[trigger] (start + j)) % interval == place + (j - from),
                sum == area_from(sum0, self.histogram@, self.window@, interval, start, from as int, j as int),
            decreases to - j,
        {
            let h = self.histogram[place + (j - from)];
            let w = self.window[j];
            assert((start + j) % interval == place + (j - from));
            // Most of the histogram is empty.
            if h.bits == 0 && w.get_code() < INFINITE && sum.get_code() <= INFINITE && sum.bits != SIGN {
                proof {
                    lemma_add_nothing(sum, w);
                }
            } else {
                sum = sum + h * w;
            }
            j = j + 1;
        }
        sum
    }

    /// The area of the histogram around a position, wrapped around both ends of the
    /// interval.
    pub fn gap_confidence(&self, gap_pos: usize, interval: usize) -> (r: Double)
        requires
            self.well_formed(),
            interval <= self.bins().len(),
            self.window_view().len() <= 2 * interval,
            gap_pos <= interval || (self.window_view().len() <= interval && gap_pos <= interval
                + self.window_view().len() / 2),
        ensures
            r == area(self.bins(), self.window_view(), gap_pos as int, interval as int),
    {
        proof {
            lemma_window_length(self.downsample as nat);
        }
        let size = self.window_size;
        let half = size / 2;
        let ghost start = gap_pos - half;
        let ghost i = interval as int;
        let left: usize = if gap_pos < half {
            half - gap_pos
        } else {
            0
        };
        let right: usize = if gap_pos > interval {
            half - (gap_pos - interval)
        } else if interval - gap_pos < half {
            interval - gap_pos + half
        } else {
            size
        };
        let mut sum = Double::from_bits(0);
        proof {
            assert forall|j: int| 0 <= j < left implies (#[trigger] (start + j)) % i == interval + start + j by {
                lemma_wrap(start + j, i);
            }
            assert forall|j: int| right <= j < size implies (#[trigger] (start + j)) % i == start + j - interval by {
                lemma_wrap(start + j, i);
            }
            assert forall|j: int| left <= j < right implies (#[trigger] (start + j)) % i == start + j by {
                lemma_wrap(start + j, i);
            }
        }
        if left > 0 {
            sum = self.add_products(sum, interval - left, 0, left, Ghost(i), Ghost(start));
        }
        if right < size {
            sum = self.add_products(sum, 0, right, size, Ghost(i), Ghost(start));
        }
        let begin: usize = if gap_pos < half {
            0
        } else {
            gap_pos - half
        };
        self.add_products(sum, begin, left, right, Ghost(i), Ghost(start))
    }

    /// Fills the histogram and finds the highest confidence.
    fn find_confidence(&mut self, onsets: &[Onset], positions: &Vec<usize>, interval: usize) -> (r: Double)
        requires
            old(self).well_formed(),
            onsets@.len() == positions@.len(),
            interval <= old(self).bins().len(),
            onsets@.len() > 0 ==> old(self).window_view().len() <= 2 * interval,
            forall|i: int|
                0 <= i < positions@.len() ==> (#[trigger] positions@[i]) <= interval && positions@[i]
                    < old(self).bins().len(),
        ensures
            final(self).well_formed(),
            final(self).window_view() == old(self).window_view(),
            final(self).resolution() == old(self).resolution(),
            final(self).bins().len() == old(self).bins().len(),
            r == confidence(onsets@, positions@, old(self).window_view(), interval as int),
    {
        let ghost window = self.window@;
        let n = positions.len();
        let mut i: usize = 0;
        while i < interval
            invariant
                i <= interval <= self.histogram@.len(),
                self.histogram@.len() == old(self).histogram@.len(),
                self.window == old(self).window,
                self.window_size == old(self).window_size,
                self.downsample == old(self).downsample,
                forall|b: int| 0 <= b < i ==> self.histogram@[b] == zero(),
            decreases interval - i,
        {
            self.histogram.set(i, Double::from_bits(0));
            i = i + 1;
        }
        let mut i: usize = 0;
        while i < n
            invariant
                i <= n,
                n == positions@.len(),
                n == onsets@.len(),
                interval <= self.histogram@.len(),
                self.histogram@.len() == old(self).histogram@.len(),
                self.window == old(self).window,
                self.window_size == old(self).window_size,
                self.downsample == old(self).downsample,
                forall|i: int| 0 <= i < positions@.len() ==> (#[trigger] positions@[i]) < self.histogram@.len(),
                forall|b: int| 0 <= b < interval ==> self.histogram@[b] == bin(onsets@, positions@, i as int, b),
            decreases n - i,
        {
            let p = positions[i];
            let x = self.histogram[p] + onsets[i].strength;
            self.histogram.set(p, x);
            i = i + 1;
        }
        let ghost bins = histogram(onsets@, positions@, interval as int);
        let half = Double::from_ratio(1, 2);
        let mut best = Double::from_bits(0);
        let mut i: usize = 0;
        while i < n
            invariant
                i <= n,
                n == positions@.len(),
                n == onsets@.len(),
                half == ratio(1, 2),
                self.well_formed(),
                self.window@ == window,
                self.window == old(self).window,
                self.window_size == old(self).window_size,
                self.downsample == old(self).downsample,
                self.histogram@.len() == old(self).histogram@.len(),
                interval <= self.histogram@.len(),
                n > 0 ==> window.len() <= 2 * interval,
                forall|i: int| 0 <= i < positions@.len() ==> (#[trigger] positions@[i]) <= interval,
                bins == histogram(onsets@, positions@, interval as int),
                forall|b: int| 0 <= b < interval ==> self.histogram@[b] == bins[b],
                best == highest(bins, window, positions@, interval as int, i as int),
            decreases n - i,
        {
            let p = positions[i];
            let a = self.gap_confidence(p, interval);
            let offbeat = offbeat_position(p, interval);
            let b = self.gap_confidence(offbeat, interval);
            proof {
                lemma_area_same(self.histogram@, bins, window, p as int, interval as int);
                lemma_area_same(self.histogram@, bins, window, offbeat as int, interval as int);
            }
            let c = a + b * half;
            if best.less(c) {
                best = c;
            }
            i = i + 1;
        }
        best
    }

    /// The confidence that an interval, in samples at full resolution, is that of the
    /// beat. Onsets count by their strength.
    pub fn confidence_for_interval(&mut self, onsets: &[Onset], interval: usize) -> (r: Double)
        requires
            old(self).well_formed(),
            has_bins(old(self).bins().len(), onsets@, interval as nat, old(self).resolution()),
            onsets@.len() > 0 ==> old(self).window_view().len() <= 2 * (interval as nat / pow2(
                old(self).resolution(),
            )),
        ensures
            final(self).well_formed(),
            final(self).window_view() == old(self).window_view(),
            final(self).resolution() == old(self).resolution(),
            final(self).bins().len() == old(self).bins().len(),
            r == interval_confidence(onsets@, old(self).window_view(), interval as nat, old(self).resolution()),
            zero().le(r),
    {
        let ghost d = self.downsample as nat;
        proof {
            lemma_window_length(d);
            lemma_confidence_not_negative(onsets@, self.window_view(), interval as nat, d, zero());
        }
        reveal(interval_confidence);
        let step: usize = FULL_WINDOW / self.window_size;
        let reduced: usize = interval / step;
        let mut positions: Vec<usize> = Vec::new();
        let mut i: usize = 0;
        proof {
            if onsets@.len() > 0 {
                assert(interval > 0);
            }
        }
        while i < onsets.len()
            invariant
                i <= onsets@.len(),
                onsets@.len() > 0 ==> interval > 0,
                step == pow2(d),
                step > 0,
                reduced == interval / step,
                positions@ == wrapped(onsets@, interval as nat, d).take(i as int),
                forall|j: int| 0 <= j < i ==> positions@[j] <= reduced,
            decreases onsets@.len() - i,
        {
            let p = onsets[i].pos % interval / step;
            proof {
                let all = wrapped(onsets@, interval as nat, d);
                assert(all.take(i + 1) =~= all.take(i as int).push(all[i as int]));
                assert(onsets@[i as int].pos % interval <= interval);
                vstd::arithmetic::div_mod::lemma_div_is_ordered(
                    (onsets@[i as int].pos % interval) as int,
                    interval as int,
                    step as int,
                );
            }
            positions.push(p);
            i = i + 1;
        }
        assert(positions@ =~= wrapped(onsets@, interval as nat, d));
        proof {
            lemma_reduced(interval as nat, step as nat);
            assert forall|i: int| 0 <= i < positions@.len() implies (#[trigger] positions@[i]) < self.bins().len() by {
                if interval <= self.bins().len() {
                    lemma_reduced((onsets@[i].pos % interval) as nat, step as nat);
                } else {
                    assert(wrapped(onsets@, interval as nat, d)[i] < self.bins().len());
                }
            }
        }
        self.find_confidence(onsets, &positions, reduced)
    }

    /// The confidence that an interval, in samples and not necessarily whole, is that of
    /// the beat. Onsets count by their strength.
    pub fn confidence_for_bpm(&mut self, onsets: &[Onset], interval_f: Double) -> (r: Double)
        requires
            old(self).well_formed(),
            old(self).resolution() == 0,
            whole_interval(interval_f) <= old(self).bins().len(),
            onsets@.len() > 0 ==> old(self).window_view().len() <= 2 * whole_interval(interval_f),
        ensures
            final(self).well_formed(),
            final(self).window_view() == old(self).window_view(),
            final(self).resolution() == old(self).resolution(),
            final(self).bins().len() == old(self).bins().len(),
            r == fractional_confidence(onsets@, old(self).window_view(), interval_f),
            zero().le(r),
    {
        proof {
            lemma_confidence_not_negative(onsets@, self.window_view(), 1, 0, interval_f);
        }
        reveal(fractional_confidence);
        let interval = interval_f.round().max(Double::from_ratio(1, 1)).truncate();
        let mut positions: Vec<usize> = Vec::new();
        let mut i: usize = 0;
        let ghost all = onsets@.map_values(|o: Onset| fractional_position(o.pos, interval_f));
        while i < onsets.len()
            invariant
                i <= onsets@.len(),
                interval == whole_interval(interval_f),
                onsets@.len() > 0 ==> interval > 0,
                all == onsets@.map_values(|o: Onset| fractional_position(o.pos, interval_f)),
                positions@ == all.take(i as int),
                forall|j: int| 0 <= j < i ==> positions@[j] < interval,
            decreases onsets@.len() - i,
        {
            let p = Double::from_index(onsets[i].pos).rem_euclid(interval_f).truncate();
            let p = if p < interval - 1 {
                p
            } else {
                interval - 1
            };
            proof {
                assert(all.take(i + 1) =~= all.take(i as int).push(all[i as int]));
            }
            positions.push(p);
            i = i + 1;
        }
        assert(positions@ =~= all);
        self.find_confidence(onsets, &positions, interval)
    }
}

/// Half an interval later, wrapped around.
fn offbeat_position(pos: usize, interval: usize) -> (r: usize)
    requires
        0 < interval,
        pos <= interval,
    ensures
        r == (pos + interval / 2) % interval as int,
        r < interval,
{
    let half = interval / 2;
    proof {
        lemma_wrap(pos + half, interval as int);
    }
    if pos < interval - half {
        pos + half
    } else {
        pos - (interval - half)
    }
}

/// A place less than one interval off wraps once.
proof fn lemma_wrap(x: int, interval: int)
    requires
        interval > 0,
        -interval <= x < 2 * interval,
    ensures
        x % interval == if x < 0 {
            x + interval
        } else if x < interval {
            x
        } else {
            x - interval
        },
{
    if x < 0 {
        vstd::arithmetic::div_mod::lemma_fundamental_div_mod_converse(x, interval, -1, x + interval);
    } else if x < interval {
        vstd::arithmetic::div_mod::lemma_fundamental_div_mod_converse(x, interval, 0, x);
    } else {
        vstd::arithmetic::div_mod::lemma_fundamental_div_mod_converse(x, interval, 1, x - interval);
    }
}

/// A quotient is not larger than what is divided.
proof fn lemma_reduced(n: nat, step: nat)
    requires
        step > 0,
    ensures
        n / step <= n,
{
    vstd::arithmetic::div_mod::lemma_div_nonincreasing(n as int, step as int);
}

/// Windows have an even length.
proof fn lemma_window_length(downsample: nat)
    requires
        downsample <= 10,
    ensures
        2 <= window_length(downsample) <= FULL_WINDOW,
        window_length(downsample) % 2 == 0,
        window_length(downsample) * pow2(downsample) == FULL_WINDOW,
        FULL_WINDOW as nat / window_length(downsample) == pow2(downsample),
{
    lemma2_to64();
    let d = downsample;
    assert(d == 0 || d == 1 || d == 2 || d == 3 || d == 4 || d == 5 || d == 6 || d == 7 || d == 8 || d == 9 || d == 10);
}

/// The area depends on the histogram within the interval alone.
proof fn lemma_area_same(a: Seq<Double>, b: Seq<Double>, window: Seq<Double>, pos: int, interval: int)
    requires
        interval > 0,
        forall|i: int| 0 <= i < interval ==> a[i] == b[i],
    ensures
        area(a, window, pos, interval) == area(b, window, pos, interval),
{
    let size = window.len() as int;
    let start = pos - size / 2;
    let left = left_end(start);
    let right = right_begin(size, interval, start);
    let x = area_from(zero(), a, window, interval, start, 0, left);
    lemma_area_from_same(zero(), a, b, window, interval, start, 0, left);
    let y = area_from(x, a, window, interval, start, right, size);
    lemma_area_from_same(x, a, b, window, interval, start, right, size);
    lemma_area_from_same(y, a, b, window, interval, start, left, right);
}

proof fn lemma_area_from_same(
    sum: Double,
    a: Seq<Double>,
    b: Seq<Double>,
    window: Seq<Double>,
    interval: int,
    start: int,
    from: int,
    to: int,
)
    requires
        interval > 0,
        forall|i: int| 0 <= i < interval ==> a[i] == b[i],
    ensures
        area_from(sum, a, window, interval, start, from, to) == area_from(sum, b, window, interval, start, from, to),
    decreases to - from,
{
    if from < to {
        lemma_area_from_same(sum, a, b, window, interval, start, from, to - 1);
    }
}

} // verus!
