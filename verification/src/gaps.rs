//! What the confidence of an interval is.

use crate::beats::added;
use crate::convert::{lemma_exact_integer, lemma_scaled_mod};
use crate::double::{lemma_build, lemma_rebuild, lemma_round_exact, one_units, ratio, zero, Double, SIGN, TOP};
use crate::gapdata::{
    area, area_from, bin, confidence, fractional_confidence, fractional_position, highest, histogram,
    interval_confidence, left_end, lemma_add_nothing, right_begin, support, whole_interval, wrapped,
};
use crate::precision::{lemma_remainder_exact, lemma_value_order};
use crate::rounding::lemma_quotient;
use crate::silence::{delayed, lemma_whole_sums};
use crate::Onset;
use vstd::arithmetic::div_mod::*;
use vstd::arithmetic::power2::*;
use vstd::prelude::*;

verus! {

/// A bin holds the strengths of the onsets at its position alone.
proof fn lemma_bin(onsets: Seq<Onset>, positions: Seq<usize>, n: int, b: int)
    requires
        0 <= n <= onsets.len(),
        positions.len() == onsets.len(),
    ensures
        bin(onsets, positions, n, b) == added(
            Seq::new(n as nat, |i: int| i).filter(|i: int| positions[i] == b).map_values(|i: int| onsets[i].strength),
        ),
    decreases n,
{
    let f = |i: int| positions[i] == b;
    let g = |i: int| onsets[i].strength;
    let all = Seq::new(n as nat, |i: int| i);
    reveal(Seq::filter);
    if n > 0 {
        lemma_bin(onsets, positions, n - 1, b);
        let before = Seq::new((n - 1) as nat, |i: int| i);
        assert(all.drop_last() =~= before);
        assert(all.last() == n - 1);
        if f(n - 1) {
            let s = before.filter(f).map_values(g);
            assert(before.filter(f).push(n - 1).map_values(g) =~= s.push(onsets[n - 1].strength));
            assert(s.push(onsets[n - 1].strength).drop_last() =~= s);
            reveal_with_fuel(Seq::fold_left, 2);
        }
    } else {
        assert(all =~= Seq::empty());
        assert(Seq::<int>::empty().filter(f).map_values(g) =~= Seq::empty());
    }
}

/// Every bin of a histogram holds the sum of the strengths of the onsets at its position, and
/// of no others.
pub proof fn lemma_histogram(onsets: Seq<Onset>, positions: Seq<usize>, interval: int, b: int)
    requires
        positions.len() == onsets.len(),
        0 <= b < interval,
    ensures
        histogram(onsets, positions, interval).len() == interval,
        histogram(onsets, positions, interval)[b] == added(
            Seq::new(onsets.len(), |i: int| i).filter(|i: int| positions[i] == b).map_values(
                |i: int| onsets[i].strength,
            ),
        ),
{
    lemma_bin(onsets, positions, onsets.len() as int, b);
}

/// The highest confidence of some positions is that of one of them, and none is higher.
proof fn lemma_highest_of(h: Seq<Double>, window: Seq<Double>, positions: Seq<usize>, interval: int, n: int)
    requires
        0 <= n <= positions.len(),
    ensures
        ({
            let top = highest(h, window, positions, interval, n);
            &&& zero().le(top)
            &&& top == zero() || exists|i: int|
                0 <= i < n && top == support(h, window, (#[trigger] positions[i]) as int, interval)
            &&& forall|i: int|
                0 <= i < n ==> !top.lt(support(h, window, (#[trigger] positions[i]) as int, interval))
        }),
    decreases n,
{
    broadcast use lemma_build;

    if n > 0 {
        lemma_highest_of(h, window, positions, interval, n - 1);
        let before = highest(h, window, positions, interval, n - 1);
        if before != zero() {
            let i = choose|i: int|
                0 <= i < n - 1 && before == support(h, window, (#[trigger] positions[i]) as int, interval);
            assert(before == support(h, window, positions[i] as int, interval));
        }
        let own = support(h, window, positions[n - 1] as int, interval);
        assert(own == support(h, window, positions[n - 1] as int, interval));
    }
}

/// The confidence of an interval is the highest support of the position of any onset, or zero
/// where none is positive.
pub proof fn lemma_confidence_highest(onsets: Seq<Onset>, positions: Seq<usize>, window: Seq<Double>, interval: int)
    ensures
        ({
            let top = confidence(onsets, positions, window, interval);
            let h = histogram(onsets, positions, interval);
            &&& zero().le(top)
            &&& top == zero() || exists|i: int|
                0 <= i < positions.len() && top == support(h, window, (#[trigger] positions[i]) as int, interval)
            &&& forall|i: int|
                0 <= i < positions.len() ==> !top.lt(support(h, window, (#[trigger] positions[i]) as int, interval))
        }),
{
    lemma_highest_of(
        histogram(onsets, positions, interval),
        window,
        positions,
        interval,
        positions.len() as int,
    );
}

/// The whole numbers from one up to another.
pub open spec fn places(from: int, to: int) -> Seq<int> {
    Seq::new(
        (if from < to {
            to - from
        } else {
            0
        }) as nat,
        |i: int| from + i,
    )
}

/// The products of a histogram and a window at some places of the window, which starts at a
/// position of the interval and goes round.
pub open spec fn under_window(h: Seq<Double>, window: Seq<Double>, start: int, at: Seq<int>) -> Seq<Double> {
    at.map_values(|j: int| h[(start + j) % (h.len() as int)] * window[j])
}

/// Sums of products, part by part.
proof fn lemma_area_from(h: Seq<Double>, window: Seq<Double>, start: int, at: Seq<int>, from: int, to: int)
    ensures
        area_from(added(under_window(h, window, start, at)), h, window, h.len() as int, start, from, to) == added(
            under_window(h, window, start, at + places(from, to)),
        ),
    decreases to - from,
{
    if from < to {
        lemma_area_from(h, window, start, at, from, to - 1);
        let before = at + places(from, to - 1);
        let after = at + places(from, to);
        let x = h[(start + to - 1) % (h.len() as int)] * window[to - 1];
        assert(after =~= before.push(to - 1));
        assert(under_window(h, window, start, after) =~= under_window(h, window, start, before).push(x)) by {
            assert(start + (to - 1) == start + to - 1);
        }
        let s = under_window(h, window, start, before);
        assert(s.push(x).drop_last() =~= s);
        reveal_with_fuel(Seq::fold_left, 2);
    } else {
        assert(at + places(from, to) =~= at);
    }
}

/// The area around a position is the sum of all products of the window and the histogram
/// under it, with the middle of the window at the position. What lies before the interval
/// comes first, then what lies behind it, then the rest.
pub proof fn lemma_area(h: Seq<Double>, window: Seq<Double>, p: int)
    requires
        0 <= p < h.len(),
    ensures
        ({
            let size = window.len() as int;
            let start = p - size / 2;
            let left = if start < 0 {
                -start
            } else {
                0
            };
            let right = if h.len() - start < size {
                h.len() - start
            } else {
                size
            };
            area(h, window, p, h.len() as int) == added(
                under_window(h, window, start, places(0, left) + places(right, size) + places(left, right)),
            )
        }),
{
    let size = window.len() as int;
    let start = p - size / 2;
    let left = left_end(start);
    let right = right_begin(size, h.len() as int, start);
    let none = Seq::<int>::empty();
    assert(under_window(h, window, start, none) =~= Seq::empty());
    assert(added(Seq::empty()) == zero());
    lemma_area_from(h, window, start, none, 0, left);
    assert(none + places(0, left) =~= places(0, left));
    lemma_area_from(h, window, start, places(0, left), right, size);
    lemma_area_from(h, window, start, places(0, left) + places(right, size), left, right);
}

/// The support of a position is the area around it and half the area around the position half
/// an interval later.
pub proof fn lemma_support_areas(h: Seq<Double>, window: Seq<Double>, p: int)
    ensures
        ({
            let m = h.len() as int;
            support(h, window, p, m) == area(h, window, p, m) + area(h, window, (p + m / 2) % m, m) * ratio(1, 2)
        }),
{
}

/// Whether a histogram is empty but for two bins.
pub open spec fn is_empty_but(h: Seq<Double>, p: int, q: int) -> bool {
    forall|b: int| 0 <= b < h.len() && b != p && b != q ==> (#[trigger] h[b]) == zero()
}

/// Places that are not a whole interval apart are different positions.
proof fn lemma_apart(p: int, d: int, m: int)
    requires
        0 <= p < m,
        -m < d < m,
    ensures
        (p + d) % m == p <==> d == 0,
        0 <= (p + d) % m < m,
        (p + d) % m == if p + d < 0 {
            p + d + m
        } else if p + d >= m {
            p + d - m
        } else {
            p + d
        },
{
    let x = p + d;
    if x < 0 {
        lemma_fundamental_div_mod_converse(x, m, -1, x + m);
    } else if x >= m {
        lemma_fundamental_div_mod_converse(x, m, 1, x - m);
    } else {
        lemma_small_mod(x as nat, m as nat);
    }
}

/// A sum that can take more: it is a number, and not the negative zero.
spec fn is_open(sum: Double) -> bool {
    !sum.is_nan() && sum.bits != SIGN
}

/// Under a window that no filled bin lies under but the middle one, the products add up to
/// that of the middle.
proof fn lemma_area_from_one(
    sum: Double,
    h: Seq<Double>,
    window: Seq<Double>,
    m: int,
    p: int,
    q: int,
    from: int,
    to: int,
)
    requires
        h.len() == m,
        0 <= p < m,
        0 <= q < m,
        is_empty_but(h, p, q),
        forall|j: int| 0 <= j < window.len() ==> (#[trigger] window[j]).is_finite(),
        window.len() % 2 == 0,
        window.len() <= m,
        0 <= from <= to <= window.len(),
        q == p || forall|d: int| -(window.len() as int / 2) <= d < window.len() as int / 2 ==> #[trigger] ((p + d) % m) != q,
        is_open(sum),
        is_open(sum + h[p] * window[window.len() as int / 2]),
    ensures
        ({
            let mid = window.len() as int / 2;
            area_from(sum, h, window, m, p - mid, from, to) == if from <= mid < to {
                sum + h[p] * window[mid]
            } else {
                sum
            }
        }),
    decreases to - from,
{
    let mid = window.len() as int / 2;
    if from < to {
        lemma_area_from_one(sum, h, window, m, p, q, from, to - 1);
        let j = to - 1;
        let d = j - mid;
        lemma_apart(p, d, m);
        assert(p - mid + j == p + d);
        let b = (p + d) % m;
        assert(window[j].is_finite());
        if d != 0 {
            assert(h[b] == zero());
            let before = area_from(sum, h, window, m, p - mid, from, j);
            lemma_add_nothing(before, window[j]);
        }
    }
}

/// The area around a filled bin.
proof fn lemma_area_one(h: Seq<Double>, window: Seq<Double>, m: int, p: int, q: int)
    requires
        h.len() == m,
        0 <= p < m,
        0 <= q < m,
        is_empty_but(h, p, q),
        forall|j: int| 0 <= j < window.len() ==> (#[trigger] window[j]).is_finite(),
        window.len() % 2 == 0,
        0 < window.len() <= m,
        q == p || forall|d: int| -(window.len() as int / 2) <= d < window.len() as int / 2 ==> #[trigger] ((p + d) % m) != q,
        !(h[p] * window[window.len() as int / 2]).is_nan(),
    ensures
        area(h, window, p, m) == zero() + h[p] * window[window.len() as int / 2],
        is_open(area(h, window, p, m)),
{
    broadcast use lemma_build;

    let size = window.len() as int;
    let mid = size / 2;
    let start = p - mid;
    let left = left_end(start);
    let right = right_begin(size, m, start);
    let x = h[p] * window[mid];
    assert(is_open(zero() + x)) by {
        reveal(crate::arith::sum_to);
        lemma_rebuild(x);
        if x.is_finite() {
            if x.code() > 0 {
                x.lemma_magnitude_positive();
                lemma_round_exact(x);
            } else {
                assert(crate::double::decode(0) == 0);
            }
        }
    }
    lemma_area_from_one(zero(), h, window, m, p, q, 0, left);
    lemma_area_from_one(zero(), h, window, m, p, q, right, size);
    lemma_area_from_one(zero(), h, window, m, p, q, left, right);
}

/// Half an interval away is outside the window.
proof fn lemma_offbeat_apart(p: int, m: int, half: int, d: int)
    requires
        0 <= p < m,
        0 < half,
        2 * half + 2 <= m,
        -half <= d < half,
    ensures
        (p + d) % m != (p + m / 2) % m,
        ((p + m / 2) % m + d) % m != p,
{
    lemma_apart(p, d, m);
    lemma_apart(p, m / 2, m);
    lemma_apart((p + m / 2) % m, d, m);
}

/// The support of a position: what lies there counts in full, and what lies half an interval
/// later counts half. Each counts by the middle of the window, where nothing else lies.
pub proof fn lemma_support(h: Seq<Double>, window: Seq<Double>, p: int)
    requires
        ({
            let m = h.len() as int;
            let q = (p + m / 2) % m;
            let mid = window.len() as int / 2;
            &&& 0 <= p < m
            &&& is_empty_but(h, p, q)
            &&& window.len() % 2 == 0
            &&& 0 < window.len()
            &&& window.len() + 2 <= m
            &&& !(h[p] * window[mid]).is_nan()
            &&& !(h[q] * window[mid]).is_nan()
        }),
        forall|j: int| 0 <= j < window.len() ==> (#[trigger] window[j]).is_finite(),
    ensures
        ({
            let m = h.len() as int;
            let q = (p + m / 2) % m;
            let mid = window.len() as int / 2;
            support(h, window, p, m) == (zero() + h[p] * window[mid]) + (zero() + h[q] * window[mid]) * ratio(1, 2)
        }),
{
    let m = h.len() as int;
    let q = (p + m / 2) % m;
    let mid = window.len() as int / 2;
    lemma_apart(p, m / 2, m);
    assert forall|d: int| -mid <= d < mid implies #[trigger] ((p + d) % m) != q by {
        lemma_offbeat_apart(p, m, mid, d);
    }
    assert forall|d: int| -mid <= d < mid implies #[trigger] ((q + d) % m) != p by {
        lemma_offbeat_apart(p, m, mid, d);
    }
    lemma_area_one(h, window, m, p, q);
    lemma_area_one(h, window, m, q, p);
}

/// Where all onsets fall on one position of an interval that is longer than the window, the
/// confidence of the interval is the sum of their strengths times the middle of the window.
pub proof fn lemma_aligned(onsets: Seq<Onset>, window: Seq<Double>, interval: nat, downsample: nat, p: nat)
    requires
        onsets.len() > 0,
        interval > 0,
        forall|i: int| 0 <= i < onsets.len() ==> (#[trigger] onsets[i]).pos as nat % interval / pow2(downsample) == p,
        p < interval / pow2(downsample),
        window.len() % 2 == 0,
        0 < window.len(),
        window.len() + 2 <= interval / pow2(downsample),
        forall|j: int| 0 <= j < window.len() ==> (#[trigger] window[j]).is_finite(),
        zero().lt(added(onsets.map_values(|o: Onset| o.strength)) * window[window.len() as int / 2]),
    ensures
        interval_confidence(onsets, window, interval, downsample) == added(onsets.map_values(|o: Onset| o.strength))
            * window[window.len() as int / 2],
{
    broadcast use lemma_build;

    reveal(interval_confidence);
    let m = (interval / pow2(downsample)) as int;
    let positions = wrapped(onsets, interval, downsample);
    let h = histogram(onsets, positions, m);
    let q = (p + m / 2) % m;
    let mid = window.len() as int / 2;
    let n = onsets.len() as int;
    let strengths = onsets.map_values(|o: Onset| o.strength);
    lemma_apart(p as int, m / 2, m);
    assert forall|i: int| 0 <= i < onsets.len() implies (#[trigger] positions[i]) == p by {
        assert(onsets[i].pos as nat % interval / pow2(downsample) == p);
        lemma_pow2_pos(downsample);
        assert(p <= onsets[i].pos) by {
            let r = onsets[i].pos as nat % interval;
            lemma_mod_decreases(onsets[i].pos as nat, interval);
            lemma_div_is_ordered_by_denominator(r as int, 1, pow2(downsample) as int);
        }
    }
    assert forall|b: int| 0 <= b < m && b != p implies (#[trigger] h[b]) == zero() by {
        lemma_no_strength(onsets, positions, n, b, p as int);
    }
    lemma_all_strength(onsets, positions, n, p as int);
    assert(strengths.take(n) =~= strengths);
    assert(h[p as int] == added(strengths));
    let x = added(strengths) * window[mid];
    assert(window[mid].is_finite());
    lemma_zero_times(window[mid]);
    lemma_support(h, window, p as int);
    lemma_plain_sums(x, window[mid]);
    lemma_confidence_highest(onsets, positions, window, m);
    let top = confidence(onsets, positions, window, m);
    assert(positions[0] == p);
    assert(support(h, window, positions[0] as int, m) == x);
    if top != zero() {
        let i = choose|i: int|
            0 <= i < positions.len() && top == support(h, window, (#[trigger] positions[i]) as int, m);
        assert(positions[i] == p);
    }
}

/// Zero times a finite number is a zero.
proof fn lemma_zero_times(x: Double)
    requires
        x.is_finite(),
    ensures
        (zero() * x).is_zero(),
        !(zero() * x).is_nan(),
{
    broadcast use lemma_build;

    reveal(Double::times);
    assert(crate::double::decode(0) == 0);
    assert(0 * x.magnitude() == 0);
    lemma_pow2_pos(1074);
    crate::rounding::lemma_encode_zero(TOP as nat, one_units());
}

/// Zeros add nothing to a positive number.
proof fn lemma_plain_sums(x: Double, weight: Double)
    requires
        zero().lt(x),
        weight.is_finite(),
    ensures
        (zero() + x) + (zero() + zero() * weight) * ratio(1, 2) == x,
{
    broadcast use lemma_build;

    crate::convert::lemma_ratio_ordered(1, 2, 1, 1);
    lemma_exact_integer(1);
    lemma_zero_times(weight);
    let z = zero() * weight;
    assert(zero() + z == zero()) by {
        lemma_add_nothing(zero(), weight);
    }
    assert(zero() + x == x) by {
        reveal(crate::arith::sum_to);
        lemma_rebuild(x);
        if x.is_finite() {
            x.lemma_magnitude_positive();
            lemma_round_exact(x);
            assert(crate::double::decode(0) == 0);
        }
    }
    lemma_add_nothing(x, ratio(1, 2));
}

/// A bin at whose position no onset lies is empty.
proof fn lemma_no_strength(onsets: Seq<Onset>, positions: Seq<usize>, n: int, b: int, p: int)
    requires
        0 <= n <= positions.len(),
        forall|i: int| 0 <= i < positions.len() ==> (#[trigger] positions[i]) == p,
        b != p,
    ensures
        bin(onsets, positions, n, b) == zero(),
    decreases n,
{
    if n > 0 {
        assert(positions[n - 1] == p);
        lemma_no_strength(onsets, positions, n - 1, b, p);
    }
}

/// A bin at whose position all onsets lie holds all strengths.
proof fn lemma_all_strength(onsets: Seq<Onset>, positions: Seq<usize>, n: int, p: int)
    requires
        0 <= n <= positions.len(),
        positions.len() == onsets.len(),
        forall|i: int| 0 <= i < positions.len() ==> (#[trigger] positions[i]) == p,
    ensures
        bin(onsets, positions, n, p) == added(onsets.map_values(|o: Onset| o.strength).take(n)),
    decreases n,
{
    let all = onsets.map_values(|o: Onset| o.strength);
    if n > 0 {
        assert(positions[n - 1] == p);
        lemma_all_strength(onsets, positions, n - 1, p);
        assert(all.take(n).drop_last() =~= all.take(n - 1));
        assert(all.take(n).last() == onsets[n - 1].strength);
        reveal_with_fuel(Seq::fold_left, 2);
    } else {
        assert(all.take(0) =~= Seq::empty());
    }
}

/// Only strengths and positions make a bin.
proof fn lemma_bin_same(a: Seq<Onset>, b: Seq<Onset>, positions: Seq<usize>, n: int, k: int)
    requires
        0 <= n <= a.len(),
        a.len() == b.len(),
        forall|i: int| 0 <= i < a.len() ==> (#[trigger] a[i]).strength == b[i].strength,
    ensures
        bin(a, positions, n, k) == bin(b, positions, n, k),
    decreases n,
{
    if n > 0 {
        lemma_bin_same(a, b, positions, n - 1, k);
        assert(a[n - 1].strength == b[n - 1].strength);
    }
}

/// Where in the audio onsets lie does not matter to an interval, only where they lie within
/// the interval: all of them later by whole intervals have the same confidence.
pub proof fn lemma_confidence_delayed(onsets: Seq<Onset>, window: Seq<Double>, interval: nat, downsample: nat, k: nat)
    requires
        interval > 0,
        forall|i: int| 0 <= i < onsets.len() ==> (#[trigger] onsets[i]).pos + k * interval <= usize::MAX,
    ensures
        interval_confidence(delayed(onsets, k * interval), window, interval, downsample) == interval_confidence(
            onsets,
            window,
            interval,
            downsample,
        ),
{
    reveal(interval_confidence);
    let later = delayed(onsets, k * interval);
    let m = (interval / pow2(downsample)) as int;
    lemma_pow2_pos(downsample);
    lemma_div_pos_is_pos(interval as int, pow2(downsample) as int);
    assert(wrapped(later, interval, downsample) =~= wrapped(onsets, interval, downsample)) by {
        assert forall|i: int| 0 <= i < onsets.len() implies wrapped(later, interval, downsample)[i] == wrapped(
            onsets,
            interval,
            downsample,
        )[i] by {
            assert(onsets[i].pos + k * interval <= usize::MAX);
            lemma_mod_multiples_vanish(k as int, onsets[i].pos as int, interval as int);
            assert(interval * k + onsets[i].pos == onsets[i].pos + k * interval) by (nonlinear_arith);
        }
    }
    let positions = wrapped(onsets, interval, downsample);
    assert(histogram(later, positions, m) =~= histogram(onsets, positions, m)) by {
        assert forall|b: int| 0 <= b < m implies histogram(later, positions, m)[b] == histogram(onsets, positions, m)[b] by {
            lemma_bin_same(later, onsets, positions, onsets.len() as int, b);
        }
    }
}

/// A whole number is its own nearest whole number.
proof fn lemma_whole_interval(length: nat)
    requires
        0 < length < TOP,
        length <= usize::MAX,
    ensures
        whole_interval(ratio(length, 1)) == length,
{
    broadcast use lemma_build;

    reveal(Double::round_spec);
    let one = one_units();
    lemma_pow2_pos(1074);
    lemma_exact_integer(length);
    lemma_quotient(length * one, one, length, 0);
    assert(ratio(length, 1).round() == ratio(length, 1));
    lemma_whole_sums(length, 1);
}

/// The position of an onset modulo a whole interval.
proof fn lemma_whole_position(pos: usize, length: nat)
    requires
        0 < length < TOP,
        length <= usize::MAX,
        pos < TOP,
    ensures
        fractional_position(pos, ratio(length, 1)) == pos as nat % length,
{
    broadcast use lemma_build;

    reveal(Double::rem_spec);
    let one = one_units();
    let p = pos as nat;
    lemma_pow2_pos(1074);
    lemma_exact_integer(p);
    lemma_exact_integer(length);
    lemma_whole_interval(length);
    lemma_scaled_mod(p, length, one);
    lemma_mod_bound(p as int, length as int);
    let r = p % length;
    lemma_whole_sums(r, 0);
    assert(ratio(length, 1).code() != 0) by {
        assert(crate::double::decode(0) == 0);
        assert(length * one > 0) by (nonlinear_arith)
            requires
                length > 0,
                one > 0,
        ;
    }
    assert(ratio(p, 1).rem_euclid(ratio(length, 1)) == ratio(r, 1));
}

/// The position of an onset modulo an interval that need not be whole is the exact remainder,
/// cut to a whole number, but not behind the last bin.
pub proof fn lemma_fractional_position(pos: usize, interval: Double)
    requires
        pos < TOP,
        interval.is_finite(),
        zero().lt(interval),
    ensures
        ({
            let cut = (pos * one_units()) as nat % interval.magnitude() / one_units();
            let last = whole_interval(interval) - 1;
            last >= 0 && fractional_position(pos, interval) == if cut < last {
                cut as int
            } else {
                last
            }
        }),
{
    broadcast use lemma_build;

    reveal(Double::to_index);
    let one = one_units();
    let p = pos as nat;
    let m = interval.magnitude();
    lemma_pow2_pos(1074);
    lemma_exact_integer(p);
    lemma_exact_integer(1);
    interval.lemma_magnitude_positive();
    let x = ratio(p, 1);
    lemma_remainder_exact(x, interval);
    let rest = x.rem(interval);
    lemma_value_order(rest, zero());
    assert(zero().value() == 0);
    assert(x.rem_euclid(interval) == rest);
    let r = (p * one) % m;
    let cut = r / one;
    lemma_mod_decreases(p * one, m);
    lemma_div_is_ordered(r as int, (p * one) as int, one as int);
    lemma_quotient(p * one, one, p, 0);
    assert(rest.to_index() == cut);
    // The nearest whole number is at least one.
    let w = interval.round().max(ratio(1, 1));
    lemma_round_kept(interval);
    assert(ratio(1, 1).le(w));
    assert(w.to_index() >= 1) by {
        if w.is_finite() {
            lemma_value_order(ratio(1, 1), w);
            if w.negative() && w.code() > 0 {
                w.lemma_magnitude_positive();
            }
            assert(w.magnitude() >= one);
            lemma_div_is_ordered(one as int, w.magnitude() as int, one as int);
            lemma_quotient(one, one, 1, 0);
        }
    }
}

/// The nearest whole number is a number.
proof fn lemma_round_kept(x: Double)
    requires
        x.is_finite(),
    ensures
        !x.round().is_nan(),
{
    broadcast use lemma_build;

    reveal(Double::round_spec);
}

/// The confidences of an interval are those of the onsets at their positions modulo it: cut to
/// steps of two to the `downsample`, or at full resolution.
pub proof fn lemma_confidences(
    onsets: Seq<Onset>,
    window: Seq<Double>,
    interval: nat,
    downsample: nat,
    any: Double,
)
    ensures
        interval_confidence(onsets, window, interval, downsample) == confidence(
            onsets,
            onsets.map_values(|o: Onset| (o.pos as nat % interval / pow2(downsample)) as usize),
            window,
            (interval / pow2(downsample)) as int,
        ),
        fractional_confidence(onsets, window, any) == confidence(
            onsets,
            onsets.map_values(|o: Onset| fractional_position(o.pos, any)),
            window,
            any.round().max(ratio(1, 1)).to_index() as int,
        ),
{
    reveal(interval_confidence);
    reveal(fractional_confidence);
}

/// At full resolution, an interval that is a whole number has the confidence that it has as a
/// whole number.
pub proof fn lemma_whole_confidence(onsets: Seq<Onset>, window: Seq<Double>, length: nat)
    requires
        0 < length < TOP,
        length <= usize::MAX,
        forall|i: int| 0 <= i < onsets.len() ==> (#[trigger] onsets[i]).pos < TOP,
    ensures
        fractional_confidence(onsets, window, ratio(length, 1)) == interval_confidence(onsets, window, length, 0),
{
    reveal(fractional_confidence);
    reveal(interval_confidence);
    lemma_whole_interval(length);
    lemma2_to64();
    assert(pow2(0) == 1);
    assert(length / 1 == length);
    let a = onsets.map_values(|o: Onset| fractional_position(o.pos, ratio(length, 1)));
    let b = wrapped(onsets, length, 0);
    assert(a =~= b) by {
        assert forall|i: int| 0 <= i < onsets.len() implies a[i] == b[i] by {
            assert(onsets[i].pos < TOP);
            lemma_whole_position(onsets[i].pos, length);
        }
    }
}

} // verus!
