//! What the accents of beats are, and which meter they make.

use crate::beats::added;
use crate::convert::{lemma_exact, lemma_exact_integer, lemma_ratio_positive};
use crate::display::{figure, figures, integer_text};
use crate::double::{lemma_build, one_units, ratio, zero, Double, TOP};
use crate::grain::lemma_magnitude_ordered;
use crate::meter::{
    accent, accents, accents_meter, centered, correlation, energy, felt_notation, is_ambiguous, lemma_scores, notation,
    rivals, scores, strongest, top_score, uniform, weakest, winner, Score,
};
use crate::offset::slopes_of;
use crate::order::{mean, no_sum, total};
use crate::precision::{apart, lemma_sum_ordered, lemma_sum_rounded, lemma_value_order};
use crate::rounding::{encode, lemma_encode_ordered, lemma_encode_scale};
use crate::silence::lemma_whole_sums;
use crate::Onset;
use vstd::arithmetic::power2::*;
use vstd::prelude::*;
use vstd::string::*;

verus! {

/// The product of a whole number and a number up to one lies on the same side of a number as
/// the exact product.
proof fn lemma_times_bound(r: nat, f: Double, m: nat, k: nat)
    requires
        r < TOP,
        f.is_finite(),
        !f.negative(),
        f.magnitude() <= one_units(),
        m < TOP,
        k <= 1100,
    ensures
        ({
            let x = ratio(r, 1) * f;
            &&& x.is_finite()
            &&& !x.negative()
            &&& m * pow2(k) <= r * f.magnitude() ==> m * pow2(k) <= x.magnitude()
            &&& r * f.magnitude() <= m * pow2(k) ==> x.magnitude() <= m * pow2(k)
        }),
{
    broadcast use lemma_build;

    reveal(Double::times);
    let top = TOP as nat;
    let one = one_units();
    let g = f.magnitude();
    let b = m * pow2(k);
    lemma_pow2_pos(1074);
    lemma_exact_integer(r);
    lemma_exact(false, m, k);
    assert((r * one) * g == (r * g) * one) by (nonlinear_arith);
    lemma_encode_scale(top, r * g, 1, one);
    assert(1 * one == one);
    let code = encode(top, r * g, 1);
    assert(r * g <= r * one) by (nonlinear_arith)
        requires
            g <= one,
    ;
    lemma_encode_ordered(top, r * g, 1, r * one, 1);
    if b <= r * g {
        lemma_encode_ordered(top, b, 1, r * g, 1);
        lemma_magnitude_ordered(encode(top, b, 1), code);
    }
    if r * g <= b {
        lemma_encode_ordered(top, r * g, 1, b, 1);
        lemma_magnitude_ordered(code, encode(top, b, 1));
    }
}

/// Eight hundredths lie between two numbers that are close to each other.
proof fn lemma_eight_hundredths()
    ensures
        ratio(8, 100).is_finite(),
        !ratio(8, 100).negative(),
        10_995_116_277 * pow2(1037) <= ratio(8, 100).magnitude() <= 10_995_116_278 * pow2(1037),
        ratio(8, 100).magnitude() <= one_units(),
        one_units() == 0x20_0000_0000 * pow2(1037),
        one_units() == 64 * pow2(1068),
        pow2(1068) == 0x8000_0000 * pow2(1037),
{
    broadcast use lemma_build;

    let top = TOP as nat;
    let p = pow2(1037);
    let one = one_units();
    lemma2_to64();
    lemma2_to64_rest();
    lemma_pow2_adds(37, 1037);
    lemma_pow2_adds(31, 1037);
    lemma_pow2_adds(6, 1068);
    lemma_pow2_pos(1037);
    lemma_exact(false, 10_995_116_277, 1037);
    lemma_exact(false, 10_995_116_278, 1037);
    lemma_encode_ordered(top, 10_995_116_277 * p, 1, 8 * one, 100);
    lemma_encode_ordered(top, 8 * one, 100, 10_995_116_278 * p, 1);
    let low = encode(top, 10_995_116_277 * p, 1);
    let mid = encode(top, 8 * one, 100);
    let high = encode(top, 10_995_116_278 * p, 1);
    lemma_magnitude_ordered(low, mid);
    lemma_magnitude_ordered(mid, high);
}

/// Whether an onset is near a beat: nearer than eight hundredths of the length of a beat.
pub open spec fn is_near(pos: usize, beat: usize, length: nat) -> bool {
    25 * apart(pos as nat, beat as nat) < 2 * length
}

/// The distance of whole numbers is exact.
proof fn lemma_whole_distance(a: nat, b: nat)
    requires
        a < TOP,
        b < TOP,
    ensures
        (ratio(a, 1) - ratio(b, 1)).abs() == ratio(apart(a, b), 1),
{
    broadcast use lemma_build;

    lemma_whole_sums(a, b);
    lemma_exact_integer(apart(a, b));
    if a < b {
        reveal(crate::arith::sum_to);
        lemma_exact_integer(a);
        lemma_exact_integer(b);
        let one = one_units();
        lemma_pow2_pos(1074);
        let d = (b - a) as nat;
        assert(a * one - b * one == -(d * one)) by (nonlinear_arith)
            requires
                d == b - a,
        ;
        assert(d * one > 0) by (nonlinear_arith)
            requires
                d > 0,
                one > 0,
        ;
    }
}

/// What counts as near.
proof fn lemma_near(pos: usize, beat: usize, length: nat)
    requires
        pos < 0x4000_0000_0000,
        beat < 0x4000_0000_0000,
        length < 0x1_0000_0000,
        25 * apart(pos as nat, beat as nat) != 2 * length,
    ensures
        (ratio(pos as nat, 1) - ratio(beat as nat, 1)).abs().le(ratio(length, 1) * ratio(8, 100)) == is_near(
            pos,
            beat,
            length,
        ),
{
    let d = apart(pos as nat, beat as nat);
    let one = one_units();
    let p = pow2(1037);
    let u = pow2(1068);
    let f = ratio(8, 100);
    let g = f.magnitude();
    let x = ratio(length, 1) * f;
    lemma_whole_distance(pos as nat, beat as nat);
    lemma_exact_integer(d);
    lemma_eight_hundredths();
    lemma_pow2_pos(1037);
    lemma_times_bound(length, f, d, 1074);
    lemma_value_order(ratio(d, 1), x);
    if 25 * d < 2 * length {
        assert(d * one <= length * g) by (nonlinear_arith)
            requires
                25 * d + 1 <= 2 * length,
                length <= 0x1_0000_0000,
                g >= 10_995_116_277 * p,
                one == 0x20_0000_0000 * p,
                p > 0,
        ;
    } else {
        let m = (64 * d - 1) as nat;
        lemma_times_bound(length, f, m, 1068);
        assert(length * g <= m * u) by (nonlinear_arith)
            requires
                25 * d >= 2 * length + 1,
                length <= 0x1_0000_0000,
                g <= 10_995_116_278 * p,
                u == 0x8000_0000 * p,
                m == 64 * d - 1,
                p > 0,
        ;
        assert(m * u < d * one) by (nonlinear_arith)
            requires
                m == 64 * d - 1,
                one == 64 * u,
                u > 0,
        ;
    }
}

/// The accent of a beat is the sum of the strengths of the onsets near it, and of no others.
/// A beat is a whole number of samples here; onsets at just eight hundredths of a beat are
/// left out.
pub proof fn lemma_accent(onsets: Seq<Onset>, beat: usize, length: nat, n: int)
    requires
        0 <= n <= onsets.len(),
        beat < 0x4000_0000_0000,
        length < 0x1_0000_0000,
        forall|i: int|
            0 <= i < onsets.len() ==> (#[trigger] onsets[i]).pos < 0x4000_0000_0000 && 25 * apart(
                onsets[i].pos as nat,
                beat as nat,
            ) != 2 * length,
    ensures
        accent(onsets, beat, ratio(length, 1) * ratio(8, 100), n) == total(
            onsets.take(n).filter(|o: Onset| is_near(o.pos, beat, length)).map_values(|o: Onset| o.strength),
        ),
    decreases n,
{
    let f = |o: Onset| is_near(o.pos, beat, length);
    let g = |o: Onset| o.strength;
    reveal(Seq::filter);
    if n > 0 {
        lemma_accent(onsets, beat, length, n - 1);
        let before = onsets.take(n - 1);
        let o = onsets[n - 1];
        assert(onsets.take(n).drop_last() =~= before);
        assert(onsets.take(n).last() == o);
        lemma_near(o.pos, beat, length);
        if f(o) {
            let s = before.filter(f).map_values(g);
            assert(before.filter(f).push(o).map_values(g) =~= s.push(o.strength));
            assert(s.push(o.strength).drop_last() =~= s);
        }
    } else {
        assert(onsets.take(0) =~= Seq::empty());
        assert(Seq::<Onset>::empty().filter(f).map_values(g) =~= Seq::empty());
    }
}

/// Whatever the length of a beat, the onsets that count for a beat are those whose distance
/// from it is not more than 0.08 times as much.
pub proof fn lemma_accent_of_any(onsets: Seq<Onset>, beat: usize, distance: Double, n: int)
    requires
        0 <= n <= onsets.len(),
    ensures
        accent(onsets, beat, distance, n) == total(
            onsets.take(n).filter(
                |o: Onset| (ratio(o.pos as nat, 1) - ratio(beat as nat, 1)).abs().le(distance),
            ).map_values(|o: Onset| o.strength),
        ),
    decreases n,
{
    let f = |o: Onset| (ratio(o.pos as nat, 1) - ratio(beat as nat, 1)).abs().le(distance);
    let g = |o: Onset| o.strength;
    reveal(Seq::filter);
    if n > 0 {
        lemma_accent_of_any(onsets, beat, distance, n - 1);
        let before = onsets.take(n - 1);
        let o = onsets[n - 1];
        assert(onsets.take(n).drop_last() =~= before);
        assert(onsets.take(n).last() == o);
        if f(o) {
            let s = before.filter(f).map_values(g);
            assert(before.filter(f).push(o).map_values(g) =~= s.push(o.strength));
            assert(s.push(o.strength).drop_last() =~= s);
        }
    } else {
        assert(onsets.take(0) =~= Seq::empty());
        assert(Seq::<Onset>::empty().filter(f).map_values(g) =~= Seq::empty());
    }
}

/// Whatever the length of a beat, the accent of each beat is the sum of the strengths of the
/// onsets that are not farther from it than 0.08 times as much.
pub proof fn lemma_accents_of_any(
    onsets: Seq<Onset>,
    samples: Seq<Double>,
    sample_rate: u32,
    beats: Seq<usize>,
    interval: Double,
    k: int,
)
    requires
        0 <= k < beats.len(),
        !uniform(onsets) || samples.len() == 0,
    ensures
        accents(onsets, samples, sample_rate, beats, interval)[k] == total(
            onsets.filter(
                |o: Onset|
                    (ratio(o.pos as nat, 1) - ratio(beats[k] as nat, 1)).abs().le(interval * ratio(8, 100)),
            ).map_values(|o: Onset| o.strength),
        ),
{
    lemma_accent_of_any(onsets, beats[k], interval * ratio(8, 100), onsets.len() as int);
    assert(onsets.take(onsets.len() as int) =~= onsets);
}

/// Each number less the mean, and the sum of the squares.
pub proof fn lemma_centered(s: Seq<Double>)
    ensures
        centered(s).len() == s.len(),
        forall|i: int| 0 <= i < s.len() ==> (#[trigger] centered(s)[i]) == s[i] - total(s) / ratio(s.len(), 1),
        energy(s) == total(s.map_values(|x: Double| x * x)),
{
}

/// The accent of each beat is the sum of the strengths of the onsets near it where the
/// strengths carry information, and the leading-edge energy at its sample where they do not.
pub proof fn lemma_accents(
    onsets: Seq<Onset>,
    samples: Seq<Double>,
    sample_rate: u32,
    beats: Seq<usize>,
    length: nat,
    k: int,
)
    requires
        0 <= k < beats.len(),
        beats[k] < 0x4000_0000_0000,
        length < 0x1_0000_0000,
        forall|i: int|
            0 <= i < onsets.len() ==> (#[trigger] onsets[i]).pos < 0x4000_0000_0000 && 25 * apart(
                onsets[i].pos as nat,
                beats[k] as nat,
            ) != 2 * length,
    ensures
        ({
            let found = accents(onsets, samples, sample_rate, beats, ratio(length, 1));
            &&& found.len() == beats.len()
            &&& !uniform(onsets) ==> found[k] == total(
                onsets.filter(|o: Onset| is_near(o.pos, beats[k], length)).map_values(|o: Onset| o.strength),
            )
            &&& uniform(onsets) && beats[k] < samples.len() ==> found[k] == slopes_of(samples, sample_rate)[beats[k] as int]
        }),
{
    lemma_accent(onsets, beats[k], length, onsets.len() as int);
    assert(onsets.take(onsets.len() as int) =~= onsets);
}

/// The weakest and the strongest onset.
proof fn lemma_extremes(onsets: Seq<Onset>, n: int)
    requires
        1 <= n <= onsets.len(),
        forall|i: int| 0 <= i < onsets.len() ==> (#[trigger] onsets[i]).strength.is_finite(),
    ensures
        exists|i: int| 0 <= i < n && (#[trigger] onsets[i]).strength == weakest(onsets, n),
        exists|i: int| 0 <= i < n && (#[trigger] onsets[i]).strength == strongest(onsets, n),
        forall|i: int|
            0 <= i < n ==> weakest(onsets, n).le((#[trigger] onsets[i]).strength) && onsets[i].strength.le(
                strongest(onsets, n),
            ),
    decreases n,
{
    assert(onsets[n - 1].strength.is_finite());
    assert(onsets[0].strength.is_finite());
    if n > 1 {
        lemma_extremes(onsets, n - 1);
        let i = choose|i: int| 0 <= i < n - 1 && (#[trigger] onsets[i]).strength == weakest(onsets, n - 1);
        let j = choose|j: int| 0 <= j < n - 1 && (#[trigger] onsets[j]).strength == strongest(onsets, n - 1);
        assert(onsets[i].strength.is_finite() && onsets[j].strength.is_finite());
    } else {
        assert(onsets[0].strength == weakest(onsets, n));
        assert(onsets[0].strength == strongest(onsets, n));
    }
}

/// The strengths of onsets carry information where some two of them differ by a twentieth or
/// more, and nowhere else.
pub proof fn lemma_uniform(onsets: Seq<Onset>)
    requires
        forall|i: int| 0 <= i < onsets.len() ==> (#[trigger] onsets[i]).strength.is_finite(),
    ensures
        !uniform(onsets) <==> exists|i: int, j: int|
            0 <= i < onsets.len() && 0 <= j < onsets.len() && ratio(1, 20).le(
                (#[trigger] onsets[i]).strength - (#[trigger] onsets[j]).strength,
            ),
{
    broadcast use lemma_build;

    let one = one_units();
    lemma_encode_scale(TOP as nat, 1 * one, 20, 5);
    assert((1 * one) * 5 == 5 * one);
    assert(ratio(5, 100) == ratio(1, 20));
    let n = onsets.len() as int;
    lemma_ratio_positive(1, 20);
    if n > 0 {
        lemma_extremes(onsets, n);
        let low = weakest(onsets, n);
        let high = strongest(onsets, n);
        let b = choose|i: int| 0 <= i < n && (#[trigger] onsets[i]).strength == low;
        let a = choose|i: int| 0 <= i < n && (#[trigger] onsets[i]).strength == high;
        assert(onsets[a].strength.is_finite() && onsets[b].strength.is_finite());
        lemma_sum_rounded(high, low.neg());
        if !uniform(onsets) {
            assert(ratio(1, 20).le(onsets[a].strength - onsets[b].strength));
        }
        if exists|i: int, j: int|
            0 <= i < onsets.len() && 0 <= j < onsets.len() && ratio(1, 20).le(
                (#[trigger] onsets[i]).strength - (#[trigger] onsets[j]).strength,
            ) {
            let (i, j) = choose|i: int, j: int|
                0 <= i < onsets.len() && 0 <= j < onsets.len() && ratio(1, 20).le(
                    (#[trigger] onsets[i]).strength - (#[trigger] onsets[j]).strength,
                );
            let x = onsets[i].strength;
            let y = onsets[j].strength;
            assert(x.is_finite() && y.is_finite());
            assert(x.le(high) && low.le(y));
            lemma_sum_ordered(x, high, y.neg());
            lemma_sum_rounded(high, y.neg());
            let ny = y.neg();
            let nl = low.neg();
            assert(ny.le(nl));
            lemma_sum_ordered(ny, nl, high);
            crate::precision::lemma_sum_commutes(ny, high);
            crate::precision::lemma_sum_commutes(nl, high);
        }
    }
}

/// The sum of some whole numbers.
pub open spec fn whole_total(s: Seq<nat>) -> nat
    decreases s.len(),
{
    if s.len() == 0 {
        0
    } else {
        whole_total(s.drop_last()) + s.last()
    }
}

/// Whole numbers add up to their sum, and their mean is the sum divided by their number,
/// rounded once.
pub proof fn lemma_whole_mean(s: Seq<Double>, whole: Seq<nat>)
    requires
        s.len() == whole.len(),
        0 < s.len() < TOP,
        forall|i: int| 0 <= i < s.len() ==> (#[trigger] s[i]) == ratio(whole[i], 1),
        whole_total(whole) < TOP,
    ensures
        total(s) == ratio(whole_total(whole), 1),
        mean(s) == ratio(whole_total(whole), s.len()),
    decreases s.len(),
{
    broadcast use lemma_build;

    let n = whole_total(whole);
    let last = whole.last();
    assert(s[s.len() - 1] == ratio(last, 1));
    if s.len() == 1 {
        reveal_with_fuel(total, 2);
        reveal_with_fuel(whole_total, 2);
        lemma_nothing_first(last);
    } else {
        assert forall|i: int| 0 <= i < s.drop_last().len() implies (#[trigger] s.drop_last()[i]) == ratio(
            whole.drop_last()[i],
            1,
        ) by {
            assert(s[i] == ratio(whole[i], 1));
        }
        lemma_whole_mean(s.drop_last(), whole.drop_last());
        lemma_whole_sums(whole_total(whole.drop_last()), last);
    }
    reveal(crate::arith::quotient_to);
    let one = one_units();
    lemma_pow2_pos(1074);
    lemma_exact_integer(n);
    lemma_exact_integer(s.len());
    lemma_ratio_positive(s.len(), 1);
    lemma_encode_scale(TOP as nat, n * one, s.len(), one);
}

/// The first number that is added stays what it is.
proof fn lemma_nothing_first(n: nat)
    requires
        n < TOP,
    ensures
        no_sum() + ratio(n, 1) == ratio(n, 1),
{
    broadcast use lemma_build;

    reveal(crate::arith::sum_to);
    lemma_exact_integer(n);
    assert(crate::double::decode(0) == 0);
    if n == 0 {
        assert(0 * one_units() == 0);
        crate::rounding::lemma_encode_zero(TOP as nat, 1);
    } else {
        lemma_pow2_pos(1074);
        assert(n * one_units() > 0) by (nonlinear_arith)
            requires
                n > 0,
                one_units() > 0,
        ;
    }
}

/// The products of numbers that are `lag` apart.
pub open spec fn products(s: Seq<Double>, lag: nat) -> Seq<Double> {
    Seq::new((s.len() - lag) as nat, |i: int| s[i] * s[i + lag])
}

/// The correlation at a lag is the sum of the products of numbers that are so far apart.
proof fn lemma_correlation(s: Seq<Double>, lag: nat, n: int)
    requires
        lag <= s.len(),
        0 <= n <= s.len() - lag,
    ensures
        correlation(s, lag as int, n) == added(products(s, lag).take(n)),
    decreases n,
{
    if n > 0 {
        lemma_correlation(s, lag, n - 1);
        let all = products(s, lag);
        assert(all.take(n).drop_last() =~= all.take(n - 1));
        assert(all.take(n).last() == all[n - 1]);
        reveal_with_fuel(Seq::fold_left, 2);
    } else {
        assert(products(s, lag).take(0) =~= Seq::empty());
    }
}

/// Whether bars may have a number of beats: it is 2, 3, 4, 6 or 12, and there are four
/// complete bars of it among `len` beats.
pub open spec fn is_eligible(g: nat, len: nat) -> bool {
    (g == 2 || g == 3 || g == 4 || g == 6 || g == 12) && 4 * g <= len
}

/// How much the numbers that are `g` apart have in common, relative to the sum of the squares.
pub open spec fn likeness(s: Seq<Double>, g: nat) -> Double {
    added(products(s, g)) / total(s.map_values(|x: Double| x * x))
}

/// A grouping that can be tried has its place.
spec fn order_of(g: nat) -> int {
    if g == 2 {
        0
    } else if g == 3 {
        1
    } else if g == 4 {
        2
    } else if g == 6 {
        3
    } else {
        4
    }
}

/// The scores of the first groupings.
proof fn lemma_scores_found(s: Seq<Double>, k: int)
    requires
        0 <= k <= 5,
    ensures
        forall|i: int|
            0 <= i < scores(s, k).len() ==> is_eligible((#[trigger] scores(s, k)[i]).grouping as nat, s.len())
                && scores(s, k)[i].score == likeness(s, scores(s, k)[i].grouping as nat),
        forall|g: nat|
            is_eligible(g, s.len()) && order_of(g) < k ==> exists|i: int|
                0 <= i < scores(s, k).len() && (#[trigger] scores(s, k)[i]).grouping == g,
    decreases k,
{
    if k > 0 {
        lemma_scores_found(s, k - 1);
        let before = scores(s, k - 1);
        let after = scores(s, k);
        let g = crate::meter::grouping(k - 1);
        if s.len() >= 4 * g {
            lemma_correlation(s, g, s.len() - g);
            assert(products(s, g).take(s.len() - g) =~= products(s, g));
            assert(after.last().grouping == g);
            assert(after[before.len() as int].grouping == g);
        }
        assert forall|i: int| 0 <= i < after.len() implies is_eligible((#[trigger] after[i]).grouping as nat, s.len())
            && after[i].score == likeness(s, after[i].grouping as nat) by {
            if i < before.len() {
                assert(after[i] == before[i]);
            }
        }
        assert forall|h: nat| is_eligible(h, s.len()) && order_of(h) < k implies exists|i: int|
            0 <= i < after.len() && (#[trigger] after[i]).grouping == h by {
            if order_of(h) < k - 1 {
                let i = choose|i: int|
                    0 <= i < before.len() && (#[trigger] before[i]).grouping == h;
                assert(after[i] == before[i]);
            } else {
                assert(h == g);
            }
        }
    }
}

/// Every number of beats that bars may have is scored by how much the accents that are a bar
/// apart have in common, and no other number is.
pub proof fn lemma_scored(s: Seq<Double>)
    ensures
        forall|i: int|
            0 <= i < scores(s, 5).len() ==> is_eligible((#[trigger] scores(s, 5)[i]).grouping as nat, s.len())
                && scores(s, 5)[i].score == likeness(s, scores(s, 5)[i].grouping as nat),
        forall|g: nat|
            is_eligible(g, s.len()) ==> exists|i: int|
                0 <= i < scores(s, 5).len() && (#[trigger] scores(s, 5)[i]).grouping == g,
{
    lemma_scores_found(s, 5);
}

/// Whether a number is the highest likeness of all numbers of beats that bars may have, or
/// zero where none is positive.
pub open spec fn is_top(c: Seq<Double>, top: Double) -> bool {
    &&& zero().le(top)
    &&& top == zero() || exists|g: nat| is_eligible(g, c.len()) && top == #[trigger] likeness(c, g)
    &&& forall|g: nat| is_eligible(g, c.len()) ==> !top.lt(#[trigger] likeness(c, g))
}

/// The highest score.
proof fn lemma_top_score(s: Seq<Score>, n: int)
    requires
        0 <= n <= s.len(),
    ensures
        zero().le(top_score(s, n)),
        top_score(s, n) == zero() || exists|i: int| 0 <= i < n && top_score(s, n) == (#[trigger] s[i]).score,
        forall|i: int| 0 <= i < n ==> !top_score(s, n).lt((#[trigger] s[i]).score),
    decreases n,
{
    broadcast use lemma_build;

    if n > 0 {
        lemma_top_score(s, n - 1);
        let before = top_score(s, n - 1);
        if before != zero() {
            let i = choose|i: int| 0 <= i < n - 1 && before == (#[trigger] s[i]).score;
            assert(s[i].score == before);
        }
        assert(s[n - 1].score == s[n - 1].score);
    }
}

/// Whether a number of beats wins: its likeness is within a twentieth of the highest, and
/// that of no smaller number is.
pub open spec fn is_winner(c: Seq<Double>, top: Double, g: nat) -> bool {
    &&& is_eligible(g, c.len())
    &&& (top - ratio(1, 20)).le(likeness(c, g))
    &&& forall|h: nat| is_eligible(h, c.len()) && h < g ==> !(top - ratio(1, 20)).le(#[trigger] likeness(c, h))
}

/// Whether bars of another number of beats, which is no multiple of the winner's, are at
/// least 0.8 times as likely.
pub open spec fn has_rival(c: Seq<Double>, g: nat) -> bool {
    exists|h: nat|
        is_eligible(h, c.len()) && h % g != 0 && (ratio(4, 5) * likeness(c, g)).le(#[trigger] likeness(c, h))
}

/// The meter of some accents is that of the smallest number of beats per bar whose likeness
/// is close to the highest. The confidence is this likeness, brought to between 0 and 1;
/// below 0.3 the meter is unknown. It is ambiguous where there is a rival. There is none
/// where the accents hardly differ or nothing repeats.
pub proof fn lemma_meter_of_accents(accents: Seq<Double>, triplet_feel: bool)
    ensures
        ({
            let c = centered(accents);
            exists|top: Double| #[trigger]
                is_top(c, top) && match accents_meter(accents, triplet_feel) {
                    None => energy(c).le(ratio(1, 1_000_000_000)) || top.same(zero()) || forall|g: nat|
                        is_eligible(g, c.len()) ==> !(top - ratio(1, 20)).le(#[trigger] likeness(c, g)),
                    Some(m) => {
                        &&& !energy(c).le(ratio(1, 1_000_000_000))
                        &&& zero().lt(top)
                        &&& exists|g: nat|
                            {
                                &&& #[trigger] is_winner(c, top, g)
                                &&& m.confidence == likeness(c, g).clamp(zero(), ratio(1, 1))
                                &&& likeness(c, g).lt(ratio(3, 10)) ==> m.beats_per_bar == 0 && !m.ambiguous
                                &&& !likeness(c, g).lt(ratio(3, 10)) ==> m.beats_per_bar == g && m.ambiguous == has_rival(
                                    c,
                                    g,
                                )
                            }
                    },
                }
        }),
{
    broadcast use lemma_build;

    let c = centered(accents);
    let s = scores(c, 5);
    let top = top_score(s, s.len() as int);
    let one = one_units();
    lemma_encode_scale(TOP as nat, 1 * one, 20, 5);
    assert((1 * one) * 5 == 5 * one);
    assert(ratio(5, 100) == ratio(1, 20));
    lemma_encode_scale(TOP as nat, 4 * one, 5, 2);
    assert((4 * one) * 2 == 8 * one);
    assert(ratio(8, 10) == ratio(4, 5));
    lemma_scored(c);
    lemma_scores(c, 5);
    lemma_top_score(s, s.len() as int);
    assert(is_top(c, top)) by {
        if top != zero() {
            let i = choose|i: int| 0 <= i < s.len() && top == (#[trigger] s[i]).score;
            assert(top == likeness(c, s[i].grouping as nat));
        }
        assert forall|g: nat| is_eligible(g, c.len()) implies !top.lt(#[trigger] likeness(c, g)) by {
            let i = choose|i: int| 0 <= i < s.len() && (#[trigger] s[i]).grouping == g;
            assert(s[i].score == likeness(c, g));
        }
    }
    if !energy(c).le(ratio(1, 1_000_000_000)) && !top.le(zero()) {
        let bound = top - ratio(1, 20);
        crate::meter::lemma_first_score(s, bound, 0);
        if let Some(won) = winner(s) {
            let j = choose|j: int|
                0 <= j < s.len() && #[trigger] s[j] == won && bound.le(won.score) && forall|k: int|
                    0 <= k < j ==> !bound.le((#[trigger] s[k]).score);
            let g = won.grouping as nat;
            assert(s[j].score == likeness(c, g));
            assert forall|h: nat| is_eligible(h, c.len()) && h < g implies !bound.le(#[trigger] likeness(c, h)) by {
                let i = choose|i: int| 0 <= i < s.len() && (#[trigger] s[i]).grouping == h;
                assert(s[i].score == likeness(c, h));
                if j <= i {
                    assert(s[j].grouping <= s[i].grouping);
                }
            }
            assert(is_winner(c, top, g));
            assert(is_ambiguous(s, won) == has_rival(c, g)) by {
                if is_ambiguous(s, won) {
                    let i = choose|i: int| 0 <= i < s.len() && rivals(won, #[trigger] s[i]);
                    let h = s[i].grouping as nat;
                    assert(s[i].score == likeness(c, h));
                    assert(is_eligible(h, c.len()));
                    assert(h % g != 0);
                }
                if has_rival(c, g) {
                    let h = choose|h: nat|
                        is_eligible(h, c.len()) && h % g != 0 && (ratio(4, 5) * likeness(c, g)).le(
                            #[trigger] likeness(c, h),
                        );
                    let i = choose|i: int| 0 <= i < s.len() && (#[trigger] s[i]).grouping == h;
                    assert(s[i].score == likeness(c, h));
                    vstd::arithmetic::div_mod::lemma_mod_self_0(g as int);
                    assert(rivals(won, s[i]));
                }
            }
        } else {
            assert forall|g: nat| is_eligible(g, c.len()) implies !bound.le(#[trigger] likeness(c, g)) by {
                let i = choose|i: int| 0 <= i < s.len() && (#[trigger] s[i]).grouping == g;
                assert(s[i].score == likeness(c, g));
            }
        }
    }
}

/// The notation of a bar names the number of its beats, or of the parts of its beats where
/// each of two or four has three parts, and quarters or, from six on, eighths.
pub proof fn lemma_notation(beats: nat, triplet_feel: bool)
    requires
        beats == 2 || beats == 3 || beats == 4 || beats == 6 || beats == 12,
    ensures
        ({
            let parts = if triplet_feel && (beats == 2 || beats == 4) {
                3 * beats
            } else {
                beats
            };
            felt_notation(beats, triplet_feel) == integer_text(parts) + seq![
                '/',
                if parts < 6 {
                    '4'
                } else {
                    '8'
                },
            ]
        }),
{
    reveal_strlit("2/4");
    reveal_strlit("3/4");
    reveal_strlit("4/4");
    reveal_strlit("6/8");
    reveal_strlit("12/8");
    reveal_with_fuel(figures, 4);
    let parts = if triplet_feel && (beats == 2 || beats == 4) {
        3 * beats
    } else {
        beats
    };
    assert(figure(2) == '2' && figure(3) == '3' && figure(4) == '4' && figure(6) == '6' && figure(1) == '1');
    assert(felt_notation(beats, triplet_feel) =~= integer_text(parts) + seq![
        '/',
        if parts < 6 {
            '4'
        } else {
            '8'
        },
    ]);
}

} // verus!
