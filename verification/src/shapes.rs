//! The shapes of the windows.

use crate::convert::{lemma_exact_integer, lemma_ratio_ordered, lemma_ratio_positive};
use crate::double::{lemma_build, one_units, ratio, zero, Double, TOP};
use crate::eval::lemma_one_half;
use crate::grain::lemma_magnitude_ordered;
use crate::precision::{lemma_sum_commutes, lemma_sum_ordered, lemma_value_order};
use crate::rounding::{encode, lemma_encode_ordered, lemma_encode_scale, lemma_encode_zero};
use crate::window::{hamming, hamming_angle, hamming_value, hann, hann_angle, hann_value};
use vstd::arithmetic::power2::*;
use vstd::prelude::*;

verus! {

/// Whether a number lies between minus one and one, as cosines do.
pub open spec fn is_cosine(c: Double) -> bool {
    c.is_finite() && c.magnitude() <= one_units()
}

/// A product with a number up to one is not larger, and keeps the order.
proof fn lemma_weighted(w: Double, a: Double, b: Double)
    requires
        w.is_finite(),
        !w.negative(),
        w.magnitude() <= one_units(),
        is_cosine(a),
        is_cosine(b),
        a.le(b),
    ensures
        (w * a).is_finite(),
        (w * b).is_finite(),
        (w * a).le(w * b),
        (w * a).magnitude() <= w.magnitude(),
        (w * b).magnitude() <= w.magnitude(),
        a.magnitude() == one_units() ==> w * a == if a.negative() {
            w.neg()
        } else {
            w
        },
{
    broadcast use lemma_build;

    lemma_weight(w, a);
    lemma_weight(w, b);
    let top = TOP as nat;
    let one = one_units();
    lemma_pow2_pos(1074);
    reveal(Double::times);
    let m = w.magnitude();
    let x = a.magnitude();
    let y = b.magnitude();
    lemma_value_order(a, b);
    lemma_encode_zero(top, one);
    if x <= y {
        assert((m * x) * one <= (m * y) * one) by (nonlinear_arith)
            requires
                x <= y,
        ;
        lemma_encode_ordered(top, m * x, one, m * y, one);
    }
    if y <= x {
        assert((m * y) * one <= (m * x) * one) by (nonlinear_arith)
            requires
                y <= x,
        ;
        lemma_encode_ordered(top, m * y, one, m * x, one);
    }
    if x == 0 {
        assert(m * 0 == 0);
    }
    if y == 0 {
        assert(m * 0 == 0);
    }
}

/// A product with a number up to one is not larger.
proof fn lemma_weight(w: Double, a: Double)
    requires
        w.is_finite(),
        !w.negative(),
        is_cosine(a),
    ensures
        (w * a).is_finite(),
        (w * a).magnitude() <= w.magnitude(),
        a.magnitude() == one_units() ==> w * a == if a.negative() {
            w.neg()
        } else {
            w
        },
{
    broadcast use lemma_build;

    reveal(Double::times);
    let top = TOP as nat;
    let one = one_units();
    let m = w.magnitude();
    let x = a.magnitude();
    lemma_pow2_pos(1074);
    crate::double::lemma_rebuild(w);
    crate::double::lemma_round_exact(w);
    assert((m * x) * 1 <= m * one) by (nonlinear_arith)
        requires
            x <= one,
    ;
    lemma_encode_ordered(top, m * x, one, m, 1);
    lemma_magnitude_ordered(encode(top, m * x, one), encode(top, m, 1));
    if x == one {
        lemma_encode_scale(top, m, 1, one);
        assert(1 * one == one);
    }
}

/// Both windows fall as the cosine grows: they are highest where it is minus one, in their
/// middle, and lowest where it is one, at their ends.
pub proof fn lemma_windows_fall(a: Double, b: Double)
    requires
        is_cosine(a),
        is_cosine(b),
        a.le(b),
    ensures
        hamming_value(b).le(hamming_value(a)),
        hann_value(b).le(hann_value(a)),
{
    broadcast use lemma_build;

    lemma_ratio_positive(46, 100);
    lemma_ratio_ordered(46, 100, 1, 1);
    lemma_ratio_positive(54, 100);
    lemma_ratio_ordered(54, 100, 1, 1);
    lemma_exact_integer(1);
    lemma_value_order(ratio(46, 100), ratio(1, 1));
    lemma_one_half();
    lemma_weighted(ratio(46, 100), a, b);
    lemma_weighted(ratio(1, 2), a, b);
    lemma_fall(ratio(54, 100), ratio(46, 100) * a, ratio(46, 100) * b);
    lemma_fall(ratio(1, 2), ratio(1, 2) * a, ratio(1, 2) * b);
}

/// A difference falls as what is taken away grows.
proof fn lemma_fall(c: Double, x: Double, y: Double)
    requires
        c.is_finite(),
        x.is_finite(),
        y.is_finite(),
        x.le(y),
    ensures
        (c - y).le(c - x),
{
    broadcast use lemma_build;

    let nx = x.neg();
    let ny = y.neg();
    assert(ny.le(nx));
    lemma_sum_ordered(ny, nx, c);
    lemma_sum_commutes(ny, c);
    lemma_sum_commutes(nx, c);
}

/// A Hann window is zero at its ends and one in its middle, and lies between.
pub proof fn lemma_hann(c: Double)
    requires
        is_cosine(c),
    ensures
        hann_value(ratio(1, 1)) == zero(),
        hann_value(ratio(1, 1).neg()) == ratio(1, 1),
        zero().le(hann_value(c)),
        hann_value(c).le(ratio(1, 1)),
{
    broadcast use lemma_build;

    let h = ratio(1, 2);
    let one = ratio(1, 1);
    let minus = one.neg();
    lemma_one_half();
    lemma_exact_integer(1);
    lemma_pow2_pos(1073);
    assert(1 * one_units() == one_units());
    lemma_weight(h, one);
    lemma_weight(h, minus);
    assert(h * one == h);
    assert(h * minus == h.neg());
    assert(h - h == zero()) by {
        reveal(crate::arith::sum_to);
    }
    assert(h - h.neg() == one) by {
        reveal(crate::arith::sum_to);
        assert(pow2(1073) + pow2(1073) == one_units());
    }
    lemma_value_order(c, one);
    lemma_value_order(minus, c);
    lemma_windows_fall(c, one);
    lemma_windows_fall(minus, c);
}

/// The angles of a Hamming window go from zero to a full turn, those of a Hann window stop
/// short of it; a window has a value for every cosine.
pub proof fn lemma_angles(i: nat, n: nat, cosines: Seq<Double>)
    ensures
        ({
            let turn = ratio(6_283_185_307_179_586, 1_000_000_000_000_000);
            &&& n > 0 ==> hamming_angle(i, n) == ratio(i, 1) * (turn / ratio((n - 1) as nat, 1))
            &&& hann_angle(i, n) == turn * ratio(i, 1) / ratio(n, 1)
        }),
        hamming(cosines) == cosines.map_values(|c: Double| ratio(54, 100) - ratio(46, 100) * c),
        hann(cosines) == cosines.map_values(|c: Double| ratio(1, 2) - ratio(1, 2) * c),
{
    assert(hamming(cosines) =~= cosines.map_values(|c: Double| ratio(54, 100) - ratio(46, 100) * c));
    assert(hann(cosines) =~= cosines.map_values(|c: Double| ratio(1, 2) - ratio(1, 2) * c));
}

} // verus!
