//! Polynomials and normal equations of whole numbers.

use crate::beats::added;
use crate::convert::lemma_exact_integer;
use crate::decimal::decimal;
use crate::double::{lemma_build, one_units, ratio, zero, Double, TOP};
use crate::polyfit::{
    cubic_fit, eliminated, moments, normal_equations, pivot, polynomial, power, reduced, reduced_column, remainder,
    solution, swapped, unknowns,
};
use crate::rounding::lemma_encode_scale;
use crate::silence::lemma_whole_sums;
use vstd::arithmetic::power2::*;
use vstd::prelude::*;

verus! {

/// A power of a whole number.
pub open spec fn whole_power(x: nat, k: nat) -> nat
    decreases k,
{
    if k == 0 {
        1
    } else {
        whole_power(x, (k - 1) as nat) * x
    }
}

/// Products of whole numbers are exact.
proof fn lemma_whole_product(a: nat, b: nat)
    requires
        a < TOP,
        b < TOP,
        a * b < TOP,
    ensures
        ratio(a, 1) * ratio(b, 1) == ratio(a * b, 1),
{
    broadcast use lemma_build;

    reveal(Double::times);
    let one = one_units();
    lemma_pow2_pos(1074);
    lemma_exact_integer(a);
    lemma_exact_integer(b);
    assert((a * one) * (b * one) == ((a * b) * one) * one) by (nonlinear_arith);
    lemma_encode_scale(TOP as nat, (a * b) * one, 1, one);
    assert(1 * one == one);
}

/// The value of a polynomial is the sum of its coefficients times the powers of the variable,
/// the constant one first.
pub proof fn lemma_polynomial(coeffs: Seq<Double>, x: Double, n: int)
    requires
        0 <= n <= coeffs.len(),
    ensures
        polynomial(coeffs, x, n) == added(Seq::new(n as nat, |k: int| coeffs[k] * power(x, k))),
    decreases n,
{
    let all = Seq::new(n as nat, |k: int| coeffs[k] * power(x, k));
    if n > 0 {
        lemma_polynomial(coeffs, x, n - 1);
        let before = Seq::new((n - 1) as nat, |k: int| coeffs[k] * power(x, k));
        assert(all.drop_last() =~= before);
        assert(all.last() == coeffs[n - 1] * power(x, n - 1));
        reveal_with_fuel(Seq::fold_left, 2);
    } else {
        assert(all =~= Seq::empty());
    }
}

/// The powers of a whole number are exact as long as they are below two to the precision.
pub proof fn lemma_power(x: nat, k: nat)
    requires
        forall|i: nat| i <= k ==> #[trigger] whole_power(x, i) < TOP,
        x < TOP,
    ensures
        power(ratio(x, 1), k as int) == ratio(whole_power(x, k), 1),
    decreases k,
{
    if k > 0 {
        let l = (k - 1) as nat;
        lemma_power(x, l);
        assert(whole_power(x, l) < TOP);
        assert(whole_power(x, k) < TOP);
        lemma_whole_product(whole_power(x, l), x);
    }
}

/// The power of a number that a row or a column of the normal equations stands for.
pub open spec fn factor_of(x: Double, k: int) -> Double {
    if k == 0 {
        ratio(1, 1)
    } else if k == 1 {
        x
    } else if k == 2 {
        x * x
    } else {
        x * x * x
    }
}

/// The sums of the normal equations, one by one.
proof fn lemma_moments_added(x: Seq<Double>, y: Seq<Double>, n: int, r: int, c: int)
    requires
        0 <= n <= x.len(),
        0 <= r < 4,
        0 <= c < 5,
    ensures
        moments(x, y, n, 5 * r + c) == added(
            Seq::new(
                n as nat,
                |i: int|
                    factor_of(x[i], r) * if c == 4 {
                        y[i]
                    } else {
                        factor_of(x[i], c)
                    },
            ),
        ),
    decreases n,
{
    let f = |i: int|
        factor_of(x[i], r) * if c == 4 {
            y[i]
        } else {
            factor_of(x[i], c)
        };
    let all = Seq::new(n as nat, f);
    let k = 5 * r + c;
    assert(k / 5 == r && k % 5 == c);
    if n > 0 {
        lemma_moments_added(x, y, n - 1, r, c);
        let before = Seq::new((n - 1) as nat, f);
        assert(all.drop_last() =~= before);
        assert(all.last() == f(n - 1));
        assert(crate::polyfit::moment(x[n - 1], y[n - 1], k) == f(n - 1));
        reveal_with_fuel(Seq::fold_left, 2);
    } else {
        assert(all =~= Seq::empty());
    }
}

/// Every number of the normal equations is the sum over all points of the product of two
/// powers of `x`, that of the row and that of the column; on the right side `y` stands for
/// the latter.
pub proof fn lemma_equations(x: Seq<Double>, y: Seq<Double>, r: int, c: int)
    requires
        0 <= r < 4,
        0 <= c < 5,
    ensures
        normal_equations(x, y, x.len() as int)[5 * r + c] == added(
            Seq::new(
                x.len(),
                |i: int|
                    factor_of(x[i], r) * if c == 4 {
                        y[i]
                    } else {
                        factor_of(x[i], c)
                    },
            ),
        ),
{
    lemma_moments_added(x, y, x.len() as int, r, c);
}

/// What one point of whole numbers adds to the number at a place of the normal equations:
/// the power of `x` that the row has, times that of the column or, on the right side, `y`.
pub open spec fn whole_moment(x: nat, y: nat, k: int) -> nat {
    whole_power(x, (k / 5) as nat) * if k % 5 == 4 {
        y
    } else {
        whole_power(x, (k % 5) as nat)
    }
}

/// The sum of what the first `n` points of whole numbers add.
pub open spec fn whole_moments(x: Seq<nat>, y: Seq<nat>, n: int, k: int) -> nat
    decreases n,
{
    if n <= 0 {
        0
    } else {
        whole_moments(x, y, n - 1, k) + whole_moment(x[n - 1], y[n - 1], k)
    }
}

/// A point of whole numbers.
proof fn lemma_moment(x: nat, y: nat, k: int)
    requires
        0 <= k < 20,
        x < TOP,
        y < TOP,
        whole_power(x, 3) < TOP,
        whole_moment(x, y, k) < TOP,
    ensures
        crate::polyfit::moment(ratio(x, 1), ratio(y, 1), k) == ratio(whole_moment(x, y, k), 1),
{
    reveal_with_fuel(whole_power, 4);
    let s = x * x;
    assert(1 * x == x);
    assert(whole_power(x, 2) == s);
    assert(whole_power(x, 3) == s * x);
    assert(s < TOP) by {
        if x > 0 {
            assert(s <= s * x) by (nonlinear_arith)
                requires
                    x > 0,
            ;
        } else {
            assert(0 * 0 == 0);
        }
    }
    lemma_whole_product(x, x);
    lemma_whole_product(s, x);
    let row = whole_power(x, (k / 5) as nat);
    let column = if k % 5 == 4 {
        y
    } else {
        whole_power(x, (k % 5) as nat)
    };
    assert(row == 1 || row == x || row == s || row == s * x);
    assert(crate::polyfit::small_power(ratio(x, 1), k / 5) == ratio(row, 1));
    lemma_whole_product(row, column);
}

/// The sums at a place of the normal equations.
proof fn lemma_moments(x: Seq<Double>, y: Seq<Double>, a: Seq<nat>, b: Seq<nat>, n: int, k: int)
    requires
        0 <= k < 20,
        0 <= n <= x.len(),
        x.len() == y.len(),
        a.len() == x.len(),
        b.len() == x.len(),
        forall|i: int|
            0 <= i < x.len() ==> (#[trigger] x[i]) == ratio(a[i], 1) && y[i] == ratio(b[i], 1) && a[i] < TOP && b[i] < TOP
                && whole_power(a[i], 3) < TOP,
        whole_moments(a, b, n, k) < TOP,
    ensures
        moments(x, y, n, k) == ratio(whole_moments(a, b, n, k), 1),
    decreases n,
{
    if n > 0 {
        lemma_moments(x, y, a, b, n - 1, k);
        assert(x[n - 1] == ratio(a[n - 1], 1));
        lemma_moment(a[n - 1], b[n - 1], k);
        lemma_whole_sums(whole_moments(a, b, n - 1, k), whole_moment(a[n - 1], b[n - 1], k));
    } else {
        lemma_whole_sums(0, 0);
    }
}

/// The normal equations of points of whole numbers are those of the cubic: row by row and
/// column by column the sums of the products of the powers of `x`, and on the right side those
/// with `y`, exact as long as they are below two to the precision.
pub proof fn lemma_normal_equations(x: Seq<Double>, y: Seq<Double>, a: Seq<nat>, b: Seq<nat>, k: int)
    requires
        0 <= k < 20,
        x.len() == y.len(),
        a.len() == x.len(),
        b.len() == x.len(),
        forall|i: int|
            0 <= i < x.len() ==> (#[trigger] x[i]) == ratio(a[i], 1) && y[i] == ratio(b[i], 1) && a[i] < TOP && b[i] < TOP
                && whole_power(a[i], 3) < TOP,
        whole_moments(a, b, x.len() as int, k) < TOP,
    ensures
        normal_equations(x, y, x.len() as int).len() == 20,
        normal_equations(x, y, x.len() as int)[k] == ratio(whole_moments(a, b, x.len() as int, k), 1),
{
    lemma_moments(x, y, a, b, x.len() as int, k);
}

/// The number in a row and a column of the equations, with two rows exchanged.
pub open spec fn entry(m: Seq<Double>, i: int, j: int, row: int, column: int) -> Double {
    if row == i {
        m[5 * j + column]
    } else if row == j {
        m[5 * i + column]
    } else {
        m[5 * row + column]
    }
}

/// Whether the row at `p` has the first of the largest numbers in a column, from the row of
/// the column on.
pub open spec fn is_pivot(m: Seq<Double>, c: int, p: int) -> bool {
    &&& c <= p < 4
    &&& forall|r: int| c <= r < 4 ==> !m[5 * p + c].abs().lt((#[trigger] m[5 * r + c]).abs())
    &&& forall|r: int| c <= r < p ==> (#[trigger] m[5 * r + c]).abs().lt(m[5 * p + c].abs()) || m[5 * r + c].is_nan()
}

/// Whether equations come from others by the elimination of a column: the row of the pivot and
/// that of the column are exchanged, and from each row below a multiple of the row of the
/// column is taken, so that the number in the column vanishes.
pub open spec fn is_eliminated(m: Seq<Double>, n: Seq<Double>, c: int, p: int) -> bool {
    &&& is_pivot(m, c, p)
    &&& decimal(false, 1, -300).lt(entry(m, c, p, c, c).abs())
    &&& n.len() == 20
    &&& forall|r: int, k: int|
        0 <= r < 4 && 0 <= k < 5 ==> (#[trigger] n[5 * r + k]) == {
            let factor = entry(m, c, p, r, c) / entry(m, c, p, c, c);
            if r > c && k >= c && !factor.same(zero()) {
                entry(m, c, p, r, k) - factor * entry(m, c, p, c, k)
            } else {
                entry(m, c, p, r, k)
            }
        }
}

/// The pivot of a column.
proof fn lemma_pivot(m: Seq<Double>, c: int, end: int)
    requires
        0 <= c < end,
    ensures
        c <= pivot(m, c, end) < end,
        forall|r: int| c <= r < end ==> !m[5 * pivot(m, c, end) + c].abs().lt((#[trigger] m[5 * r + c]).abs()),
        forall|r: int|
            c <= r < pivot(m, c, end) ==> (#[trigger] m[5 * r + c]).abs().lt(m[5 * pivot(m, c, end) + c].abs())
                || m[5 * r + c].is_nan(),
    decreases end - c,
{
    broadcast use lemma_build;

    if end > c + 1 {
        lemma_pivot(m, c, end - 1);
        let before = pivot(m, c, end - 1);
        let p = pivot(m, c, end);
        assert forall|r: int| c <= r < end implies !m[5 * p + c].abs().lt((#[trigger] m[5 * r + c]).abs()) by {
            if r < end - 1 {
                assert(!m[5 * before + c].abs().lt(m[5 * r + c].abs()));
            }
        }
        assert forall|r: int| c <= r < p implies (#[trigger] m[5 * r + c]).abs().lt(m[5 * p + c].abs())
            || m[5 * r + c].is_nan() by {
            if p == end - 1 {
                assert(!m[5 * before + c].abs().lt(m[5 * r + c].abs()));
            }
        }
    }
}

/// The rows below a column, one by one.
proof fn lemma_rows(s: Seq<Double>, c: int, end: int)
    requires
        s.len() == 20,
        0 <= c < 4,
        c < end <= 4,
    ensures
        eliminated(s, c, end).len() == 20,
        forall|r: int, k: int|
            0 <= r < 4 && 0 <= k < 5 ==> (#[trigger] eliminated(s, c, end)[5 * r + k]) == {
                let factor = s[5 * r + c] / s[5 * c + c];
                if c < r < end && k >= c && !factor.same(zero()) {
                    s[5 * r + k] - factor * s[5 * c + k]
                } else {
                    s[5 * r + k]
                }
            },
    decreases end - c,
{
    if end > c + 1 {
        lemma_rows(s, c, end - 1);
        let t = eliminated(s, c, end - 1);
        let row = end - 1;
        assert(t[5 * row + c] == s[5 * row + c]);
        assert(t[5 * c + c] == s[5 * c + c]);
        assert forall|r: int, k: int| 0 <= r < 4 && 0 <= k < 5 implies (#[trigger] eliminated(s, c, end)[5 * r + k]) == {
            let factor = s[5 * r + c] / s[5 * c + c];
            if c < r < end && k >= c && !factor.same(zero()) {
                s[5 * r + k] - factor * s[5 * c + k]
            } else {
                s[5 * r + k]
            }
        } by {
            assert((5 * r + k) / 5 == r && (5 * r + k) % 5 == k);
            assert(t[5 * r + k] == {
                let factor = s[5 * r + c] / s[5 * c + c];
                if c < r < end - 1 && k >= c && !factor.same(zero()) {
                    s[5 * r + k] - factor * s[5 * c + k]
                } else {
                    s[5 * r + k]
                }
            });
            assert(t[5 * c + k] == s[5 * c + k]);
        }
    }
}

/// The elimination of one column.
proof fn lemma_column(m: Seq<Double>, c: int) -> (p: int)
    requires
        m.len() == 20,
        0 <= c < 4,
        reduced_column(m, c) is Some,
    ensures
        is_eliminated(m, reduced_column(m, c).unwrap(), c, p),
{
    let p = pivot(m, c, 4);
    let s = swapped(m, c, p);
    let n = eliminated(s, c, 4);
    lemma_pivot(m, c, 4);
    lemma_rows(s, c, 4);
    assert forall|r: int, k: int| 0 <= r < 4 && 0 <= k < 5 implies s[5 * r + k] == #[trigger] entry(m, c, p, r, k) by {
        assert((5 * r + k) / 5 == r && (5 * r + k) % 5 == k);
    }
    assert forall|r: int, k: int| 0 <= r < 4 && 0 <= k < 5 implies (#[trigger] n[5 * r + k]) == {
        let factor = entry(m, c, p, r, c) / entry(m, c, p, c, c);
        if r > c && k >= c && !factor.same(zero()) {
            entry(m, c, p, r, k) - factor * entry(m, c, p, c, k)
        } else {
            entry(m, c, p, r, k)
        }
    } by {
        assert(s[5 * r + k] == entry(m, c, p, r, k));
        assert(s[5 * r + c] == entry(m, c, p, r, c));
        assert(s[5 * c + c] == entry(m, c, p, c, c));
        assert(s[5 * c + k] == entry(m, c, p, c, k));
    }
    assert(s[5 * c + c] == entry(m, c, p, c, c));
    p
}

/// Whether numbers solve equations of which each has one unknown less than the one before,
/// each computed from those behind it.
pub open spec fn is_solved(m: Seq<Double>, u: Seq<Double>) -> bool {
    &&& u.len() == 4
    &&& u[3] == m[19] / m[18]
    &&& u[2] == (m[14] - m[13] * u[3]) / m[12]
    &&& u[1] == ((m[9] - m[7] * u[2]) - m[8] * u[3]) / m[6]
    &&& u[0] == (((m[4] - m[1] * u[1]) - m[2] * u[2]) - m[3] * u[3]) / m[0]
}

/// Four equations are solved by the elimination of one column after the other, each with its
/// largest number as the pivot, and then from the last unknown to the first.
pub proof fn lemma_solution(m: Seq<Double>, u: Seq<Double>)
    requires
        m.len() == 20,
        solution(m) == Some(u),
    ensures
        exists|a: Seq<Double>, b: Seq<Double>, c: Seq<Double>, d: Seq<Double>, i: int, j: int, k: int, l: int|
            {
                &&& #[trigger] is_eliminated(m, a, 0, i)
                &&& #[trigger] is_eliminated(a, b, 1, j)
                &&& #[trigger] is_eliminated(b, c, 2, k)
                &&& #[trigger] is_eliminated(c, d, 3, l)
                &&& is_solved(d, u)
            },
{
    reveal_with_fuel(reduced, 5);
    let a = reduced_column(m, 0).unwrap();
    let i = lemma_column(m, 0);
    let b = reduced_column(a, 1).unwrap();
    let j = lemma_column(a, 1);
    let c = reduced_column(b, 2).unwrap();
    let k = lemma_column(b, 2);
    let d = reduced_column(c, 3).unwrap();
    let l = lemma_column(c, 3);
    lemma_back(d);
    assert(is_solved(d, u));
}

/// The unknowns, from the last to the first.
proof fn lemma_back(d: Seq<Double>)
    ensures
        is_solved(d, unknowns(d, 0)),
{
    reveal_with_fuel(unknowns, 5);
    reveal_with_fuel(remainder, 5);
    let none = unknowns(d, 4);
    let u3 = unknowns(d, 3);
    assert(u3 =~= seq![d[19] / d[18]]);
    let u2 = unknowns(d, 2);
    assert(u2.len() == 2);
    assert(u2[1] == u3[0]);
    assert(u2[0] == (d[14] - d[13] * u3[0]) / d[12]);
    let u1 = unknowns(d, 1);
    assert(u1.len() == 3);
    assert(u1[1] == u2[0] && u1[2] == u2[1]);
    assert(u1[0] == ((d[9] - d[7] * u2[0]) - d[8] * u2[1]) / d[6]);
    let u0 = unknowns(d, 0);
    assert(u0[1] == u1[0] && u0[2] == u1[1] && u0[3] == u1[2]);
    assert(u0[0] == (((d[4] - d[1] * u1[0]) - d[2] * u1[1]) - d[3] * u1[2]) / d[0]);
}

/// The cubic that fits points is the solution of their normal equations.
pub proof fn lemma_cubic_fit(x: Seq<Double>, y: Seq<Double>)
    ensures
        cubic_fit(x, y) == solution(normal_equations(x, y, x.len() as int)),
{
    reveal(cubic_fit);
}

} // verus!
