//! Why cubics are fitted by normal equations: exact coefficients that satisfy them have the
//! smallest sum of squared errors.

use crate::double::{one_units, Double};
use crate::polyfit::{at, normal_equations};
use vstd::prelude::*;

verus! {

/// A power of a number, up to the third.
pub open spec fn cube(x: real, k: int) -> real {
    if k <= 0 {
        1real
    } else if k == 1 {
        x
    } else if k == 2 {
        x * x
    } else {
        x * x * x
    }
}

/// The number at a place of the exact normal equations of the first `n` points.
pub open spec fn exact_moment(x: Seq<real>, y: Seq<real>, n: int, k: int) -> real
    decreases n,
{
    if n <= 0 {
        0real
    } else {
        exact_moment(x, y, n - 1, k) + cube(x[n - 1], k / 5) * if k % 5 == 4 {
            y[n - 1]
        } else {
            cube(x[n - 1], k % 5)
        }
    }
}

/// The value of a cubic, its constant coefficient given first.
pub open spec fn cubic(c: Seq<real>, x: real) -> real {
    c[0] * cube(x, 0) + c[1] * cube(x, 1) + c[2] * cube(x, 2) + c[3] * cube(x, 3)
}

/// The sum of the squared errors of a cubic at the first `n` points.
pub open spec fn squared_errors(c: Seq<real>, x: Seq<real>, y: Seq<real>, n: int) -> real
    decreases n,
{
    if n <= 0 {
        0real
    } else {
        let e = y[n - 1] - cubic(c, x[n - 1]);
        squared_errors(c, x, y, n - 1) + e * e
    }
}

/// What remains of the right side of an equation once coefficients are put in.
pub open spec fn defect(m: Seq<real>, c: Seq<real>, row: int) -> real {
    m[at(row, 4)] - (m[at(row, 0)] * c[0] + m[at(row, 1)] * c[1] + m[at(row, 2)] * c[2] + m[at(row, 3)] * c[3])
}

/// Whether coefficients satisfy four equations.
pub open spec fn satisfies(m: Seq<real>, c: Seq<real>) -> bool {
    forall|row: int| 0 <= row < 4 ==> #[trigger] defect(m, c, row) == 0real
}

/// The exact normal equations of the first `n` points.
pub open spec fn exact_equations(x: Seq<real>, y: Seq<real>, n: int) -> Seq<real> {
    Seq::new(20, |k: int| exact_moment(x, y, n, k))
}

/// A product distributes over a sum.
proof fn lemma_spread(a: real, b: real, c: real)
    ensures
        a * (b + c) == a * b + a * c,
        (b + c) * a == b * a + c * a,
{
    assert(a * (b + c) == a * b + a * c) by (nonlinear_arith);
    assert((b + c) * a == b * a + c * a) by (nonlinear_arith);
}

/// A product does not depend on how it is bracketed.
proof fn lemma_bracket(a: real, b: real, c: real)
    ensures
        (a * b) * c == a * (b * c),
{
    assert((a * b) * c == a * (b * c)) by (nonlinear_arith);
}

/// A square is not negative.
proof fn lemma_square_positive(a: real)
    ensures
        a * a >= 0real,
{
    assert(a * a >= 0real) by (nonlinear_arith);
}

/// A term of a defect to which a point adds.
proof fn lemma_term(m: real, p: real, q: real, c: real)
    ensures
        (m + p * q) * c == m * c + p * (c * q),
{
    lemma_spread(c, m, p * q);
    lemma_bracket(p, q, c);
    assert(q * c == c * q) by (nonlinear_arith);
}

/// A product distributes over four terms.
proof fn lemma_spread_four(p: real, a: real, b: real, c: real, d: real)
    ensures
        p * (a + b + c + d) == p * a + p * b + p * c + p * d,
        (a + b + c + d) * p == a * p + b * p + c * p + d * p,
{
    lemma_spread(p, a + b + c, d);
    lemma_spread(p, a + b, c);
    lemma_spread(p, a, b);
}

/// A product distributes over a difference.
proof fn lemma_spread_difference(p: real, a: real, b: real)
    ensures
        p * (a - b) == p * a - p * b,
        (a - b) * p == a * p - b * p,
{
    lemma_spread(p, a - b, b);
}

/// What a point adds to a defect.
proof fn lemma_defect_step(
    m: (real, real, real, real, real),
    p: real,
    q: (real, real, real, real),
    v: real,
    c: (real, real, real, real),
)
    ensures
        (m.4 + p * v) - ((m.0 + p * q.0) * c.0 + (m.1 + p * q.1) * c.1 + (m.2 + p * q.2) * c.2 + (m.3 + p * q.3) * c.3)
            == (m.4 - (m.0 * c.0 + m.1 * c.1 + m.2 * c.2 + m.3 * c.3)) + p * (v - (c.0 * q.0 + c.1 * q.1 + c.2 * q.2
            + c.3 * q.3)),
{
    lemma_term(m.0, p, q.0, c.0);
    lemma_term(m.1, p, q.1, c.1);
    lemma_term(m.2, p, q.2, c.2);
    lemma_term(m.3, p, q.3, c.3);
    lemma_spread_difference(p, v, c.0 * q.0 + c.1 * q.1 + c.2 * q.2 + c.3 * q.3);
    lemma_spread_four(p, c.0 * q.0, c.1 * q.1, c.2 * q.2, c.3 * q.3);
}

/// The squared error of a point for other coefficients.
proof fn lemma_square_step(v: real, p: (real, real, real, real), c: (real, real, real, real), d: (real, real, real, real))
    ensures
        ({
            let e = v - (c.0 * p.0 + c.1 * p.1 + c.2 * p.2 + c.3 * p.3);
            let g = v - (d.0 * p.0 + d.1 * p.1 + d.2 * p.2 + d.3 * p.3);
            g * g >= e * e - 2real * ((d.0 - c.0) * (p.0 * e) + (d.1 - c.1) * (p.1 * e) + (d.2 - c.2) * (p.2 * e) + (d.3
                - c.3) * (p.3 * e))
        }),
{
    let e = v - (c.0 * p.0 + c.1 * p.1 + c.2 * p.2 + c.3 * p.3);
    let g = v - (d.0 * p.0 + d.1 * p.1 + d.2 * p.2 + d.3 * p.3);
    let (t0, t1, t2, t3) = (d.0 - c.0, d.1 - c.1, d.2 - c.2, d.3 - c.3);
    let f = t0 * p.0 + t1 * p.1 + t2 * p.2 + t3 * p.3;
    lemma_spread_difference(p.0, d.0, c.0);
    lemma_spread_difference(p.1, d.1, c.1);
    lemma_spread_difference(p.2, d.2, c.2);
    lemma_spread_difference(p.3, d.3, c.3);
    assert(g == e - f);
    lemma_spread_difference(g, e, f);
    lemma_spread_difference(e, e, f);
    lemma_spread_difference(f, e, f);
    assert(g * g == g * e - g * f);
    assert(e * f == f * e) by (nonlinear_arith);
    lemma_square_positive(f);
    assert(g * g == e * e - 2real * (f * e) + f * f);
    lemma_spread_four(e, t0 * p.0, t1 * p.1, t2 * p.2, t3 * p.3);
    lemma_bracket(t0, p.0, e);
    lemma_bracket(t1, p.1, e);
    lemma_bracket(t2, p.2, e);
    lemma_bracket(t3, p.3, e);
}

/// One point adds its error to the defect of an equation, times a power.
proof fn lemma_defect(x: Seq<real>, y: Seq<real>, c: Seq<real>, n: int, row: int)
    requires
        n > 0,
        0 <= row < 4,
    ensures
        defect(exact_equations(x, y, n), c, row) == defect(exact_equations(x, y, n - 1), c, row) + cube(
            x[n - 1],
            row,
        ) * (y[n - 1] - cubic(c, x[n - 1])),
{
    let m = exact_equations(x, y, n - 1);
    let after = exact_equations(x, y, n);
    let z = x[n - 1];
    let p = cube(z, row);
    let v = y[n - 1];
    assert(after[at(row, 0)] == m[at(row, 0)] + p * cube(z, 0));
    assert(after[at(row, 1)] == m[at(row, 1)] + p * cube(z, 1));
    assert(after[at(row, 2)] == m[at(row, 2)] + p * cube(z, 2));
    assert(after[at(row, 3)] == m[at(row, 3)] + p * cube(z, 3));
    assert(after[at(row, 4)] == m[at(row, 4)] + p * v);
    lemma_defect_step(
        (m[at(row, 0)], m[at(row, 1)], m[at(row, 2)], m[at(row, 3)], m[at(row, 4)]),
        p,
        (cube(z, 0), cube(z, 1), cube(z, 2), cube(z, 3)),
        v,
        (c[0], c[1], c[2], c[3]),
    );
}

/// The defects, weighted by the differences of coefficients.
spec fn gain(m: Seq<real>, c: Seq<real>, d: Seq<real>) -> real {
    (d[0] - c[0]) * defect(m, c, 0) + (d[1] - c[1]) * defect(m, c, 1) + (d[2] - c[2]) * defect(m, c, 2) + (d[3] - c[3])
        * defect(m, c, 3)
}

/// Without a defect there is nothing to gain.
proof fn lemma_no_gain(m: Seq<real>, c: Seq<real>, d: Seq<real>)
    requires
        satisfies(m, c),
    ensures
        gain(m, c, d) == 0real,
{
    assert(defect(m, c, 0) == 0real && defect(m, c, 1) == 0real && defect(m, c, 2) == 0real && defect(m, c, 3) == 0real);
    lemma_nothing(d[0] - c[0]);
    lemma_nothing(d[1] - c[1]);
    lemma_nothing(d[2] - c[2]);
    lemma_nothing(d[3] - c[3]);
}

/// A product with zero is zero.
proof fn lemma_nothing(a: real)
    ensures
        a * 0real == 0real,
        0real * a == 0real,
{
    assert(a * 0real == 0real) by (nonlinear_arith);
    assert(0real * a == 0real) by (nonlinear_arith);
}

/// The equations of no points are satisfied by everything.
proof fn lemma_no_points(x: Seq<real>, y: Seq<real>, c: Seq<real>)
    ensures
        satisfies(exact_equations(x, y, 0), c),
{
    lemma_nothing(c[0]);
    lemma_nothing(c[1]);
    lemma_nothing(c[2]);
    lemma_nothing(c[3]);
}

/// Other coefficients gain no more than the defects allow.
proof fn lemma_gain(x: Seq<real>, y: Seq<real>, c: Seq<real>, d: Seq<real>, n: int)
    requires
        n >= 0,
    ensures
        squared_errors(d, x, y, n) >= squared_errors(c, x, y, n) - 2real * gain(exact_equations(x, y, n), c, d),
    decreases n,
{
    if n == 0 {
        lemma_no_points(x, y, c);
        lemma_no_gain(exact_equations(x, y, 0), c, d);
    } else {
        lemma_gain(x, y, c, d, n - 1);
        let before = exact_equations(x, y, n - 1);
        let z = x[n - 1];
        let v = y[n - 1];
        let e = v - cubic(c, z);
        lemma_defect(x, y, c, n, 0);
        lemma_defect(x, y, c, n, 1);
        lemma_defect(x, y, c, n, 2);
        lemma_defect(x, y, c, n, 3);
        lemma_square_step(
            v,
            (cube(z, 0), cube(z, 1), cube(z, 2), cube(z, 3)),
            (c[0], c[1], c[2], c[3]),
            (d[0], d[1], d[2], d[3]),
        );
        lemma_spread(d[0] - c[0], defect(before, c, 0), cube(z, 0) * e);
        lemma_spread(d[1] - c[1], defect(before, c, 1), cube(z, 1) * e);
        lemma_spread(d[2] - c[2], defect(before, c, 2), cube(z, 2) * e);
        lemma_spread(d[3] - c[3], defect(before, c, 3), cube(z, 3) * e);
    }
}

/// No cubic fits points better than one whose coefficients satisfy their normal equations.
pub proof fn lemma_least_squares(x: Seq<real>, y: Seq<real>, c: Seq<real>, d: Seq<real>)
    requires
        x.len() == y.len(),
        satisfies(exact_equations(x, y, x.len() as int), c),
    ensures
        squared_errors(c, x, y, x.len() as int) <= squared_errors(d, x, y, x.len() as int),
{
    lemma_gain(x, y, c, d, x.len() as int);
    lemma_no_gain(exact_equations(x, y, x.len() as int), c, d);
}

/// The exact value of a finite number.
pub open spec fn exact(x: Double) -> real {
    x.value() as real / one_units() as real
}

/// The exact values of some numbers.
pub open spec fn exact_values(s: Seq<Double>) -> Seq<real> {
    s.map_values(|x: Double| exact(x))
}

/// Where the normal equations that are set up for points hold no rounding error, exact
/// coefficients that satisfy them have the smallest sum of squared errors at the points.
pub proof fn lemma_fit(x: Seq<Double>, y: Seq<Double>, c: Seq<real>, d: Seq<real>)
    requires
        x.len() == y.len(),
        exact_values(normal_equations(x, y, x.len() as int)) == exact_equations(
            exact_values(x),
            exact_values(y),
            x.len() as int,
        ),
        satisfies(exact_values(normal_equations(x, y, x.len() as int)), c),
    ensures
        squared_errors(c, exact_values(x), exact_values(y), x.len() as int) <= squared_errors(
            d,
            exact_values(x),
            exact_values(y),
            x.len() as int,
        ),
{
    lemma_least_squares(exact_values(x), exact_values(y), c, d);
}

} // verus!
