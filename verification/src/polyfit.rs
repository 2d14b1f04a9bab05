//! Cubic least-squares fits.
//!
//! The fit solves the normal equations of the cubic by Gaussian elimination with
//! partial pivoting. They are held as four rows of five numbers: the four
//! coefficients of an equation and its right side.

use crate::decimal::{decimal, digits_value, nearest_decimal};
use crate::double::{ratio, zero, Double};
use vstd::prelude::*;

verus! {

/// The place of the number in a row and a column.
pub open spec fn at(row: int, column: int) -> int {
    5 * row + column
}

/// The row, from `column` up to `end`, with the first of the largest numbers in a
/// column.
pub open spec fn pivot(m: Seq<Double>, column: int, end: int) -> int
    decreases end - column,
{
    if end <= column + 1 {
        column
    } else {
        let p = pivot(m, column, end - 1);
        if m[at(p, column)].abs().lt(m[at(end - 1, column)].abs()) {
            end - 1
        } else {
            p
        }
    }
}

/// The equations with two rows exchanged.
pub open spec fn swapped(m: Seq<Double>, i: int, j: int) -> Seq<Double> {
    Seq::new(
        20,
        |k: int|
            if k / 5 == i {
                m[at(j, k % 5)]
            } else if k / 5 == j {
                m[at(i, k % 5)]
            } else {
                m[k]
            },
    )
}

/// The equations after a multiple of the row of a column was taken from another row,
/// so that the number in the column vanishes there.
pub open spec fn eliminated_row(m: Seq<Double>, column: int, row: int) -> Seq<Double> {
    let factor = m[at(row, column)] / m[at(column, column)];
    if factor.same(zero()) {
        m
    } else {
        Seq::new(
            20,
            |k: int|
                if k / 5 == row && k % 5 >= column {
                    m[k] - factor * m[at(column, k % 5)]
                } else {
                    m[k]
                },
        )
    }
}

/// The equations after the elimination of a column from the rows below its own, up
/// to `end`.
pub open spec fn eliminated(m: Seq<Double>, column: int, end: int) -> Seq<Double>
    decreases end - column,
{
    if end <= column + 1 {
        m
    } else {
        eliminated_row(eliminated(m, column, end - 1), column, end - 1)
    }
}

/// The smallest magnitude that a pivot may have.
pub open spec fn smallest_pivot() -> Double {
    decimal(false, 1, -300)
}

/// The equations after the elimination of one column, where its pivot is large enough.
pub open spec fn reduced_column(m: Seq<Double>, column: int) -> Option<Seq<Double>> {
    let s = swapped(m, column, pivot(m, column, 4));
    if smallest_pivot().lt(s[at(column, column)].abs()) {
        Some(eliminated(s, column, 4))
    } else {
        None
    }
}

/// The equations after the elimination of the first columns.
pub open spec fn reduced(m: Seq<Double>, columns: int) -> Option<Seq<Double>>
    decreases columns,
{
    if columns <= 0 {
        Some(m)
    } else {
        match reduced(m, columns - 1) {
            Some(s) => reduced_column(s, columns - 1),
            None => None,
        }
    }
}

/// The right side of an equation after the unknowns from `row + 1` up to `end` were
/// put in; `known` holds the unknowns from `row + 1` on.
pub open spec fn remainder(m: Seq<Double>, known: Seq<Double>, row: int, end: int) -> Double
    decreases end - row,
{
    if end <= row + 1 {
        m[at(row, 4)]
    } else {
        remainder(m, known, row, end - 1) - m[at(row, end - 1)] * known[end - 1 - (row + 1)]
    }
}

/// The unknowns from `row` on.
pub open spec fn unknowns(m: Seq<Double>, row: int) -> Seq<Double>
    decreases 4 - row,
{
    if row >= 4 {
        Seq::empty()
    } else {
        let known = unknowns(m, row + 1);
        seq![remainder(m, known, row, 4) / m[at(row, row)]] + known
    }
}

/// The solution of four equations, where no pivot vanishes.
pub open spec fn solution(m: Seq<Double>) -> Option<Seq<Double>> {
    match reduced(m, 4) {
        Some(s) => Some(unknowns(s, 0)),
        None => None,
    }
}

/// A power of a number, up to the third.
pub open spec fn small_power(x: Double, k: int) -> Double {
    if k <= 0 {
        ratio(1, 1)
    } else if k == 1 {
        x
    } else if k == 2 {
        x * x
    } else {
        x * x * x
    }
}

/// What one point adds to the number at a place of the normal equations.
pub open spec fn moment(x: Double, y: Double, k: int) -> Double {
    small_power(x, k / 5) * if k % 5 == 4 {
        y
    } else {
        small_power(x, k % 5)
    }
}

/// The number at a place of the normal equations of the first `n` points.
pub open spec fn moments(x: Seq<Double>, y: Seq<Double>, n: int, k: int) -> Double
    decreases n,
{
    if n <= 0 {
        zero()
    } else {
        moments(x, y, n - 1, k) + moment(x[n - 1], y[n - 1], k)
    }
}

/// The normal equations of the first `n` points.
pub open spec fn normal_equations(x: Seq<Double>, y: Seq<Double>, n: int) -> Seq<Double> {
    Seq::new(20, |k: int| moments(x, y, n, k))
}

/// The coefficients of the cubic that fits some points best, the constant one first,
/// where the normal equations can be solved.
#[verifier::opaque]
pub open spec fn cubic_fit(x: Seq<Double>, y: Seq<Double>) -> Option<Seq<Double>> {
    solution(normal_equations(x, y, x.len() as int))
}

/// A power of a number.
pub open spec fn power(x: Double, k: int) -> Double
    decreases k,
{
    if k <= 0 {
        ratio(1, 1)
    } else {
        power(x, k - 1) * x
    }
}

/// The value of the first `n` terms of a polynomial.
pub open spec fn polynomial(coeffs: Seq<Double>, x: Double, n: int) -> Double
    decreases n,
{
    if n <= 0 {
        zero()
    } else {
        polynomial(coeffs, x, n - 1) + coeffs[n - 1] * power(x, n - 1)
    }
}

/// Evaluates a polynomial whose coefficients are given from the constant one on.
pub fn polyval(coeffs: &[Double], x: Double) -> (r: Double)
    ensures
        r == polynomial(coeffs@, x, coeffs@.len() as int),
{
    let mut result = Double::from_bits(0);
    let mut xp = Double::from_ratio(1, 1);
    let mut i: usize = 0;
    while i < coeffs.len()
        invariant
            i <= coeffs@.len(),
            result == polynomial(coeffs@, x, i as int),
            xp == power(x, i as int),
        decreases coeffs@.len() - i,
    {
        result = result + coeffs[i] * xp;
        xp = xp * x;
        i = i + 1;
    }
    result
}

fn pivot_row(m: &Vec<Double>, column: usize) -> (r: usize)
    requires
        m@.len() == 20,
        column < 4,
    ensures
        r == pivot(m@, column as int, 4),
        column <= r < 4,
{
    let mut best = column;
    let mut row = column + 1;
    while row < 4
        invariant
            m@.len() == 20,
            column < row <= 4,
            column <= best < row,
            best == pivot(m@, column as int, row as int),
        decreases 4 - row,
    {
        if m[5 * best + column].abs().less(m[5 * row + column].abs()) {
            best = row;
        }
        row = row + 1;
    }
    best
}

fn swap_rows(m: Vec<Double>, i: usize, j: usize) -> (r: Vec<Double>)
    requires
        m@.len() == 20,
        i < 4,
        j < 4,
    ensures
        r@ == swapped(m@, i as int, j as int),
{
    let mut out: Vec<Double> = Vec::new();
    let mut k: usize = 0;
    while k < 20
        invariant
            m@.len() == 20,
            i < 4,
            j < 4,
            k <= 20,
            out@ == swapped(m@, i as int, j as int).take(k as int),
        decreases 20 - k,
    {
        let row = k / 5;
        let x = if row == i {
            m[5 * j + k % 5]
        } else if row == j {
            m[5 * i + k % 5]
        } else {
            m[k]
        };
        let ghost all = swapped(m@, i as int, j as int);
        assert(all.take(k + 1) =~= all.take(k as int).push(all[k as int]));
        out.push(x);
        k = k + 1;
    }
    assert(out@ =~= swapped(m@, i as int, j as int));
    out
}

fn eliminate_row(m: &mut Vec<Double>, column: usize, row: usize)
    requires
        old(m)@.len() == 20,
        column < row < 4,
    ensures
        final(m)@ == eliminated_row(old(m)@, column as int, row as int),
        final(m)@.len() == 20,
{
    let ghost before = m@;
    let factor = m[5 * row + column] / m[5 * column + column];
    if factor.equals(Double::from_bits(0)) {
        return;
    }
    let ghost after = eliminated_row(before, column as int, row as int);
    let mut c = column;
    while c < 5
        invariant
            column < row < 4,
            column <= c <= 5,
            m@.len() == 20,
            before.len() == 20,
            factor == before[at(row as int, column as int)] / before[at(column as int, column as int)],
            !factor.same(zero()),
            after == eliminated_row(before, column as int, row as int),
            forall|k: int|
                0 <= k < 20 ==> #[trigger] m@[k] == if k / 5 == row && column <= k % 5 < c {
                    after[k]
                } else {
                    before[k]
                },
        decreases 5 - c,
    {
        let x = m[5 * row + c] - factor * m[5 * column + c];
        m.set(5 * row + c, x);
        c = c + 1;
    }
    assert(m@ =~= after);
}

/// Solves four equations by Gaussian elimination with partial pivoting; nothing where
/// a pivot vanishes.
fn solve_4x4(equations: Vec<Double>) -> (r: Option<[Double; 4]>)
    requires
        equations@.len() == 20,
    ensures
        match r {
            Some(x) => solution(equations@) == Some(x@),
            None => solution(equations@) is None,
        },
{
    let ghost m0 = equations@;
    let mut m = equations;
    let mut one: Vec<u8> = Vec::new();
    one.push(1);
    proof {
        assert(one@ =~= seq![1u8]);
        reveal_with_fuel(digits_value, 2);
        assert(seq![1u8].drop_last() =~= Seq::<u8>::empty());
    }
    let smallest = nearest_decimal(false, &one, -300);
    let mut column: usize = 0;
    while column < 4
        invariant
            column <= 4,
            m@.len() == 20,
            smallest == smallest_pivot(),
            m0 == equations@,
            reduced(m0, column as int) == Some(m@),
        decreases 4 - column,
    {
        let ghost before = m@;
        let p = pivot_row(&m, column);
        m = swap_rows(m, column, p);
        if !smallest.less(m[5 * column + column].abs()) {
            proof {
                assert(reduced_column(before, column as int) is None);
                assert(reduced(m0, column + 1) is None);
                lemma_stays_unsolved(m0, column + 1, 4);
            }
            return None;
        }
        let ghost s = m@;
        let mut row = column + 1;
        while row < 4
            invariant
                column < row <= 4,
                m@.len() == 20,
                m@ == eliminated(s, column as int, row as int),
            decreases 4 - row,
        {
            eliminate_row(&mut m, column, row);
            row = row + 1;
        }
        column = column + 1;
    }
    let x3 = m[19] / m[18];
    let x2 = (m[14] - m[13] * x3) / m[12];
    let x1 = (m[9] - m[7] * x2 - m[8] * x3) / m[6];
    let x0 = (m[4] - m[1] * x1 - m[2] * x2 - m[3] * x3) / m[0];
    let x = [x0, x1, x2, x3];
    proof {
        reveal_with_fuel(unknowns, 5);
        reveal_with_fuel(remainder, 5);
        assert(unknowns(m@, 4) =~= Seq::empty());
        assert(unknowns(m@, 3) =~= seq![x3]);
        assert(unknowns(m@, 2) =~= seq![x2, x3]);
        assert(unknowns(m@, 1) =~= seq![x1, x2, x3]);
        assert(unknowns(m@, 0) =~= seq![x0, x1, x2, x3]);
        assert(x@ =~= seq![x0, x1, x2, x3]);
    }
    Some(x)
}

/// A vanishing pivot leaves the equations unsolved.
proof fn lemma_stays_unsolved(m: Seq<Double>, i: int, j: int)
    requires
        i <= j,
        reduced(m, i) is None,
    ensures
        reduced(m, j) is None,
    decreases j - i,
{
    if i < j {
        lemma_stays_unsolved(m, i, j - 1);
    }
}

/// Fits a cubic to at least four points; nothing where a pivot of the normal equations
/// vanishes.
pub fn try_polyfit_cubic(x: &[Double], y: &[Double]) -> (r: Option<[Double; 4]>)
    requires
        x@.len() == y@.len(),
        x@.len() >= 4,
    ensures
        match r {
            Some(c) => cubic_fit(x@, y@) == Some(c@),
            None => cubic_fit(x@, y@) is None,
        },
{
    reveal(cubic_fit);
    let one = Double::from_ratio(1, 1);
    let mut m: Vec<Double> = Vec::new();
    let mut k: usize = 0;
    while k < 20
        invariant
            k <= 20,
            m@.len() == k,
            forall|i: int| 0 <= i < k ==> m@[i] == zero(),
        decreases 20 - k,
    {
        m.push(Double::from_bits(0));
        k = k + 1;
    }
    let mut i: usize = 0;
    assert(m@ =~= normal_equations(x@, y@, 0));
    while i < x.len()
        invariant
            i <= x@.len(),
            x@.len() == y@.len(),
            one == ratio(1, 1),
            m@.len() == 20,
            m@ == normal_equations(x@, y@, i as int),
        decreases x@.len() - i,
    {
        let xi = x[i];
        let yi = y[i];
        let square = xi * xi;
        let columns = [one, xi, square, square * xi, yi];
        let ghost before = m@;
        let mut k: usize = 0;
        while k < 20
            invariant
                k <= 20,
                i < x@.len(),
                x@.len() == y@.len(),
                before == normal_equations(x@, y@, i as int),
                columns@ == seq![ratio(1, 1), x@[i as int], x@[i as int] * x@[i as int], x@[i as int] * x@[i as int]
                    * x@[i as int], y@[i as int]],
                m@.len() == 20,
                forall|j: int|
                    0 <= j < 20 ==> #[trigger] m@[j] == if j < k {
                        moments(x@, y@, i + 1, j)
                    } else {
                        before[j]
                    },
            decreases 20 - k,
        {
            let term = columns[k / 5] * columns[k % 5];
            proof {
                assert(columns@[k as int / 5] == small_power(x@[i as int], k as int / 5));
                assert(term == moment(x@[i as int], y@[i as int], k as int));
            }
            let sum = m[k] + term;
            m.set(k, sum);
            k = k + 1;
        }
        assert(m@ =~= normal_equations(x@, y@, i + 1));
        i = i + 1;
    }
    solve_4x4(m)
}

/// Fits the cubic `c[0] + c[1] x + c[2] x^2 + c[3] x^3` to some points.
pub fn polyfit_cubic(x: &[Double], y: &[Double]) -> (r: [Double; 4])
    requires
        x@.len() == y@.len(),
        x@.len() >= 4,
        cubic_fit(x@, y@) is Some,
    ensures
        cubic_fit(x@, y@) == Some(r@),
{
    try_polyfit_cubic(x, y).unwrap()
}

} // verus!
