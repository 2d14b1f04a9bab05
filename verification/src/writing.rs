//! What is written can be read again.

use crate::decimal::{decimal, digits_value, ten};
use crate::display::{figure, figures, fixed_text, integer_text, point_text};
use crate::double::{one_units, ratio, round, Double};
use crate::numeral::{digit, digits, digits_end, double_of, is_digit, plain_number, u32_of};
use crate::precision::apart;
use crate::rounding::nearest;
use crate::text::{find, is_space, lemma_find, lowered, pieces, trimmed, trimmed_end, trimmed_start};
use vstd::arithmetic::div_mod::*;
use vstd::prelude::*;
use vstd::string::*;

verus! {

/// The character of a digit is a digit of the same value.
proof fn lemma_figure(d: nat)
    requires
        d < 10,
    ensures
        is_digit(figure(d)),
        digit(figure(d)) == d,
        figure(d) == '0' <==> d == 0,
{
}

/// The digits of a number write the number. There are at least as many as asked for, and no
/// zero before the others but where it is asked for.
pub proof fn lemma_figures(n: nat, least: nat)
    ensures
        forall|i: int| 0 <= i < figures(n, least).len() ==> is_digit(#[trigger] figures(n, least)[i]),
        digits_value(digits(figures(n, least))) == n,
        figures(n, least).len() >= least,
        figures(n, least).len() > least ==> figures(n, least)[0] != '0',
    decreases n, least,
{
    if n > 0 || least > 0 {
        let rest = n / 10;
        let fewer = if least > 0 {
            (least - 1) as nat
        } else {
            0
        };
        lemma_figures(rest, fewer);
        lemma_figure(n % 10);
        let before = figures(rest, fewer);
        let all = figures(n, least);
        assert(all == before.push(figure(n % 10)));
        assert(digits(all).drop_last() =~= digits(before));
        assert(digits(all).last() == n % 10);
        assert forall|i: int| 0 <= i < all.len() implies is_digit(#[trigger] all[i]) by {
            if i < before.len() {
                assert(is_digit(before[i]));
            }
        }
        if all.len() > least && before.len() == 0 {
            assert(rest == 0) by {
                assert(digits(before) =~= Seq::empty());
            }
        }
    } else {
        assert(digits(figures(n, least)) =~= Seq::empty());
    }
}

/// A run of digits ends at its end.
proof fn lemma_run(s: Seq<char>, from: int, end: int)
    requires
        0 <= from <= end <= s.len(),
        forall|i: int| from <= i < end ==> is_digit(#[trigger] s[i]),
        end < s.len() ==> !is_digit(s[end]),
    ensures
        digits_end(s, from) == end,
    decreases end - from,
{
    if from < end {
        assert(is_digit(s[from]));
        lemma_run(s, from + 1, end);
    }
}

/// An integer that is written in decimal reads as the integer.
pub proof fn lemma_integer_read(n: nat)
    ensures
        n <= u32::MAX ==> u32_of(integer_text(n)) == Some(n as u32),
        double_of(integer_text(n)) == Some(ratio(n, 1)),
{
    let s = integer_text(n);
    lemma_figures(n, 1);
    assert(is_digit(s[0]));
    lemma_run(s, 0, s.len() as int);
    lemma_no_word(s);
    assert(s.take(s.len() as int) + Seq::<char>::empty() =~= s);
    assert(s.skip(s.len() as int) =~= Seq::<char>::empty());
    assert(ten(0) == 1);
    assert(n * ten(0) * one_units() == n * one_units()) by (nonlinear_arith)
        requires
            ten(0) == 1,
    ;
}

/// What starts with a digit is no word.
proof fn lemma_no_word(s: Seq<char>)
    requires
        s.len() > 0,
        is_digit(s[0]),
    ensures
        lowered(s) != "inf"@,
        lowered(s) != "infinity"@,
        lowered(s) != "nan"@,
{
    reveal_strlit("inf");
    reveal_strlit("infinity");
    reveal_strlit("nan");
    assert(lowered(s)[0] == crate::text::lower(s[0]));
    assert("inf"@[0] == 'i');
    assert("infinity"@[0] == 'i');
    assert("nan"@[0] == 'n');
}

/// A number that is written with a point reads as so many parts of a unit.
proof fn lemma_point_read(negative: bool, parts: nat, places: nat)
    ensures
        plain_number(negative, point_text(parts, places)) == Some(
            round(negative, parts * one_units(), ten(places)),
        ),
        point_text(parts, places).len() > 0,
        is_digit(point_text(parts, places)[0]),
{
    let all = figures(parts, places + 1);
    let s = point_text(parts, places);
    lemma_figures(parts, places + 1);
    assert(is_digit(all[0]));
    if places == 0 {
        lemma_run(s, 0, s.len() as int);
        assert(s.take(s.len() as int) + Seq::<char>::empty() =~= s);
        assert(s.skip(s.len() as int) =~= Seq::<char>::empty());
        assert(ten(0) == 1);
        assert(parts * ten(0) * one_units() == parts * one_units()) by (nonlinear_arith)
            requires
                ten(0) == 1,
        ;
    } else {
        let point = all.len() - places;
        let n = s.len() as int;
        assert forall|i: int| 0 <= i < point implies is_digit(#[trigger] s[i]) by {
            assert(s[i] == all[i]);
        }
        assert(s[point] == '.');
        lemma_run(s, 0, point);
        assert forall|i: int| point + 1 <= i < n implies is_digit(#[trigger] s[i]) by {
            assert(s[i] == all[i - 1]);
        }
        lemma_run(s, point + 1, n);
        assert(s.take(point) + s.subrange(point + 1, n) =~= all);
        assert(s.skip(n) =~= Seq::<char>::empty());
        assert(s.subrange(point + 1, n).len() == places);
        assert(s[0] == all[0]);
    }
}

/// The nearest whole number of parts.
proof fn lemma_nearest_parts(n: nat, d: nat)
    requires
        d > 0,
    ensures
        2 * apart(nearest(n, d) * d, n) <= d,
{
    let q = n / d;
    let r = n % d;
    lemma_fundamental_div_mod(n as int, d as int);
    lemma_mod_bound(n as int, d as int);
    assert((q + 1) * d == q * d + d) by (nonlinear_arith);
    assert(d * q == q * d) by (nonlinear_arith);
}

/// A finite number that is written with some decimal places reads as a decimal of so many
/// places that is not farther from it than half of the last place, and of its sign.
pub proof fn lemma_fixed_read(x: Double, places: nat, plus: bool)
    requires
        x.is_finite(),
    ensures
        exists|parts: nat|
            {
                &&& 2 * apart(parts * one_units(), x.magnitude() * ten(places)) <= one_units()
                &&& double_of(fixed_text(x, places, plus)) == Some(
                    #[trigger] round(x.negative(), parts * one_units(), ten(places)),
                )
            },
{
    let one = one_units();
    vstd::arithmetic::power2::lemma_pow2_pos(1074);
    let parts = nearest(x.magnitude() * ten(places), one);
    lemma_nearest_parts(x.magnitude() * ten(places), one);
    lemma_point_read(x.negative(), parts, places);
    let body = point_text(parts, places);
    let s = fixed_text(x, places, plus);
    lemma_no_word(body);
    if x.negative() || plus {
        assert(s.skip(1) =~= body);
    } else {
        assert(s =~= body);
    }
    assert(double_of(s) == Some(round(x.negative(), parts * one, ten(places))));
}

/// Only the first separator matters to the first piece.
proof fn lemma_pieces_from(s: Seq<char>, t: Seq<char>, c: char, from: int, shift: int)
    requires
        0 <= from <= t.len(),
        shift >= 0,
        s.len() == t.len() + shift,
        s.skip(shift) == t,
    ensures
        pieces(s, c, from + shift) == pieces(t, c, from),
    decreases t.len() - from,
{
    lemma_find(s, c, from + shift);
    lemma_find(t, c, from);
    let a = find(s, c, from + shift);
    let b = find(t, c, from);
    assert forall|i: int| 0 <= i < t.len() implies t[i] == s[i + shift] by {
        assert(s.skip(shift)[i] == s[i + shift]);
    }
    assert(a == b + shift) by {
        if a < b + shift {
            assert(t[a - shift] == s[a]);
        }
        if b + shift < a {
            assert(t[b] == s[b + shift]);
        }
    }
    assert(s.subrange(from + shift, a) =~= t.subrange(from, b));
    if b < t.len() {
        lemma_pieces_from(s, t, c, b + 1, shift);
    } else {
        assert(s.subrange(from + shift, s.len() as int) =~= t.subrange(from, t.len() as int));
    }
}

/// A text without separators is one piece; a separator ends the piece before it.
pub proof fn lemma_pieces(first: Seq<char>, rest: Seq<char>, c: char)
    requires
        forall|i: int| 0 <= i < first.len() ==> first[i] != c,
    ensures
        pieces(first, c, 0) == seq![first],
        pieces(first.push(c) + rest, c, 0) == seq![first] + pieces(rest, c, 0),
{
    let n = first.len() as int;
    lemma_find(first, c, 0);
    assert(first.subrange(0, n) =~= first);
    let s = first.push(c) + rest;
    lemma_find(s, c, 0);
    assert(find(s, c, 0) == n) by {
        assert(s[n] == c);
        let f = find(s, c, 0);
        if f < n {
            assert(s[f] == first[f]);
        }
    }
    assert(s.subrange(0, n) =~= first);
    assert(s.skip(n + 1) =~= rest);
    lemma_pieces_from(s, rest, c, 0, n + 1);
}

/// The white space at the end.
proof fn lemma_end(s: Seq<char>) -> (j: int)
    ensures
        0 <= j <= s.len(),
        trimmed_end(s) == s.take(j),
        forall|i: int| j <= i < s.len() ==> is_space(#[trigger] s[i]),
        j > 0 ==> !is_space(s[j - 1]),
    decreases s.len(),
{
    if s.len() > 0 && is_space(s.last()) {
        let j = lemma_end(s.drop_last());
        assert(s.drop_last().take(j) =~= s.take(j));
        assert forall|i: int| j <= i < s.len() implies is_space(#[trigger] s[i]) by {
            if i < s.len() - 1 {
                assert(s.drop_last()[i] == s[i]);
            }
        }
        j
    } else {
        assert(s.take(s.len() as int) =~= s);
        s.len() as int
    }
}

/// The white space at the start.
proof fn lemma_start(s: Seq<char>) -> (j: int)
    ensures
        0 <= j <= s.len(),
        trimmed_start(s) == s.skip(j),
        forall|i: int| 0 <= i < j ==> is_space(#[trigger] s[i]),
        j < s.len() ==> !is_space(s[j]),
    decreases s.len(),
{
    if s.len() > 0 && is_space(s[0]) {
        let j = lemma_start(s.drop_first());
        assert(s.drop_first().skip(j) =~= s.skip(j + 1));
        assert forall|i: int| 0 <= i < j + 1 implies is_space(#[trigger] s[i]) by {
            if i > 0 {
                assert(s.drop_first()[i - 1] == s[i]);
            }
        }
        j + 1
    } else {
        assert(s.skip(0) =~= s);
        0
    }
}

/// Trimming takes the white space at both ends away, all of it and nothing else.
pub proof fn lemma_trimmed(s: Seq<char>)
    ensures
        exists|a: int, b: int|
            {
                &&& 0 <= a <= b <= s.len()
                &&& trimmed(s) == #[trigger] s.subrange(a, b)
                &&& forall|i: int| 0 <= i < a || b <= i < s.len() ==> is_space(#[trigger] s[i])
                &&& a < b ==> !is_space(s[a]) && !is_space(s[b - 1])
            },
{
    let a = lemma_start(s);
    let t = s.skip(a);
    let j = lemma_end(t);
    let b = a + j;
    assert(t.take(j) =~= s.subrange(a, b));
    assert forall|i: int| 0 <= i < a || b <= i < s.len() implies is_space(#[trigger] s[i]) by {
        if b <= i {
            assert(t[i - a] == s[i]);
        }
    }
    if a < b {
        assert(t[j - 1] == s[b - 1]);
    }
}

} // verus!
