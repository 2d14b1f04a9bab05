//! Numbers as people write them.

use crate::decimal::{decimal, digits_value, nearest_decimal};
use crate::double::{build, infinity, Double, INFINITE, NOT_A_NUMBER};
use crate::text::{lowercase, lowered, portion, reads};
use vstd::prelude::*;

verus! {

pub open spec fn is_digit(c: char) -> bool {
    '0' <= c <= '9'
}

/// The value of a digit.
pub open spec fn digit(c: char) -> u8 {
    (c as u32 - '0' as u32) as u8
}

/// The values of some digits.
pub open spec fn digits(s: Seq<char>) -> Seq<u8> {
    s.map_values(|c: char| digit(c))
}

/// The place behind the digits that stand at a place.
pub open spec fn digits_end(s: Seq<char>, from: int) -> int
    decreases s.len() - from,
{
    if 0 <= from < s.len() && is_digit(s[from]) {
        digits_end(s, from + 1)
    } else {
        from
    }
}

/// The exponent that ends a numeral: nothing, or an `e` with a whole number.
pub open spec fn exponent(s: Seq<char>) -> Option<int> {
    if s.len() == 0 {
        Some(0)
    } else if s[0] != 'e' && s[0] != 'E' {
        None
    } else {
        let signed = s.len() > 1 && (s[1] == '-' || s[1] == '+');
        let start = if signed {
            2int
        } else {
            1int
        };
        if start >= s.len() || digits_end(s, start) != s.len() {
            None
        } else {
            let size = digits_value(digits(s.skip(start))) as int;
            Some(
                if s[1] == '-' {
                    -size
                } else {
                    size
                },
            )
        }
    }
}

/// The number that digits, a point among or beside them, and an exponent write.
pub open spec fn plain_number(negative: bool, s: Seq<char>) -> Option<Double> {
    let point = digits_end(s, 0);
    let end = if point < s.len() && s[point] == '.' {
        digits_end(s, point + 1)
    } else {
        point
    };
    let fraction = if end > point {
        s.subrange(point + 1, end)
    } else {
        Seq::empty()
    };
    let figures = s.take(point) + fraction;
    if figures.len() == 0 {
        None
    } else {
        match exponent(s.skip(end)) {
            Some(e) => Some(decimal(negative, digits_value(digits(figures)), e - fraction.len())),
            None => None,
        }
    }
}

/// The double that a numeral writes: an optional sign, then `inf`, `infinity`, `nan`
/// in letters of either case, or a plain number.
pub open spec fn double_of(s: Seq<char>) -> Option<Double> {
    let negative = s.len() > 0 && s[0] == '-';
    let body = if s.len() > 0 && (s[0] == '-' || s[0] == '+') {
        s.skip(1)
    } else {
        s
    };
    let word = lowered(body);
    if word == "inf"@ || word == "infinity"@ {
        Some(infinity(negative))
    } else if word == "nan"@ {
        Some(build(negative, NOT_A_NUMBER as nat))
    } else {
        plain_number(negative, body)
    }
}

/// The unsigned integer that a numeral writes: an optional plus sign and digits
/// whose value fits.
pub open spec fn u32_of(s: Seq<char>) -> Option<u32> {
    let body = if s.len() > 0 && s[0] == '+' {
        s.skip(1)
    } else {
        s
    };
    let value = digits_value(digits(body));
    if body.len() > 0 && digits_end(body, 0) == body.len() && value <= u32::MAX {
        Some(value as u32)
    } else {
        None
    }
}

proof fn lemma_digits_end(s: Seq<char>, from: int)
    requires
        0 <= from <= s.len(),
    ensures
        from <= digits_end(s, from) <= s.len(),
        forall|i: int| from <= i < digits_end(s, from) ==> is_digit(s[i]),
    decreases s.len() - from,
{
    if from < s.len() && is_digit(s[from]) {
        lemma_digits_end(s, from + 1);
    }
}

fn find_digits_end(s: &[char], from: usize) -> (r: usize)
    requires
        from <= s@.len(),
    ensures
        r == digits_end(s@, from as int),
        from <= r <= s@.len(),
        forall|i: int| from <= i < r ==> is_digit(s@[i]),
{
    let mut i = from;
    while i < s.len() && '0' <= s[i] && s[i] <= '9'
        invariant
            from <= i <= s@.len(),
            digits_end(s@, from as int) == digits_end(s@, i as int),
            forall|j: int| from <= j < i ==> is_digit(s@[j]),
        ensures
            i <= s@.len(),
            i == s@.len() || !is_digit(s@[i as int]),
        decreases s@.len() - i,
    {
        i = i + 1;
    }
    i
}

/// Adds the digits between two places to some others.
fn push_digits(s: &[char], from: usize, to: usize, out: &mut Vec<u8>)
    requires
        from <= to <= s@.len(),
        forall|i: int| from <= i < to ==> is_digit(s@[i]),
    ensures
        final(out)@ == old(out)@ + digits(s@.subrange(from as int, to as int)),
        forall|i: int| old(out)@.len() <= i < final(out)@.len() ==> final(out)@[i] <= 9,
{
    let ghost before = out@;
    let mut i = from;
    assert(out@ =~= before + digits(s@.subrange(from as int, from as int)));
    while i < to
        invariant
            from <= i <= to <= s@.len(),
            forall|i: int| from <= i < to ==> is_digit(s@[i]),
            out@ == before + digits(s@.subrange(from as int, i as int)),
            forall|i: int| before.len() <= i < out@.len() ==> out@[i] <= 9,
        decreases to - i,
    {
        let c = s[i];
        let d: u8 = c as u8 - '0' as u8;
        proof {
            assert(before + digits(s@.subrange(from as int, i + 1)) =~= out@.push(digit(c)));
        }
        out.push(d);
        i = i + 1;
    }
}

/// A bound on exponents: what lies beyond has the effect of the bound.
pub const EXPONENT_BOUND: u128 = 0x1_0000_0000_0000_0000_0000_0000;

/// The value of the digits at the end of a numeral, up to a bound.
fn bounded_value(s: &[char], from: usize) -> (r: u128)
    requires
        from <= s@.len(),
        digits_end(s@, from as int) == s@.len(),
        forall|i: int| from <= i < s@.len() ==> is_digit(s@[i]),
    ensures
        digits_value(digits(s@.skip(from as int))) < EXPONENT_BOUND ==> r == digits_value(
            digits(s@.skip(from as int)),
        ),
        digits_value(digits(s@.skip(from as int))) >= EXPONENT_BOUND ==> r == EXPONENT_BOUND,
{
    let mut value: u128 = 0;
    let mut i = from;
    let ghost all = s@.skip(from as int);
    assert(digits(all.take(0)) =~= Seq::<u8>::empty());
    while i < s.len()
        invariant
            from <= i <= s@.len(),
            all == s@.skip(from as int),
            forall|i: int| from <= i < s@.len() ==> is_digit(s@[i]),
            digits_value(digits(all.take(i - from))) < EXPONENT_BOUND ==> value == digits_value(
                digits(all.take(i - from)),
            ),
            digits_value(digits(all.take(i - from))) >= EXPONENT_BOUND ==> value == EXPONENT_BOUND,
        decreases s@.len() - i,
    {
        let c = s[i];
        let d: u8 = c as u8 - '0' as u8;
        proof {
            let t = digits(all.take(i + 1 - from));
            assert(t.drop_last() =~= digits(all.take(i - from)));
            assert(t.last() == d);
        }
        if value < EXPONENT_BOUND {
            value = 10 * value + d as u128;
            if value > EXPONENT_BOUND {
                value = EXPONENT_BOUND;
            }
        }
        i = i + 1;
    }
    assert(all.take(s@.len() - from) =~= all);
    value
}

/// Reads the exponent at the end of a numeral; one beyond the bound is cut to it.
fn read_exponent(s: &[char], from: usize) -> (r: Option<i128>)
    requires
        from <= s@.len(),
    ensures
        r is Some == exponent(s@.skip(from as int)) is Some,
        r matches Some(e) ==> {
            let x = exponent(s@.skip(from as int)).unwrap();
            &&& -EXPONENT_BOUND < x < EXPONENT_BOUND ==> e == x
            &&& x >= EXPONENT_BOUND ==> e == EXPONENT_BOUND
            &&& x <= -EXPONENT_BOUND ==> e == -EXPONENT_BOUND
        },
{
    let ghost t = s@.skip(from as int);
    let n = s.len();
    if from == n {
        return Some(0);
    }
    if s[from] != 'e' && s[from] != 'E' {
        return None;
    }
    let rest = portion(s, from, n);
    assert(rest@ =~= t);
    let signed = rest.len() > 1 && (rest[1] == '-' || rest[1] == '+');
    let start: usize = if signed {
        2
    } else {
        1
    };
    if start >= rest.len() {
        return None;
    }
    if find_digits_end(&rest, start) != rest.len() {
        return None;
    }
    let size = bounded_value(&rest, start);
    if rest[1] == '-' {
        Some(-(size as i128))
    } else {
        Some(size as i128)
    }
}

/// Reads a plain number.
fn read_plain(negative: bool, s: &[char]) -> (r: Option<Double>)
    ensures
        r == plain_number(negative, s@),
{
    let n = s.len();
    let point = find_digits_end(s, 0);
    let end = if point < n && s[point] == '.' {
        find_digits_end(s, point + 1)
    } else {
        point
    };
    let mut figures: Vec<u8> = Vec::new();
    push_digits(s, 0, point, &mut figures);
    let mut scale: usize = 0;
    if end > point {
        push_digits(s, point + 1, end, &mut figures);
        scale = end - point - 1;
    }
    let ghost fraction = if end > point {
        s@.subrange(point + 1, end as int)
    } else {
        Seq::empty()
    };
    proof {
        assert(s@.subrange(0, point as int) =~= s@.take(point as int));
        assert(figures@ =~= digits(s@.take(point as int) + fraction));
        assert(scale == fraction.len());
        assert(digits_value(Seq::<u8>::empty()) == 0);
    }
    if figures.len() == 0 {
        return None;
    }
    match read_exponent(s, end) {
        Some(e) => {
            proof {
                let x = exponent(s@.skip(end as int)).unwrap();
                crate::decimal::lemma_decimal_bounded(
                    negative,
                    figures@,
                    x - scale,
                    e - scale,
                );
            }
            Some(nearest_decimal(negative, &figures, e - scale as i128))
        },
        None => None,
    }
}

/// Reads a double.
pub fn parse_double(s: &[char]) -> (r: Option<Double>)
    ensures
        r == double_of(s@),
{
    let n = s.len();
    let negative = n > 0 && s[0] == '-';
    let body = if n > 0 && (s[0] == '-' || s[0] == '+') {
        portion(s, 1, n)
    } else {
        portion(s, 0, n)
    };
    assert(s@.subrange(0, n as int) =~= s@);
    proof {
        if n > 0 {
            assert(s@.subrange(1, n as int) =~= s@.skip(1));
        }
    }
    let word = lowercase(&body);
    if reads(&word, "inf") || reads(&word, "infinity") {
        Some(Double::assemble(negative, INFINITE))
    } else if reads(&word, "nan") {
        Some(Double::assemble(negative, NOT_A_NUMBER))
    } else {
        read_plain(negative, &body)
    }
}

/// Reads an unsigned integer.
pub fn parse_u32(s: &[char]) -> (r: Option<u32>)
    ensures
        r == u32_of(s@),
{
    let n = s.len();
    let body = if n > 0 && s[0] == '+' {
        portion(s, 1, n)
    } else {
        portion(s, 0, n)
    };
    assert(s@.subrange(0, n as int) =~= s@);
    proof {
        if n > 0 {
            assert(s@.subrange(1, n as int) =~= s@.skip(1));
        }
    }
    if body.len() == 0 || find_digits_end(&body, 0) != body.len() {
        return None;
    }
    let value = bounded_value(&body, 0);
    assert(body@.skip(0) =~= body@);
    if value <= u32::MAX as u128 {
        Some(value as u32)
    } else {
        None
    }
}

} // verus!
