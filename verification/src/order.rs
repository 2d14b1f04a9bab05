//! Sums and sorted sequences of numbers.

use crate::double::{build, Double, SIGN};
use vstd::prelude::*;

verus! {

/// The zero from which sums start: adding it changes no number.
pub open spec fn no_sum() -> Double {
    build(true, 0)
}

/// The sum of some numbers, added in turn.
pub open spec fn total(s: Seq<Double>) -> Double
    decreases s.len(),
{
    if s.len() == 0 {
        no_sum()
    } else {
        total(s.drop_last()) + s.last()
    }
}

/// The mean of some numbers.
pub open spec fn mean(s: Seq<Double>) -> Double {
    total(s) / crate::double::ratio(s.len(), 1)
}

/// Adds some numbers in turn.
pub fn sum(s: &[Double]) -> (r: Double)
    ensures
        r == total(s@),
{
    let mut out = Double::from_bits(SIGN);
    let mut i: usize = 0;
    while i < s.len()
        invariant
            i <= s@.len(),
            out == total(s@.take(i as int)),
        decreases s@.len() - i,
    {
        assert(s@.take(i + 1).drop_last() =~= s@.take(i as int));
        out = out + s[i];
        i = i + 1;
    }
    assert(s@.take(s@.len() as int) =~= s@);
    out
}

/// Finds the mean of some numbers.
pub fn average(s: &[Double]) -> (r: Double)
    ensures
        r == mean(s@),
{
    sum(s) / Double::from_index(s.len())
}

/// Sorted numbers in which one more finds its place.
pub open spec fn placed(s: Seq<Double>, x: Double) -> Seq<Double>
    decreases s.len(),
{
    if s.len() > 0 && x.total_place() < s.last().total_place() {
        placed(s.drop_last(), x).push(s.last())
    } else {
        s.push(x)
    }
}

/// Numbers in their total order, the smallest first.
pub open spec fn ordered(s: Seq<Double>) -> Seq<Double>
    decreases s.len(),
{
    if s.len() == 0 {
        s
    } else {
        placed(ordered(s.drop_last()), s.last())
    }
}

/// Whether no number stands before a smaller one.
pub open spec fn ascending(s: Seq<Double>) -> bool {
    forall|i: int, j: int|
        0 <= i <= j < s.len() ==> (#[trigger] s[i]).total_place() <= (#[trigger] s[j]).total_place()
}

proof fn lemma_placed(s: Seq<Double>, x: Double)
    requires
        ascending(s),
    ensures
        ascending(placed(s, x)),
        placed(s, x).len() == s.len() + 1,
        placed(s, x).to_multiset() =~= s.to_multiset().insert(x),
        forall|i: int| 0 <= i < placed(s, x).len() ==> (#[trigger] placed(s, x)[i]) == x || s.contains(placed(s, x)[i]),
    decreases s.len(),
{
    broadcast use vstd::seq_lib::group_to_multiset_ensures;

    if s.len() > 0 && x.total_place() < s.last().total_place() {
        let rest = s.drop_last();
        lemma_placed(rest, x);
        let a = placed(rest, x);
        let b = a.push(s.last());
        assert(s =~= rest.push(s.last()));
        assert(s[s.len() - 1] == s.last());
        assert forall|i: int| 0 <= i < a.len() implies (#[trigger] a[i]).total_place() <= s.last().total_place() by {
            if a[i] != x {
                let j = choose|j: int| 0 <= j < rest.len() && rest[j] == a[i];
                assert(s[j].total_place() <= s[s.len() - 1].total_place());
            }
        }
        assert forall|i: int| 0 <= i < b.len() implies (#[trigger] b[i]) == x || s.contains(b[i]) by {
            if i < a.len() {
                assert(b[i] == a[i]);
                if a[i] != x {
                    let j = choose|j: int| 0 <= j < rest.len() && rest[j] == a[i];
                    assert(s[j] == a[i]);
                }
            }
        }
    } else {
        let b = s.push(x);
        assert forall|i: int, j: int| 0 <= i <= j < b.len() implies (#[trigger] b[i]).total_place() <= (
        #[trigger] b[j]).total_place() by {
            if j == s.len() && i < s.len() {
                assert(s[i].total_place() <= s[s.len() - 1].total_place());
            }
        }
        assert forall|i: int| 0 <= i < b.len() implies (#[trigger] b[i]) == x || s.contains(b[i]) by {
            if i < s.len() {
                assert(b[i] == s[i]);
            }
        }
    }
}

/// Sorting puts the numbers in order and keeps all of them.
pub proof fn lemma_ordered(s: Seq<Double>)
    ensures
        ascending(ordered(s)),
        ordered(s).len() == s.len(),
        ordered(s).to_multiset() =~= s.to_multiset(),
    decreases s.len(),
{
    broadcast use vstd::seq_lib::group_to_multiset_ensures;

    if s.len() > 0 {
        lemma_ordered(s.drop_last());
        lemma_placed(ordered(s.drop_last()), s.last());
        assert(s =~= s.drop_last().push(s.last()));
    }
}

fn place(v: &mut Vec<Double>, x: Double)
    ensures
        final(v)@ == placed(old(v)@, x),
{
    let mut i: usize = v.len();
    let ghost s = v@;
    assert(s.take(i as int) =~= s);
    assert(placed(s, x) =~= placed(s.take(i as int), x) + s.skip(i as int));
    while i > 0 && x.total_before(v[i - 1])
        invariant
            i <= s.len(),
            s == v@,
            placed(s, x) == placed(s.take(i as int), x) + s.skip(i as int),
        ensures
            i <= s.len(),
            i == 0 || s[i - 1].total_place() <= x.total_place(),
        decreases i,
    {
        proof {
            let a = s.take(i as int);
            assert(a.drop_last() =~= s.take(i - 1));
            assert(placed(a, x) + s.skip(i as int) =~= placed(s.take(i - 1), x) + s.skip(i - 1));
        }
        i = i - 1;
    }
    v.insert(i, x);
    assert(v@ =~= s.take(i as int).push(x) + s.skip(i as int));
}

/// Sorts numbers, the smallest first.
pub fn sort(values: &[Double]) -> (r: Vec<Double>)
    ensures
        r@ == ordered(values@),
{
    let mut out: Vec<Double> = Vec::new();
    let mut i: usize = 0;
    assert(out@ =~= ordered(values@.take(0)));
    while i < values.len()
        invariant
            i <= values@.len(),
            out@ == ordered(values@.take(i as int)),
        decreases values@.len() - i,
    {
        assert(values@.take(i + 1).drop_last() =~= values@.take(i as int));
        place(&mut out, values[i]);
        i = i + 1;
    }
    assert(values@.take(values@.len() as int) =~= values@);
    out
}

} // verus!
