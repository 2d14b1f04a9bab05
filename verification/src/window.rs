//! Window functions. The cosines of their angles come from outside.

use crate::double::{ratio, Double};
use vstd::prelude::*;

verus! {

/// The full turn: the double nearest to two pi.
pub open spec fn tau() -> Double {
    ratio(6_283_185_307_179_586, 1_000_000_000_000_000)
}

/// The angle whose cosine shapes the value at `i` of a Hamming window of length `n`.
pub open spec fn hamming_angle(i: nat, n: nat) -> Double {
    ratio(i, 1) * (tau() / ratio((n - 1) as nat, 1))
}

/// The value of a Hamming window where the cosine of the angle is `cosine`.
pub open spec fn hamming_value(cosine: Double) -> Double {
    ratio(54, 100) - ratio(46, 100) * cosine
}

/// The Hamming window of some cosines.
pub open spec fn hamming(cosines: Seq<Double>) -> Seq<Double> {
    cosines.map_values(|c: Double| hamming_value(c))
}

/// The angle whose cosine shapes the value at `i` of a Hann window of length `n`.
pub open spec fn hann_angle(i: nat, n: nat) -> Double {
    tau() * ratio(i, 1) / ratio(n, 1)
}

/// The value of a Hann window where the cosine of the angle is `cosine`.
pub open spec fn hann_value(cosine: Double) -> Double {
    ratio(1, 2) - ratio(1, 2) * cosine
}

/// The Hann window of some cosines.
pub open spec fn hann(cosines: Seq<Double>) -> Seq<Double> {
    cosines.map_values(|c: Double| hann_value(c))
}

/// The cosines that tempo detection needs: those of the angles of the Hamming windows of
/// the scan and of the checks at full resolution.
#[derive(Debug)]
pub struct Cosines {
    /// Those of [`hamming_angles`] of 256.
    pub coarse: Vec<Double>,
    /// Those of [`hamming_angles`] of 2048.
    pub fine: Vec<Double>,
}

impl Cosines {
    /// Whether there are as many as the windows need.
    pub open spec fn well_formed(self) -> bool {
        self.coarse@.len() == 256 && self.fine@.len() == 2048
    }
}

fn full_turn() -> (r: Double)
    ensures
        r == tau(),
{
    Double::from_ratio(6_283_185_307_179_586, 1_000_000_000_000_000)
}

/// The angles of a Hamming window of length `n`.
pub fn hamming_angles(n: usize) -> (r: Vec<Double>)
    requires
        n >= 2,
    ensures
        r@ == Seq::new(n as nat, |i: int| hamming_angle(i as nat, n as nat)),
{
    let t = full_turn() / Double::from_index(n - 1);
    let mut out: Vec<Double> = Vec::new();
    let mut i: usize = 0;
    while i < n
        invariant
            i <= n,
            n >= 2,
            t == tau() / ratio((n - 1) as nat, 1),
            out@.len() == i,
            forall|j: int| 0 <= j < i ==> out@[j] == hamming_angle(j as nat, n as nat),
        decreases n - i,
    {
        out.push(Double::from_index(i) * t);
        i = i + 1;
    }
    assert(out@ =~= Seq::new(n as nat, |i: int| hamming_angle(i as nat, n as nat)));
    out
}

/// Fills `out` with the Hamming window whose angles have the given cosines.
pub fn hamming_window(out: &mut [Double], cosines: &[Double])
    requires
        old(out)@.len() == cosines@.len(),
        cosines@.len() >= 2,
    ensures
        final(out)@ == hamming(cosines@),
{
    let a = Double::from_ratio(54, 100);
    let b = Double::from_ratio(46, 100);
    let mut i: usize = 0;
    while i < cosines.len()
        invariant
            i <= cosines@.len(),
            out@.len() == cosines@.len(),
            a == ratio(54, 100),
            b == ratio(46, 100),
            forall|j: int| 0 <= j < i ==> out@[j] == hamming_value(cosines@[j]),
        decreases cosines@.len() - i,
    {
        out[i] = a - b * cosines[i];
        i = i + 1;
    }
    assert(out@ =~= hamming(cosines@));
}

/// The angles of a Hann window of length `n`.
pub fn hann_angles(n: usize) -> (r: Vec<Double>)
    ensures
        r@ == Seq::new(n as nat, |i: int| hann_angle(i as nat, n as nat)),
{
    let turn = full_turn();
    let length = Double::from_index(n);
    let mut out: Vec<Double> = Vec::new();
    let mut i: usize = 0;
    while i < n
        invariant
            i <= n,
            turn == tau(),
            length == ratio(n as nat, 1),
            out@.len() == i,
            forall|j: int| 0 <= j < i ==> out@[j] == hann_angle(j as nat, n as nat),
        decreases n - i,
    {
        out.push(turn * Double::from_index(i) / length);
        i = i + 1;
    }
    assert(out@ =~= Seq::new(n as nat, |i: int| hann_angle(i as nat, n as nat)));
    out
}

/// Fills `out` with the Hann window whose angles have the given cosines.
pub fn hann_window(out: &mut [Double], cosines: &[Double])
    requires
        old(out)@.len() == cosines@.len(),
    ensures
        final(out)@ == hann(cosines@),
{
    let half = Double::from_ratio(1, 2);
    let mut i: usize = 0;
    while i < cosines.len()
        invariant
            i <= cosines@.len(),
            out@.len() == cosines@.len(),
            half == ratio(1, 2),
            forall|j: int| 0 <= j < i ==> out@[j] == hann_value(cosines@[j]),
        decreases cosines@.len() - i,
    {
        out[i] = half - half * cosines[i];
        i = i + 1;
    }
    assert(out@ =~= hann(cosines@));
}

} // verus!
