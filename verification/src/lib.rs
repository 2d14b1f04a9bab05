//! Tempo and beat-offset detection.
//!
//! The detector takes mono samples and gives tempo candidates. Its numbers are
//! double-precision numbers with exactly specified operations ([`double::Double`]).
//! Cosines, spectra and files come from outside.

use crate::bpm::{tempos, try_calculate_bpm};
use crate::double::{ratio, Double};
use crate::offset::{try_calculate_offset, with_offsets};
use crate::onset::{find_onsets, normalized, peak_onsets};
use crate::window::{hamming, Cosines};
use vstd::prelude::*;
use vstd::std_specs::cmp::PartialEqSpecImpl;

pub mod accents;
pub mod archive;
pub mod arith;
pub mod beats;
pub mod bpm;
pub mod cli;
pub mod convert;
pub mod decimal;
pub mod decode;
pub mod display;
pub mod double;
pub mod edges;
pub mod eval;
pub mod gapdata;
pub mod gaps;
pub mod grain;
pub mod interval;
pub mod meter;
pub mod mixing;
pub mod multiples;
pub mod natural;
pub mod numeral;
pub mod offset;
pub mod onset;
pub mod order;
pub mod osu;
pub mod peaks;
pub mod phase;
pub mod polyfit;
pub mod powers;
pub mod precision;
pub mod range;
pub mod reach;
pub mod report;
pub mod rounding;
pub mod scaling;
pub mod shapes;
pub mod silence;
pub mod single;
pub mod squares;
pub mod strengths;
pub mod strokes;
pub mod text;
pub mod timing;
pub mod web;
pub mod window;
pub mod writing;

verus! {

/// A detected onset: the start of a sound.
#[derive(Debug, Clone, Copy)]
pub struct Onset {
    /// In samples from the start of the audio.
    pub pos: usize,
    /// The accent of the onset relative to others.
    pub strength: Double,
}

impl Onset {
    pub fn new(pos: usize, strength: Double) -> (r: Onset)
        ensures
            r.pos == pos,
            r.strength == strength,
    {
        Onset { pos, strength }
    }
}

impl PartialEqSpecImpl for Onset {
    open spec fn obeys_eq_spec() -> bool {
        true
    }

    open spec fn eq_spec(&self, other: &Onset) -> bool {
        self.pos == other.pos && self.strength.same(other.strength)
    }
}

impl PartialEq for Onset {
    fn eq(&self, other: &Onset) -> (r: bool) {
        self.pos == other.pos && self.strength.equals(other.strength)
    }
}

/// A tempo candidate.
#[derive(Debug, Clone, Copy)]
pub struct TempoResult {
    /// Beats per minute.
    pub bpm: Double,
    /// The position of the first beat, in seconds from the start of the audio.
    pub offset: Double,
    /// A relative confidence; higher is better.
    pub fitness: Double,
}

impl PartialEqSpecImpl for TempoResult {
    open spec fn obeys_eq_spec() -> bool {
        true
    }

    open spec fn eq_spec(&self, other: &TempoResult) -> bool {
        self.bpm.same(other.bpm) && self.offset.same(other.offset) && self.fitness.same(other.fitness)
    }
}

impl PartialEq for TempoResult {
    fn eq(&self, other: &TempoResult) -> (r: bool) {
        self.bpm.equals(other.bpm) && self.offset.equals(other.offset) && self.fitness.equals(other.fitness)
    }
}

/// The range of tempos to consider.
#[derive(Debug, Clone, Copy)]
pub struct DetectOptions {
    /// The slowest tempo considered.
    pub min_bpm: Double,
    /// The fastest tempo considered.
    pub max_bpm: Double,
}

impl Default for DetectOptions {
    fn default() -> (r: DetectOptions)
        ensures
            r.min_bpm == ratio(40, 1),
            r.max_bpm == ratio(260, 1),
    {
        DetectOptions { min_bpm: Double::from_ratio(40, 1), max_bpm: Double::from_ratio(260, 1) }
    }
}

/// Finds tempo candidates, without offsets, from onsets.
pub fn calculate_bpm(onsets: &[Onset], sample_rate: u32, opts: &DetectOptions, cosines: &Cosines) -> (r: Vec<
    TempoResult,
>)
    requires
        cosines.well_formed(),
        tempos(onsets@, hamming(cosines.coarse@), hamming(cosines.fine@), sample_rate, *opts) is Some,
    ensures
        tempos(onsets@, hamming(cosines.coarse@), hamming(cosines.fine@), sample_rate, *opts) == Some(r@),
{
    bpm::calculate_bpm(onsets, sample_rate, opts, cosines)
}

/// Fills in the offset of each candidate from the samples.
pub fn calculate_offset(samples: &[Double], sample_rate: u32, _onsets: &[Onset], results: &mut [TempoResult])
    requires
        with_offsets(samples@, sample_rate, old(results)@) is Some,
    ensures
        with_offsets(samples@, sample_rate, old(results)@) == Some(final(results)@),
{
    offset::calculate_offset(samples, sample_rate, results)
}

/// Onsets that all count the same.
pub open spec fn equal_votes(onsets: Seq<Onset>) -> Seq<Onset> {
    onsets.map_values(|o: Onset| Onset { strength: ratio(1, 1), ..o })
}

/// What the whole detection works on: the onset detection function of the audio, its
/// samples, the windows and the range of tempos.
pub struct Work {
    pub odf: Seq<Double>,
    pub samples: Seq<Double>,
    pub sample_rate: u32,
    pub opts: DetectOptions,
    pub coarse: Seq<Double>,
    pub fine: Seq<Double>,
}

impl Work {
    /// The onsets, with strengths relative to their mean.
    pub open spec fn onsets(self) -> Seq<Onset> {
        normalized(peak_onsets(self.odf, self.sample_rate))
    }

    /// The tempo candidates with their offsets. Every onset has the same vote for the
    /// tempo.
    pub open spec fn results(self) -> Option<Seq<TempoResult>> {
        match tempos(equal_votes(self.onsets()), self.coarse, self.fine, self.sample_rate, self.opts) {
            Some(found) => with_offsets(self.samples, self.sample_rate, found),
            None => None,
        }
    }
}

/// Gives every onset the same vote.
fn equalize(onsets: &Vec<Onset>) -> (r: Vec<Onset>)
    ensures
        r@ == equal_votes(onsets@),
{
    let one = Double::from_ratio(1, 1);
    let ghost all = equal_votes(onsets@);
    let mut out: Vec<Onset> = Vec::new();
    let mut i: usize = 0;
    while i < onsets.len()
        invariant
            i <= onsets@.len(),
            one == ratio(1, 1),
            all == equal_votes(onsets@),
            out@ == all.take(i as int),
        decreases onsets@.len() - i,
    {
        assert(all.take(i + 1) =~= all.take(i as int).push(all[i as int]));
        out.push(Onset { pos: onsets[i].pos, strength: one });
        i = i + 1;
    }
    assert(out@ =~= all);
    out
}

/// Runs the whole detection: onsets, then tempos, then offsets. Gives the onsets too.
/// Nothing where the range of tempos does not suit the audio.
pub fn try_detect_with_onsets(
    odf: &[Double],
    samples: &[Double],
    sample_rate: u32,
    opts: &DetectOptions,
    cosines: &Cosines,
) -> (r: Option<(Vec<Onset>, Vec<TempoResult>)>)
    requires
        cosines.well_formed(),
    ensures
        ({
            let work = Work {
                odf: odf@,
                samples: samples@,
                sample_rate,
                opts: *opts,
                coarse: hamming(cosines.coarse@),
                fine: hamming(cosines.fine@),
            };
            match r {
                Some((onsets, results)) => onsets@ == work.onsets() && work.results() == Some(results@),
                None => work.results() is None,
            }
        }),
{
    let onsets = find_onsets(odf, sample_rate);
    let voters = equalize(&onsets);
    match try_calculate_bpm(&voters, sample_rate, opts, cosines) {
        Some(found) => match try_calculate_offset(samples, sample_rate, &found) {
            Some(results) => Some((onsets, results)),
            None => None,
        },
        None => None,
    }
}

/// Runs the whole detection. Gives the onsets too.
pub fn detect_with_onsets(
    odf: &[Double],
    samples: &[Double],
    sample_rate: u32,
    opts: &DetectOptions,
    cosines: &Cosines,
) -> (r: (Vec<Onset>, Vec<TempoResult>))
    requires
        cosines.well_formed(),
        (Work {
            odf: odf@,
            samples: samples@,
            sample_rate,
            opts: *opts,
            coarse: hamming(cosines.coarse@),
            fine: hamming(cosines.fine@),
        }).results() is Some,
    ensures
        ({
            let work = Work {
                odf: odf@,
                samples: samples@,
                sample_rate,
                opts: *opts,
                coarse: hamming(cosines.coarse@),
                fine: hamming(cosines.fine@),
            };
            r.0@ == work.onsets() && work.results() == Some(r.1@)
        }),
{
    try_detect_with_onsets(odf, samples, sample_rate, opts, cosines).unwrap()
}

/// Runs the whole detection: onsets, then tempos, then offsets.
pub fn detect(
    odf: &[Double],
    samples: &[Double],
    sample_rate: u32,
    opts: &DetectOptions,
    cosines: &Cosines,
) -> (r: Vec<TempoResult>)
    requires
        cosines.well_formed(),
        (Work {
            odf: odf@,
            samples: samples@,
            sample_rate,
            opts: *opts,
            coarse: hamming(cosines.coarse@),
            fine: hamming(cosines.fine@),
        }).results() is Some,
    ensures
        (Work {
            odf: odf@,
            samples: samples@,
            sample_rate,
            opts: *opts,
            coarse: hamming(cosines.coarse@),
            fine: hamming(cosines.fine@),
        }).results() == Some(r@),
{
    let (_, results) = detect_with_onsets(odf, samples, sample_rate, opts, cosines);
    results
}

/// At most three candidates come out of the detection, the fittest first.
pub proof fn lemma_results(work: Work)
    ensures
        work.results() matches Some(s) ==> s.len() <= 3 && bpm::descending(s),
{
    if work.results() is Some {
        let voters = equal_votes(work.onsets());
        let found = tempos(voters, work.coarse, work.fine, work.sample_rate, work.opts).unwrap();
        bpm::lemma_tempos(voters, work.coarse, work.fine, work.sample_rate, work.opts);
        let slopes = offset::slopes_of(work.samples, work.sample_rate);
        offset::lemma_offsets_keep(slopes, work.sample_rate, found, found.len() as int);
        let s = work.results().unwrap();
        assert forall|i: int, j: int| 0 <= i <= j < s.len() implies (#[trigger] s[i]).fitness.total_place() >= (
        #[trigger] s[j]).fitness.total_place() by {
            assert(found[i].fitness.total_place() >= found[j].fitness.total_place());
        }
    }
}

} // verus!
