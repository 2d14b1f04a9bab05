//! The analysis that the browser and the command line share: tempo candidates, and the
//! meter of the best of them.

use crate::double::{ratio, Double};
use crate::meter::{meter_of, try_estimate_meter, Meter, MeterEstimate};
use crate::window::{hamming, Cosines};
use crate::{try_detect_with_onsets, DetectOptions, TempoResult, Work};
use vstd::prelude::*;

verus! {

/// The options of an analysis.
#[derive(Debug, Clone, Copy)]
pub struct AnalyzeOptions {
    pub min_bpm: Double,
    pub max_bpm: Double,
    /// Accepted from callers; the detection does not depend on it.
    pub subharmonic_preference: bool,
}

impl Default for AnalyzeOptions {
    fn default() -> (r: AnalyzeOptions)
        ensures
            r.min_bpm == ratio(40, 1),
            r.max_bpm == ratio(260, 1),
            r.subharmonic_preference,
    {
        let d = DetectOptions::default();
        AnalyzeOptions { min_bpm: d.min_bpm, max_bpm: d.max_bpm, subharmonic_preference: true }
    }
}

/// An analysis of some audio.
#[derive(Debug)]
pub struct Analysis {
    pub results: Vec<TempoResult>,
    /// The meter of the first result, where there is one and it can be estimated.
    pub meter_estimate: Option<MeterEstimate>,
}

/// The meter of the best candidate; the outer nothing stands for a beat grid that never
/// leaves the audio. No stage of the detection looks for beats of three parts, so none are
/// taken to be there.
pub open spec fn top_meter(work: Work, results: Seq<TempoResult>) -> Option<Option<Meter>> {
    if results.len() == 0 {
        Some(None)
    } else {
        meter_of(work.onsets(), work.samples, work.sample_rate, results[0].bpm, results[0].offset, false)
    }
}

/// What an estimate holds.
pub open spec fn meter_view(m: Option<MeterEstimate>) -> Option<Meter> {
    match m {
        Some(m) => Some(m@),
        None => None,
    }
}

/// Analyzes some audio. Nothing where the range of tempos does not suit it.
pub fn analyze(
    odf: &[Double],
    samples: &[Double],
    sample_rate: u32,
    opts: &AnalyzeOptions,
    cosines: &Cosines,
) -> (r: Option<Analysis>)
    requires
        cosines.well_formed(),
    ensures
        ({
            let work = Work {
                odf: odf@,
                samples: samples@,
                sample_rate,
                opts: DetectOptions { min_bpm: opts.min_bpm, max_bpm: opts.max_bpm },
                coarse: hamming(cosines.coarse@),
                fine: hamming(cosines.fine@),
            };
            match r {
                Some(a) => work.results() == Some(a.results@) && top_meter(work, a.results@) == Some(
                    meter_view(a.meter_estimate),
                ),
                None => work.results() is None || top_meter(work, work.results().unwrap()) is None,
            }
        }),
{
    let detect_opts = DetectOptions { min_bpm: opts.min_bpm, max_bpm: opts.max_bpm };
    match try_detect_with_onsets(odf, samples, sample_rate, &detect_opts, cosines) {
        None => None,
        Some((onsets, results)) => {
            if results.len() == 0 {
                return Some(Analysis { results, meter_estimate: None });
            }
            let top = results[0];
            match try_estimate_meter(&onsets, samples, sample_rate, top.bpm, top.offset, false) {
                Some(meter_estimate) => Some(Analysis { results, meter_estimate }),
                None => None,
            }
        },
    }
}

} // verus!
