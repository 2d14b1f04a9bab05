use tempo::cli::{add_rows, is_set, is_supported, meter_line, result_line, slice_to_range};
use tempo::double::Double;
use tempo::meter::MeterEstimate;
use tempo::web::{analyze, AnalyzeOptions};
use tempo::window::{hamming_angles, Cosines};
use tempo::{Onset, TempoResult};

fn float(x: Double) -> f64 {
    f64::from_bits(x.to_bits())
}

fn double(x: f64) -> Double {
    Double::from_bits(x.to_bits())
}

fn cosines_of(n: usize) -> Vec<Double> {
    hamming_angles(n).iter().map(|&a| double(float(a).cos())).collect()
}

fn found(bpm: f64) -> TempoResult {
    TempoResult {
        bpm: double(bpm),
        offset: double(0.0895),
        fitness: double(1.0),
    }
}

fn range(len: usize, start: f64, duration: f64) -> Vec<usize> {
    let samples: Vec<Double> = (0..len).map(|i| double(i as f64)).collect();
    let slice = slice_to_range(&samples, 10, double(start), double(duration));
    slice.iter().map(|&x| float(x) as usize).collect()
}

#[test]
fn ranges_are_clamped_to_the_audio() {
    assert_eq!(range(100, 0.0, 0.5), vec![0, 1, 2, 3, 4]);
    assert_eq!(range(100, 9.75, 60.0), vec![97, 98, 99]);
    assert_eq!(range(100, 0.35, 0.29), vec![3, 4]);
    assert_eq!(range(3, -5.0, 0.25), vec![0, 1]);
    assert!(range(100, 10.0, 60.0).is_empty());
    assert!(range(100, 1e300, 60.0).is_empty());
    assert!(range(100, 1.0, -3.0).is_empty());
    assert_eq!(range(4, 0.1, f64::INFINITY), vec![1, 2, 3]);
    assert_eq!(range(4, f64::NAN, 1.0), vec![0, 1, 2, 3]);
    assert!(range(4, 0.0, f64::NAN).is_empty());
}

#[test]
fn extensions_tell_what_to_analyze() {
    for e in ["mp3", "wav", "flac", "ogg", "aac", "m4a", "MP3", "Flac"] {
        assert!(is_supported(e), "{e}");
    }
    for e in ["", "mp", "mp33", "txt", "osz"] {
        assert!(!is_supported(e), "{e}");
    }
    assert!(is_set("osz"));
    assert!(is_set("OsZ"));
    assert!(!is_set("osu"));
}

fn estimate(ambiguous: bool) -> MeterEstimate {
    MeterEstimate {
        beats_per_bar: 4,
        notation: "4/4".to_string(),
        confidence: double(0.636),
        ambiguous,
    }
}

#[test]
fn batches_rank_their_candidates() {
    let mut rows = Vec::new();
    add_rows(&mut rows, "a.mp3", &vec![found(120.0), found(60.0)], &Some(estimate(false)));
    add_rows(&mut rows, "b.mp3", &vec![found(99.0)], &None);
    add_rows(&mut rows, "c.mp3", &Vec::new(), &None);
    let shown: Vec<(&str, usize, f64)> = rows.iter().map(|r| (r.file.as_str(), r.rank, float(r.result.bpm))).collect();
    assert_eq!(shown, vec![("a.mp3", 1, 120.0), ("a.mp3", 2, 60.0), ("b.mp3", 1, 99.0)]);
    assert_eq!(rows[1].meter.as_ref().map(|m| (m.0.as_str(), float(m.1))), Some(("4/4", 0.636)));
    assert!(rows[2].meter.is_none());
}

#[test]
fn results_and_meters_are_told() {
    assert_eq!(
        result_line(&found(180.098)),
        format!("[RESULT] {:.3} BPM, offset @ {:.3} sec, fitness {:.3}", 180.098, 0.0895, 1.0)
    );
    assert_eq!(meter_line(&estimate(false)), "[METER] 4/4, confidence 0.64 (experimental)");
    assert_eq!(meter_line(&estimate(true)), "[METER] 4/4, confidence 0.64, ambiguous (experimental)");
}

#[test]
fn results_compare_as_numbers() {
    assert!(Onset::new(3, double(0.0)) == Onset::new(3, double(-0.0)));
    assert!(Onset::new(3, double(0.0)) != Onset::new(4, double(0.0)));
    assert!(found(120.0) == found(120.0));
    assert!(found(f64::NAN) != found(f64::NAN));
    assert!(estimate(true) == estimate(true));
    assert!(estimate(true) != estimate(false));
}

#[test]
fn an_analysis_has_results_and_a_meter() {
    let cosines = Cosines { coarse: cosines_of(256), fine: cosines_of(2048) };
    let opts = AnalyzeOptions::default();
    assert_eq!(float(opts.min_bpm), 40.0);
    assert_eq!(float(opts.max_bpm), 260.0);
    assert!(opts.subharmonic_preference);

    // One peak each 86 frames of the detection function, every fourth the highest.
    let mut odf = vec![double(0.0); 86 * 48];
    for k in 1..48 {
        odf[86 * k] = double(if k % 4 == 1 { 3.0 } else { 1.0 });
    }
    let samples = vec![double(0.0); 86 * 48 * 256];
    let analysis = analyze(&odf, &samples, 44100, &opts, &cosines).unwrap();
    let beat = 86.0 * 256.0;
    assert!((float(analysis.results[0].bpm) - 44100.0 * 60.0 / beat).abs() < 0.5);
    assert!(analysis.results.len() <= 3);

    // A range without tempos suits no audio.
    let opts = AnalyzeOptions { min_bpm: double(f64::NAN), ..opts };
    assert!(analyze(&odf, &samples, 44100, &opts, &cosines).is_none());
}
