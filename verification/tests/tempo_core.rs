use tempo::bpm::{calculate_bpm, remove_duplicates, sort_by_fitness, try_calculate_bpm};
use tempo::double::Double;
use tempo::gapdata::GapData;
use tempo::interval::{find_best_interval, find_interval, scan_intervals, try_scan_intervals};
use tempo::polyfit::{polyfit_cubic, polyval, try_polyfit_cubic};
use tempo::window::{hamming_angles, hamming_window, hann_angles, hann_window, Cosines};
use tempo::{DetectOptions, Onset, TempoResult};

fn float(x: Double) -> f64 {
    f64::from_bits(x.to_bits())
}

fn double(x: f64) -> Double {
    Double::from_bits(x.to_bits())
}

fn doubles(v: &[f64]) -> Vec<Double> {
    v.iter().map(|&x| double(x)).collect()
}

fn hamming_cosines(n: usize) -> Vec<Double> {
    hamming_angles(n).iter().map(|&a| double(float(a).cos())).collect()
}

fn cosines() -> Cosines {
    Cosines {
        coarse: hamming_cosines(256),
        fine: hamming_cosines(2048),
    }
}

fn gap_data(buffer_size: usize, downsample: u32) -> GapData {
    GapData::new(buffer_size, downsample, &hamming_cosines(2048 >> downsample))
}

/// Clicks with a small jitter, so that the train is not perfectly periodic.
fn click_train(interval: usize, count: usize) -> Vec<Onset> {
    (0..count)
        .map(|i| {
            let jitter = (i % 7) as i64 - 3;
            let pos = (i * interval) as i64 + jitter;
            Onset::new(pos.max(0) as usize, double(1.0))
        })
        .collect()
}

#[test]
fn endpoints_are_near_zero_center_is_one() {
    let mut w = vec![double(0.0); 9];
    hamming_window(&mut w, &hamming_cosines(9));
    assert!((float(w[0]) - 0.08).abs() < 1e-9, "w[0] = {}", float(w[0]));
    assert!((float(w[8]) - 0.08).abs() < 1e-9, "w[8] = {}", float(w[8]));
    assert!((float(w[4]) - 1.0).abs() < 1e-9, "w[4] = {}", float(w[4]));
}

#[test]
fn is_symmetric() {
    let mut w = vec![double(0.0); 16];
    hamming_window(&mut w, &hamming_cosines(16));
    for i in 0..w.len() {
        assert!(
            (float(w[i]) - float(w[w.len() - 1 - i])).abs() < 1e-12,
            "window not symmetric at {i}"
        );
    }
}

#[test]
fn windows_follow_their_formulas() {
    let n = 1024;
    let angles = hann_angles(n);
    let c: Vec<Double> = angles.iter().map(|&a| double(float(a).cos())).collect();
    let mut w = vec![double(0.0); n];
    hann_window(&mut w, &c);
    for i in 0..n {
        let expected = 0.5 - 0.5 * (std::f64::consts::TAU * i as f64 / n as f64).cos();
        assert_eq!(float(w[i]), expected);
    }
    let t = std::f64::consts::TAU / 255.0;
    let mut w = vec![double(0.0); 256];
    hamming_window(&mut w, &hamming_cosines(256));
    for i in 0..256 {
        assert_eq!(float(w[i]), 0.54 - 0.46 * (i as f64 * t).cos());
    }
}

#[test]
fn fits_exact_cubic_with_no_noise() {
    // y = 2 + 3x - x^2 + 0.5x^3, sampled exactly.
    let f = |x: f64| 2.0 + 3.0 * x - x * x + 0.5 * x * x * x;
    let xs: Vec<f64> = (0..10).map(|i| i as f64).collect();
    let ys: Vec<f64> = xs.iter().map(|&x| f(x)).collect();

    let coeffs = polyfit_cubic(&doubles(&xs), &doubles(&ys));

    assert!((float(coeffs[0]) - 2.0).abs() < 1e-6, "c0 = {}", float(coeffs[0]));
    assert!((float(coeffs[1]) - 3.0).abs() < 1e-6, "c1 = {}", float(coeffs[1]));
    assert!((float(coeffs[2]) - (-1.0)).abs() < 1e-6, "c2 = {}", float(coeffs[2]));
    assert!((float(coeffs[3]) - 0.5).abs() < 1e-6, "c3 = {}", float(coeffs[3]));
}

#[test]
fn polyval_evaluates_constant() {
    assert_eq!(float(polyval(&doubles(&[5.0]), double(100.0))), 5.0);
}

#[test]
fn polyval_evaluates_cubic() {
    // 2 + 3x - x^2 + 0.5x^3 at x=2 => 2 + 6 - 4 + 4 = 8
    let coeffs = doubles(&[2.0, 3.0, -1.0, 0.5]);
    assert!((float(polyval(&coeffs, double(2.0))) - 8.0).abs() < 1e-9);
}

#[test]
fn fits_at_bpm_interval_scale_without_blowing_up() {
    let xs: Vec<f64> = (0..20).map(|i| 10000.0 + i as f64 * 500.0).collect();
    let ys: Vec<f64> = xs.iter().map(|&x| 0.001 * x + 3.0).collect();

    let coeffs = polyfit_cubic(&doubles(&xs), &doubles(&ys));
    for (&x, &y) in xs.iter().zip(ys.iter()) {
        let predicted = float(polyval(&coeffs, double(x)));
        assert!(
            (predicted - y).abs() < 1.0,
            "at x={x}, predicted={predicted}, actual={y}"
        );
    }
}

#[test]
fn equal_points_have_no_cubic() {
    let x = doubles(&[1.0, 1.0, 1.0, 1.0, 1.0]);
    assert!(try_polyfit_cubic(&x, &x).is_none());
    let x = doubles(&[0.0, 1.0, 2.0, 3.0]);
    let nan = doubles(&[f64::NAN, 1.0, 2.0, 3.0]);
    assert!(try_polyfit_cubic(&nan, &x).is_none());
}

#[test]
fn confidence_for_interval_peaks_at_true_interval() {
    let onsets = click_train(16000, 30);
    let mut gapdata = gap_data(32000, 0);

    let confidence_correct = float(gapdata.confidence_for_interval(&onsets, 16000));
    let confidence_wrong_low = float(gapdata.confidence_for_interval(&onsets, 11000));
    let confidence_wrong_high = float(gapdata.confidence_for_interval(&onsets, 21000));

    assert!(
        confidence_correct > confidence_wrong_low,
        "correct={confidence_correct}, wrong_low={confidence_wrong_low}"
    );
    assert!(
        confidence_correct > confidence_wrong_high,
        "correct={confidence_correct}, wrong_high={confidence_wrong_high}"
    );
}

#[test]
fn confidence_for_interval_respects_downsampling() {
    let true_interval = 16000usize;
    let onsets = click_train(true_interval, 30);
    let mut gapdata = gap_data(true_interval * 2, 3);

    let confidence_correct = float(gapdata.confidence_for_interval(&onsets, true_interval));
    let confidence_wrong = float(gapdata.confidence_for_interval(&onsets, true_interval - 4000));

    assert!(
        confidence_correct > confidence_wrong,
        "correct={confidence_correct}, wrong={confidence_wrong}"
    );
}

#[test]
fn confidence_for_bpm_resolves_fractional_intervals() {
    let interval_f = 9185.5;
    let onsets: Vec<Onset> = (0..40)
        .map(|i| {
            let jitter = (i % 7) as i64 - 3;
            let pos = (i as f64 * interval_f).round() as i64 + jitter;
            Onset::new(pos.max(0) as usize, double(1.0))
        })
        .collect();
    let mut gapdata = gap_data(20000, 0);

    let confidence_correct = float(gapdata.confidence_for_bpm(&onsets, double(interval_f)));
    let confidence_wrong = float(gapdata.confidence_for_bpm(&onsets, double(interval_f + 300.0)));

    assert!(
        confidence_correct > confidence_wrong,
        "correct={confidence_correct}, wrong={confidence_wrong}"
    );
}

#[test]
fn gap_confidence_wraps_around_both_ends() {
    let mut gapdata = gap_data(5000, 0);
    let interval = 4000;
    gapdata.histogram_mut()[..interval].fill(double(0.0));
    gapdata.histogram_mut()[3999] = double(1.0); // one sample before wraparound
    let confidence_at_zero = float(gapdata.gap_confidence(0, interval));
    assert!(
        confidence_at_zero > 0.0,
        "expected wraparound contribution, got {confidence_at_zero}"
    );
}

#[test]
fn gap_confidence_is_the_window_value_of_a_single_onset() {
    let t = std::f64::consts::TAU / 2047.0;
    let window: Vec<f64> = (0..2048).map(|i| 0.54 - 0.46 * (i as f64 * t).cos()).collect();
    let interval = 4000usize;
    for onset in [0usize, 5, 100, 2000, 3999] {
        let mut gapdata = gap_data(5000, 0);
        gapdata.histogram_mut()[onset] = double(2.0);
        for gap_pos in [0usize, 1, 300, 1023, 1024, 1500, 2500, 2976, 2977, 3999, 4000, 4001, 5024] {
            let j = (onset + 2 * interval - gap_pos + 1024) % interval;
            let expected = if j < 2048 { 2.0 * window[j] } else { 0.0 };
            assert_eq!(float(gapdata.gap_confidence(gap_pos, interval)), expected, "{onset} {gap_pos}");
        }
    }
}

#[test]
fn intervals_may_be_as_long_as_the_histogram() {
    let onsets = click_train(5000, 20);
    for downsample in [0u32, 1] {
        let mut longer = gap_data(6000, downsample);
        let expected = longer.confidence_for_interval(&onsets, 5000).to_bits();
        let mut exact = gap_data(5000, downsample);
        assert_eq!(exact.confidence_for_interval(&onsets, 5000).to_bits(), expected);
        // A reduced histogram has a bin for every reduced position.
        let mut reduced = gap_data(5000 >> downsample, downsample);
        assert_eq!(reduced.confidence_for_interval(&onsets, 5000).to_bits(), expected);
    }
}

#[test]
fn earlier_histograms_do_not_influence_confidences() {
    let onsets = click_train(5000, 20);
    let mut gapdata = gap_data(9000, 0);
    let first = gapdata.confidence_for_interval(&onsets, 5000);
    assert!(float(first) >= 0.0);
    gapdata.confidence_for_interval(&click_train(4321, 30), 8999);
    gapdata.confidence_for_bpm(&onsets, double(6000.5));
    gapdata.histogram_mut().fill(double(f64::NAN));
    assert_eq!(gapdata.confidence_for_interval(&onsets, 5000).to_bits(), first.to_bits());
    // Even strengths that are no numbers give a confidence that is one.
    let odd = [Onset::new(10, double(f64::NAN)), Onset::new(20, double(-1.0))];
    assert_eq!(float(gapdata.confidence_for_interval(&odd, 5000)), 0.0);
}

#[test]
fn confidence_counts_strengths_and_half_the_offbeat() {
    // Two onsets in one bin, one onset on the offbeat.
    let onsets = [
        Onset::new(3000, double(1.5)),
        Onset::new(3000 + 8000, double(0.25)),
        Onset::new(7000, double(1.0)),
    ];
    let mut gapdata = gap_data(9000, 0);
    let middle = 0.54 - 0.46 * (1024.0 * (std::f64::consts::TAU / 2047.0)).cos();
    let got = float(gapdata.confidence_for_interval(&onsets, 8000));
    assert_eq!(got, 1.75 * middle + 1.0 * middle * 0.5);
    assert_eq!(float(gapdata.confidence_for_bpm(&onsets, double(8000.0))), got);
    assert_eq!(float(gapdata.confidence_for_interval(&[], 8000)), 0.0);
}

#[test]
fn finds_candidate_near_true_bpm() {
    let sample_rate = 44100u32;
    let true_bpm = 120.0;
    let interval = (sample_rate as f64 * 60.0 / true_bpm).round() as usize;
    let onsets = click_train(interval, 60);

    let candidates = scan_intervals(&onsets, sample_rate, double(89.0), double(205.0), &hamming_cosines(256));

    assert!(!candidates.is_empty(), "expected at least one candidate");
    let best = candidates
        .iter()
        .max_by(|a, b| float(a.fitness).total_cmp(&float(b.fitness)))
        .unwrap();
    assert!(
        (float(best.bpm) - true_bpm).abs() < 1.0,
        "best candidate bpm = {}, expected close to {true_bpm}",
        float(best.bpm)
    );
}

#[test]
fn finds_candidate_near_true_bpm_at_high_tempo() {
    let sample_rate = 44100u32;
    let true_bpm = 174.0;
    let interval = (sample_rate as f64 * 60.0 / true_bpm).round() as usize;
    let onsets = click_train(interval, 60);

    let candidates = scan_intervals(&onsets, sample_rate, double(89.0), double(205.0), &hamming_cosines(256));

    let best = candidates
        .iter()
        .max_by(|a, b| float(a.fitness).total_cmp(&float(b.fitness)))
        .unwrap();
    assert!(
        (float(best.bpm) - true_bpm).abs() < 1.0,
        "best candidate bpm = {}, expected close to {true_bpm}",
        float(best.bpm)
    );
}

#[test]
fn unsuitable_ranges_give_nothing() {
    let onsets = click_train(22050, 10);
    let c = hamming_cosines(256);
    assert!(try_scan_intervals(&onsets, 44100, double(205.0), double(89.0), &c).is_none());
    assert!(try_scan_intervals(&onsets, 44100, double(120.0), double(120.0), &c).is_none());
    assert!(try_scan_intervals(&onsets, 4000, double(89.0), double(260.0), &c).is_none());
    assert_eq!(find_interval(44100, double(120.0)), 22050);
}

#[test]
fn best_interval_is_the_first_highest() {
    let f = doubles(&[9.0, 0.5, 2.0, 2.0, -1.0, f64::NAN]);
    assert_eq!(find_best_interval(&f, 1, 6), 2);
    assert_eq!(find_best_interval(&f, 4, 6), 4);
    assert_eq!(find_best_interval(&f, 0, 6), 0);
    assert_eq!(find_best_interval(&f, 3, 3), 3);
}

#[test]
fn too_few_onsets_falls_back_to_placeholder() {
    let opts = DetectOptions::default();
    let result = calculate_bpm(&[Onset::new(0, double(1.0))], 44100, &opts, &cosines());
    assert_eq!(result.len(), 1);
    assert_eq!(float(result[0].bpm), 100.0);
    assert_eq!(float(result[0].offset), 0.0);
    assert_eq!(float(result[0].fitness), 1.0);
}

#[test]
fn detects_known_bpm_from_click_train() {
    let sample_rate = 44100u32;
    let true_bpm = 120.0;
    let interval = (sample_rate as f64 * 60.0 / true_bpm).round() as usize;
    let onsets = click_train(interval, 60);
    let opts = DetectOptions::default();

    let results = calculate_bpm(&onsets, sample_rate, &opts, &cosines());

    assert!(!results.is_empty());
    assert!(
        (float(results[0].bpm) - true_bpm).abs() < 0.05,
        "top candidate bpm = {}, expected close to {true_bpm}",
        float(results[0].bpm)
    );
    assert!(results.len() <= 3);
}

#[test]
fn detects_known_fractional_bpm() {
    let sample_rate = 44100u32;
    let true_bpm = 118.879;
    let interval = (sample_rate as f64 * 60.0 / true_bpm).round() as usize;
    let onsets = click_train(interval, 60);
    let opts = DetectOptions::default();

    let results = calculate_bpm(&onsets, sample_rate, &opts, &cosines());

    assert!(
        (float(results[0].bpm) - true_bpm).abs() < 0.1,
        "top candidate bpm = {}, expected close to {true_bpm}",
        float(results[0].bpm)
    );
}

#[test]
fn defaults_span_40_to_260() {
    let opts = DetectOptions::default();
    assert_eq!(float(opts.min_bpm), 40.0);
    assert_eq!(float(opts.max_bpm), 260.0);
    // A reversed range suits nothing.
    let reversed = DetectOptions {
        min_bpm: opts.max_bpm,
        max_bpm: opts.min_bpm,
    };
    assert!(try_calculate_bpm(&click_train(22050, 4), 44100, &reversed, &cosines()).is_none());
}

fn candidate(bpm: f64, fitness: f64) -> TempoResult {
    TempoResult {
        bpm: double(bpm),
        offset: double(0.0),
        fitness: double(fitness),
    }
}

#[test]
fn remove_duplicates_collapses_octave_and_near_duplicates() {
    let mut tempo = vec![
        candidate(120.0, 10.0),
        candidate(240.0, 8.0),  // double
        candidate(60.0, 7.0),   // half
        candidate(120.05, 6.0), // near-duplicate
        candidate(174.0, 5.0),  // unrelated, kept
    ];
    remove_duplicates(&mut tempo);
    assert_eq!(tempo.len(), 2);
    assert_eq!(float(tempo[0].bpm), 120.0);
    assert_eq!(float(tempo[1].bpm), 174.0);
}

#[test]
fn sorting_is_stable_and_descending() {
    let tempo = vec![candidate(1.0, 2.0), candidate(2.0, 5.0), candidate(3.0, 2.0), candidate(4.0, f64::NAN)];
    let sorted = sort_by_fitness(&tempo);
    let bpms: Vec<f64> = sorted.iter().map(|t| float(t.bpm)).collect();
    assert_eq!(bpms, vec![4.0, 2.0, 1.0, 3.0]);
}

#[test]
fn removed_tempos_are_near_kept_ones_before_them() {
    let before: Vec<TempoResult> = [120.0, 180.0, 60.05, 90.0, 240.2, 119.95, 77.0, 359.99, 45.0, 154.0]
        .iter()
        .map(|&bpm| candidate(bpm, 1.0))
        .collect();
    let mut after = before.clone();
    remove_duplicates(&mut after);
    let kept: Vec<f64> = after.iter().map(|t| float(t.bpm)).collect();
    assert_eq!(kept, vec![120.0, 180.0, 240.2, 77.0, 45.0]);
}

#[test]
fn no_cubic_fits_better() {
    let x: Vec<f64> = (0..9).map(|i| i as f64 - 4.0).collect();
    let y: Vec<f64> = (0..9).map(|i| ((i * 7) % 5) as f64).collect();
    let c: Vec<f64> = polyfit_cubic(&doubles(&x), &doubles(&y)).iter().map(|&v| float(v)).collect();
    let errors = |c: &[f64]| -> f64 {
        x.iter()
            .zip(&y)
            .map(|(x, y)| (y - (c[0] + c[1] * x + c[2] * x * x + c[3] * x * x * x)).powi(2))
            .sum()
    };
    let best = errors(&c);
    for k in 0..4 {
        for change in [-0.1, -1e-3, 1e-3, 0.1] {
            let mut other = c.clone();
            other[k] += change;
            assert!(errors(&other) > best);
        }
    }
}
