use rustfft::num_complex::Complex64;
use rustfft::FftPlanner;
use tempo::double::Double;
use tempo::offset::{
    calculate_offset, compute_slopes, slope_half_window, try_adjust_for_offbeats, try_calculate_offset,
    try_slopes_best_phase,
};
use tempo::onset::{
    find_onsets, frame_count, median, normalize, parabolic_offset, pick_peaks, windowed_frame, Detection, Spectrum,
    HOP_SIZE, NUM_BINS, WINDOW_SIZE,
};
use tempo::window::{hamming_angles, hann_angles, hann_window, Cosines};
use tempo::{detect, try_detect_with_onsets, DetectOptions, Onset, TempoResult};

fn float(x: Double) -> f64 {
    f64::from_bits(x.to_bits())
}

fn double(x: f64) -> Double {
    Double::from_bits(x.to_bits())
}

fn doubles(v: &[f64]) -> Vec<Double> {
    v.iter().map(|&x| double(x)).collect()
}

fn widen(samples: &[f32]) -> Vec<Double> {
    samples.iter().map(|&x| double(x as f64)).collect()
}

fn cosines_of(angles: &[Double]) -> Vec<Double> {
    angles.iter().map(|&a| double(float(a).cos())).collect()
}

fn cosines() -> Cosines {
    Cosines {
        coarse: cosines_of(&hamming_angles(256)),
        fine: cosines_of(&hamming_angles(2048)),
    }
}

/// The onset detection function of some audio.
fn onset_detection_function(samples: &[Double]) -> Vec<Double> {
    let fft = FftPlanner::new().plan_fft_forward(WINDOW_SIZE);
    let mut window = vec![double(0.0); WINDOW_SIZE];
    hann_window(&mut window, &cosines_of(&hann_angles(WINDOW_SIZE)));
    let mut detection = Detection::new();
    for index in 0..frame_count(samples.len()) {
        let mut buffer: Vec<Complex64> = windowed_frame(samples, &window, index)
            .iter()
            .map(|&x| Complex64::new(float(x), 0.0))
            .collect();
        fft.process(&mut buffer);
        let magnitudes: Vec<f64> = buffer[..NUM_BINS].iter().map(|c| c.norm()).collect();
        let phases: Vec<f64> = buffer[..NUM_BINS].iter().map(|c| c.arg()).collect();
        let mut errors = Vec::new();
        if detection.is_ready() {
            let predicted = detection.prediction();
            for k in 0..NUM_BINS {
                let p = Complex64::from_polar(float(predicted.magnitudes[k]), float(predicted.phases[k]));
                let a = Complex64::from_polar(magnitudes[k], phases[k]);
                errors.push(double((a - p).norm()));
            }
        }
        detection.advance(
            Spectrum {
                magnitudes: doubles(&magnitudes),
                phases: doubles(&phases),
            },
            &errors,
        );
    }
    detection.into_odf()
}

/// Silence with a short decaying pulse at each position.
fn click_signal(num_frames: usize, positions: &[usize], click_len: usize) -> Vec<f32> {
    let mut samples = vec![0.0f32; num_frames];
    for &pos in positions {
        for i in 0..click_len {
            if pos + i < num_frames {
                samples[pos + i] = (1.0 - i as f32 / click_len as f32).max(0.0);
            }
        }
    }
    samples
}

#[test]
fn detects_no_onsets_in_silence() {
    let samples = widen(&vec![0.0f32; 44100]);
    let onsets = find_onsets(&onset_detection_function(&samples), 44100);
    assert!(
        onsets.is_empty(),
        "expected no onsets in silence, got {}",
        onsets.len()
    );
}

#[test]
fn detects_onsets_near_true_click_positions() {
    let sample_rate = 44100u32;
    let interval = 20000usize;
    let true_positions: Vec<usize> = (0..10).map(|i| 5000 + i * interval).collect();
    let num_frames = true_positions.last().unwrap() + interval;
    let samples = widen(&click_signal(num_frames, &true_positions, 400));

    let onsets = find_onsets(&onset_detection_function(&samples), sample_rate);

    assert!(
        onsets.len() >= true_positions.len() - 1 && onsets.len() <= true_positions.len() + 1,
        "expected close to {} onsets, got {}",
        true_positions.len(),
        onsets.len()
    );

    // Every true click position has a detected onset within about 1.5 hops.
    for &true_pos in &true_positions {
        let closest = onsets
            .iter()
            .map(|o| (o.pos as i64 - true_pos as i64).abs())
            .min()
            .unwrap();
        assert!(
            closest <= (HOP_SIZE as i64 * 3 / 2),
            "no detected onset within 1.5 hops of true position {true_pos} (closest = {closest})"
        );
    }

    // Strengths are relative to their mean.
    let mean = onsets.iter().map(|o| float(o.strength)).sum::<f64>() / onsets.len() as f64;
    assert!((mean - 1.0).abs() < 1e-12);
}

#[test]
fn first_two_frames_have_no_onset_value() {
    let samples = widen(&click_signal(4096, &[100, 2000], 300));
    assert_eq!(frame_count(1023), 0);
    assert_eq!(frame_count(1024), 1);
    assert_eq!(frame_count(1279), 1);
    assert_eq!(frame_count(1280), 2);
    let odf = onset_detection_function(&samples);
    assert_eq!(odf.len(), frame_count(4096));
    assert_eq!(float(odf[0]), 0.0);
    assert_eq!(float(odf[1]), 0.0);
    assert!(float(odf[2]) > 0.0);
}

#[test]
fn prediction_extrapolates_the_phase() {
    let mut detection = Detection::new();
    let spectrum = |m: f64, p: f64| Spectrum {
        magnitudes: vec![double(m); NUM_BINS],
        phases: vec![double(p); NUM_BINS],
    };
    detection.advance(spectrum(1.0, 0.25), &[]);
    assert!(!detection.is_ready());
    detection.advance(spectrum(2.0, 1.0), &[double(9.0)]);
    assert!(detection.is_ready());
    let p = detection.prediction();
    assert_eq!(float(p.magnitudes[7]), 2.0);
    assert_eq!(float(p.phases[7]), 1.75);
    detection.advance(spectrum(2.0, 1.0), &doubles(&[0.5, 0.25]));
    let odf: Vec<f64> = detection.into_odf().iter().map(|&x| float(x)).collect();
    assert_eq!(odf, vec![0.0, 0.0, 0.75]);
}

#[test]
fn medians_and_parabolas() {
    assert_eq!(float(median(&doubles(&[3.0, 1.0, 2.0]))), 2.0);
    assert_eq!(float(median(&doubles(&[4.0, 1.0, 2.0, 3.0]))), 2.5);
    assert_eq!(float(parabolic_offset(double(1.0), double(3.0), double(2.0))), 0.5 * (1.0 - 2.0) / (1.0 - 6.0 + 2.0));
    assert_eq!(float(parabolic_offset(double(1.0), double(1.0), double(1.0))), 0.0);
}

#[test]
fn peaks_stand_out_and_keep_their_distance() {
    let mut odf = vec![1.0f64; 40];
    odf[10] = 5.0;
    odf[11] = 4.0; // too close to a higher one
    odf[20] = 1.4; // below one and a half times the median
    odf[30] = 2.0;
    let onsets = pick_peaks(&doubles(&odf), 44100);
    let positions: Vec<usize> = onsets.iter().map(|o| o.pos).collect();
    let frac = 0.5 * (1.0 - 4.0) / (1.0 - 10.0 + 4.0);
    assert_eq!(positions, vec![((10.0f64 + frac) * 256.0 + 600.0) as usize, 30 * 256 + 600]);
    assert_eq!(float(onsets[0].strength), 5.0);
    let onsets = normalize(onsets);
    assert_eq!(float(onsets[0].strength), 5.0 / 3.5);
    assert_eq!(float(onsets[1].strength), 2.0 / 3.5);
    assert!(pick_peaks(&doubles(&odf[4..12]), 44100).is_empty());
    assert!(normalize(Vec::new()).is_empty());
    let silent = normalize(vec![Onset::new(3, double(0.0))]);
    assert_eq!(float(silent[0].strength), 0.0);
}

/// A click track with jitter, starting at `offset_samples`.
fn synthetic_click_signal(
    num_frames: usize,
    offset_samples: usize,
    interval: usize,
    click_len: usize,
) -> Vec<f32> {
    let mut samples = vec![0.0f32; num_frames];
    let mut k = 0i64;
    loop {
        let jitter = (k % 7) - 3;
        let pos = offset_samples as i64 + k * interval as i64 + jitter;
        if pos < 0 {
            k += 1;
            continue;
        }
        let pos = pos as usize;
        if pos + click_len >= num_frames {
            break;
        }
        for i in 0..click_len {
            samples[pos + i] = (1.0 - i as f32 / click_len as f32).max(0.0);
        }
        k += 1;
    }
    samples
}

fn result(bpm: f64) -> TempoResult {
    TempoResult {
        bpm: double(bpm),
        offset: double(0.0),
        fitness: double(1.0),
    }
}

#[test]
fn recovers_known_offset() {
    let sample_rate = 44100u32;
    let bpm = 120.0;
    let interval = (sample_rate as f64 * 60.0 / bpm).round() as usize;
    let true_offset_secs = 0.15; // deliberately not half the beat period (0.25s)
    let offset_samples = (true_offset_secs * sample_rate as f64).round() as usize;
    let num_frames = interval * 60 + offset_samples + 1000;

    let samples = synthetic_click_signal(num_frames, offset_samples, interval, 500);

    let mut results = vec![result(bpm)];
    calculate_offset(&widen(&samples), sample_rate, &mut results);

    let error = (float(results[0].offset) - true_offset_secs).abs();
    assert!(
        error < 0.005,
        "offset = {}, expected close to {true_offset_secs} (error {error}s)",
        float(results[0].offset)
    );
}

#[test]
fn recovers_known_offset_at_different_bpm() {
    let sample_rate = 44100u32;
    let bpm = 162.0;
    let interval = (sample_rate as f64 * 60.0 / bpm).round() as usize;
    let true_offset_secs = 0.09;
    let offset_samples = (true_offset_secs * sample_rate as f64).round() as usize;
    let num_frames = interval * 60 + offset_samples + 1000;

    let samples = synthetic_click_signal(num_frames, offset_samples, interval, 500);

    let mut results = vec![result(bpm)];
    calculate_offset(&widen(&samples), sample_rate, &mut results);

    let error = (float(results[0].offset) - true_offset_secs).abs();
    assert!(
        error < 0.005,
        "offset = {}, expected close to {true_offset_secs} (error {error}s)",
        float(results[0].offset)
    );
}

#[test]
fn empty_results_is_a_noop() {
    let mut results: Vec<TempoResult> = Vec::new();
    calculate_offset(&[double(0.0); 1000], 44100, &mut results);
    assert!(results.is_empty());
}

#[test]
fn slopes_measure_leading_edges() {
    // A rate of 40 makes half windows of two samples.
    assert_eq!(slope_half_window(40), 2);
    let samples = doubles(&[0.0, 0.0, 0.0, 1.0, -1.0, 1.0, 0.0, 0.0]);
    let slopes: Vec<f64> = compute_slopes(&samples, 40).iter().map(|&x| float(x)).collect();
    assert_eq!(slopes, vec![0.0, 0.0, 0.5, 1.0, 0.5, 0.0, 0.0, 0.0]);
    let short: Vec<f64> = compute_slopes(&samples[..3], 40).iter().map(|&x| float(x)).collect();
    assert_eq!(short, vec![0.0, 0.0, 0.0]);
}

#[test]
fn grids_that_never_end_give_no_offset() {
    let slopes = doubles(&[0.0; 20000]);
    // The beats of an infinite tempo are empty, those of a negative one go backward.
    assert_eq!(try_slopes_best_phase(&slopes, 44100, double(f64::INFINITY)).map(float), Some(0.0));
    assert!(try_adjust_for_offbeats(44100, &slopes, double(0.0), double(-120.0)).is_none());
    assert!(try_calculate_offset(&slopes, 44100, &vec![result(-120.0)]).is_none());
}

#[test]
fn offbeat_with_more_energy_wins() {
    // At 60 BPM and ten samples per second a beat has ten samples.
    let mut slopes = vec![0.0; 100];
    slopes[2] = 1.0;
    slopes[7] = 3.0;
    let s = doubles(&slopes);
    assert_eq!(try_adjust_for_offbeats(10, &s, double(0.2), double(60.0)).map(float), Some(0.7));
    assert_eq!(try_adjust_for_offbeats(10, &s, double(0.7), double(60.0)).map(float), Some(0.7));
}

/// A click track without jitter.
fn synthetic_click_track(
    num_frames: usize,
    offset_samples: usize,
    interval: usize,
    click_len: usize,
) -> Vec<f32> {
    let mut samples = vec![0.0f32; num_frames];
    let mut k = 0usize;
    loop {
        let pos = offset_samples + k * interval;
        if pos + click_len >= num_frames {
            break;
        }
        for i in 0..click_len {
            samples[pos + i] = (1.0 - i as f32 / click_len as f32).max(0.0);
        }
        k += 1;
    }
    samples
}

#[test]
fn detects_known_bpm_end_to_end() {
    let sample_rate = 44100u32;
    let true_bpm = 120.0;
    let interval = (sample_rate as f64 * 60.0 / true_bpm).round() as usize;
    let num_frames = interval * 60;
    let samples = widen(&synthetic_click_track(num_frames, 5000, interval, 400));

    let odf = onset_detection_function(&samples);
    let results = detect(&odf, &samples, sample_rate, &DetectOptions::default(), &cosines());

    assert!(!results.is_empty(), "expected at least one candidate");
    assert!(
        (float(results[0].bpm) - true_bpm).abs() < 0.5,
        "top candidate bpm = {}, expected close to {true_bpm}",
        float(results[0].bpm)
    );
}

#[test]
fn detects_known_bpm_and_offset_end_to_end() {
    let sample_rate = 44100u32;
    let true_bpm = 162.0;
    let interval = (sample_rate as f64 * 60.0 / true_bpm).round() as usize;
    let true_offset_secs = 0.12;
    let offset_samples = (true_offset_secs * sample_rate as f64).round() as usize;
    let num_frames = interval * 60 + offset_samples;
    let samples = widen(&synthetic_click_track(num_frames, offset_samples, interval, 400));

    let odf = onset_detection_function(&samples);
    let results = detect(&odf, &samples, sample_rate, &DetectOptions::default(), &cosines());

    assert!(!results.is_empty());
    assert!(
        (float(results[0].bpm) - true_bpm).abs() < 0.5,
        "top candidate bpm = {}, expected close to {true_bpm}",
        float(results[0].bpm)
    );
    let offset_error = (float(results[0].offset) - true_offset_secs).abs();
    assert!(
        offset_error < 0.02,
        "offset = {}, expected close to {true_offset_secs} (error {offset_error}s)",
        float(results[0].offset)
    );
}

#[test]
fn returns_no_more_than_three_candidates() {
    let sample_rate = 44100u32;
    let interval = (sample_rate as f64 * 60.0 / 140.0).round() as usize;
    let samples = widen(&synthetic_click_track(interval * 60, 3000, interval, 400));

    let odf = onset_detection_function(&samples);
    let results = detect(&odf, &samples, sample_rate, &DetectOptions::default(), &cosines());

    assert!(results.len() <= 3);
    for pair in results.windows(2) {
        assert!(float(pair[0].fitness) >= float(pair[1].fitness));
    }
}

#[test]
fn silence_gives_the_placeholder() {
    let samples = vec![double(0.0); 44100];
    let odf = onset_detection_function(&samples);
    let (onsets, results) = try_detect_with_onsets(&odf, &samples, 44100, &DetectOptions::default(), &cosines()).unwrap();
    assert!(onsets.is_empty());
    assert_eq!(results.len(), 1);
    assert_eq!(float(results[0].bpm), 100.0);
}

#[test]
fn the_phase_is_the_end_of_the_highest_plateau() {
    // A thousand samples per second make steps of one sample and beats of a second.
    let mut slopes = vec![0.0; 5000];
    for beat in 0..5 {
        for i in 300..=310 {
            slopes[1000 * beat + i] = 1.0 - 1e-9 * i as f64;
        }
        slopes[1000 * beat + 600] = 0.9;
    }
    assert_eq!(try_slopes_best_phase(&doubles(&slopes), 1000, double(60.0)).map(float), Some(0.31));
    slopes[700] = 6.0;
    assert_eq!(try_slopes_best_phase(&doubles(&slopes), 1000, double(60.0)).map(float), Some(0.7));
}

#[test]
fn offsets_lie_within_the_first_beat() {
    let samples = widen(&synthetic_click_signal(20_000, 300, 1900, 50));
    for bpm in [61.7, 139.18, 259.9, 1e5] {
        let found = try_calculate_offset(&samples, 4410, &[result(bpm)]).unwrap();
        let offset = float(found[0].offset);
        assert!(0.0 <= offset && offset <= 60.0 / bpm, "{offset} at {bpm}");
        assert_eq!(float(found[0].bpm), bpm);
    }
}
