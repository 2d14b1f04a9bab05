use tempo::double::Double;
use tempo::meter::{beat_accents, estimate_meter, meter_of_accents, notation_for, try_estimate_meter};
use tempo::Onset;

const SR: u32 = 44100;

fn float(x: Double) -> f64 {
    f64::from_bits(x.to_bits())
}

fn double(x: f64) -> Double {
    Double::from_bits(x.to_bits())
}

fn doubles(v: &[f64]) -> Vec<Double> {
    v.iter().map(|&x| double(x)).collect()
}

/// Deterministic pseudo-noise in [-0.5, 0.5).
fn noise(k: usize) -> f64 {
    (k as f64 * 0.618_033_988_749_894_9).fract() - 0.5
}

/// An onset train at exactly `bpm` whose strengths follow `pattern`, with matching
/// audio.
fn accent_train(
    bpm: f64,
    num_beats: usize,
    pattern: &[f64],
    noise_amp: f64,
) -> (Vec<Onset>, Vec<Double>, Double, Double) {
    let interval_f = SR as f64 * 60.0 / bpm;
    let offset = 0.1; // seconds
    let num_frames = (offset * SR as f64 + num_beats as f64 * interval_f + interval_f) as usize;
    let mut samples = vec![0.0f32; num_frames];
    let mut onsets = Vec::new();

    for k in 0..num_beats {
        let jitter = (k % 7) as i64 - 3;
        let pos = (offset * SR as f64 + k as f64 * interval_f).round() as i64 + jitter;
        let pos = pos.max(0) as usize;
        let strength = (pattern[k % pattern.len()] + noise_amp * noise(k)).max(0.05);
        onsets.push(Onset::new(pos, double(strength)));
        let click_len = 300;
        for i in 0..click_len {
            if pos + i < num_frames {
                samples[pos + i] =
                    (strength as f32) * (1.0 - i as f32 / click_len as f32).max(0.0);
            }
        }
    }

    let samples = samples.iter().map(|&x| double(x as f64)).collect();
    (onsets, samples, double(bpm), double(offset))
}

#[test]
fn meter_four_four_accent_pattern_reports_four_four() {
    let (onsets, samples, bpm, offset) = accent_train(120.0, 48, &[2.0, 1.0, 1.5, 1.0], 0.0);
    let est = estimate_meter(&onsets, &samples, SR, bpm, offset, false).expect("expected an estimate");
    assert_eq!(est.notation, "4/4");
    assert!(float(est.confidence) > 0.3, "confidence {}", float(est.confidence));
    assert!(!est.ambiguous);
}

#[test]
fn meter_three_four_accent_pattern_reports_three_four() {
    let (onsets, samples, bpm, offset) = accent_train(120.0, 48, &[2.0, 1.0, 1.0], 0.0);
    let est = estimate_meter(&onsets, &samples, SR, bpm, offset, false).expect("expected an estimate");
    assert_eq!(est.notation, "3/4");
    assert!(float(est.confidence) > 0.3, "confidence {}", float(est.confidence));
}

#[test]
fn meter_two_four_accent_pattern_reports_two_four() {
    let (onsets, samples, bpm, offset) = accent_train(120.0, 48, &[2.0, 1.0], 0.0);
    let est = estimate_meter(&onsets, &samples, SR, bpm, offset, false).expect("expected an estimate");
    assert_eq!(est.notation, "2/4");
}

#[test]
fn meter_six_eight_accent_pattern_reports_six_eight() {
    // Two groups of three with a secondary accent.
    let (onsets, samples, bpm, offset) = accent_train(120.0, 48, &[2.0, 1.0, 1.0, 1.4, 1.0, 1.0], 0.0);
    let est = estimate_meter(&onsets, &samples, SR, bpm, offset, false).expect("expected an estimate");
    assert_eq!(est.notation, "6/8");
    assert!(!est.ambiguous);
}

#[test]
fn meter_uniform_accents_report_low_confidence() {
    let (onsets, samples, bpm, offset) = accent_train(120.0, 48, &[1.0], 0.0);
    let est = estimate_meter(&onsets, &samples, SR, bpm, offset, false);
    match est {
        None => {} // declining to estimate is also acceptable
        Some(est) => assert!(
            float(est.confidence) < 0.3,
            "uniform accents should not produce a confident estimate, got {}",
            float(est.confidence)
        ),
    }
}

#[test]
fn meter_too_few_beats_returns_none() {
    let (onsets, samples, bpm, offset) = accent_train(120.0, 4, &[2.0, 1.0], 0.0);
    assert!(estimate_meter(&onsets, &samples, SR, bpm, offset, false).is_none());
}

#[test]
fn noisy_four_four_still_reports_four_four() {
    let (onsets, samples, bpm, offset) = accent_train(120.0, 48, &[2.0, 1.0, 1.5, 1.0], 1.0);
    let est = estimate_meter(&onsets, &samples, SR, bpm, offset, false).expect("expected an estimate");
    assert_eq!(est.notation, "4/4");
}

#[test]
fn noisy_waltz_still_reports_three_four() {
    let (onsets, samples, bpm, offset) = accent_train(120.0, 48, &[2.0, 1.0, 1.0], 1.0);
    let est = estimate_meter(&onsets, &samples, SR, bpm, offset, false).expect("expected an estimate");
    assert_eq!(est.notation, "3/4");
}

#[test]
fn noisy_six_eight_still_reports_six_eight() {
    let (onsets, samples, bpm, offset) = accent_train(120.0, 48, &[2.0, 1.0, 1.0, 1.4, 1.0, 1.0], 0.6);
    let est = estimate_meter(&onsets, &samples, SR, bpm, offset, false).expect("expected an estimate");
    assert_eq!(est.notation, "6/8");
}

#[test]
fn pure_noise_reports_low_confidence() {
    let (onsets, samples, bpm, offset) = accent_train(120.0, 48, &[1.0], 1.0);
    let est = estimate_meter(&onsets, &samples, SR, bpm, offset, false);
    match est {
        None => {}
        Some(est) => assert!(
            float(est.confidence) < 0.3,
            "pure noise should not produce a confident estimate, got {}",
            float(est.confidence)
        ),
    }
}

#[test]
fn weak_accent_structure_reports_unknown() {
    let (onsets, samples, bpm, offset) = accent_train(120.0, 48, &[1.1, 1.0, 1.05, 1.0], 0.6);
    let est = estimate_meter(&onsets, &samples, SR, bpm, offset, false).expect("expected an estimate");
    assert_eq!(est.notation, "unknown");
    assert_eq!(est.beats_per_bar, 0);
    assert!(float(est.confidence) < 0.3);
}

#[test]
fn triplet_feel_maps_four_beats_to_twelve_eight() {
    let (onsets, samples, bpm, offset) = accent_train(68.0, 48, &[2.0, 1.0, 1.5, 1.0], 0.0);
    let est = estimate_meter(&onsets, &samples, SR, bpm, offset, true).expect("expected an estimate");
    assert_eq!(est.notation, "12/8");
    assert_eq!(est.beats_per_bar, 4);
}

#[test]
fn triplet_feel_maps_two_beats_to_six_eight() {
    let (onsets, samples, bpm, offset) = accent_train(68.0, 48, &[2.0, 1.0], 0.0);
    let est = estimate_meter(&onsets, &samples, SR, bpm, offset, true).expect("expected an estimate");
    assert_eq!(est.notation, "6/8");
    assert_eq!(est.beats_per_bar, 2);
}

#[test]
fn no_triplet_feel_keeps_simple_notation() {
    let (onsets, samples, bpm, offset) = accent_train(68.0, 48, &[2.0, 1.0, 1.5, 1.0], 0.0);
    let est = estimate_meter(&onsets, &samples, SR, bpm, offset, false).expect("expected an estimate");
    assert_eq!(est.notation, "4/4");
}

#[test]
fn notations_of_all_groupings() {
    for (beats, text) in [(2, "2/4"), (3, "3/4"), (4, "4/4"), (6, "6/8"), (12, "12/8"), (0, "unknown"), (5, "unknown")] {
        assert_eq!(notation_for(beats), text);
    }
}

#[test]
fn accents_sum_strengths_near_beats() {
    let onsets = [
        Onset::new(100, double(1.0)),
        Onset::new(107, double(0.5)),
        Onset::new(109, double(4.0)),
        Onset::new(200, double(2.0)),
    ];
    // Within eight hundredths of an interval of a hundred samples.
    let accents = beat_accents(&onsets, &[], SR, &[100, 150, 200], double(100.0));
    let accents: Vec<f64> = accents.iter().map(|&x| float(x)).collect();
    assert_eq!(accents, vec![1.5, 0.0, 2.0]);
}

#[test]
fn confidence_is_the_winning_score() {
    // A strict alternation: centered +-0.5, so lag 2 scores (n - 2) / n and ties do not
    // matter.
    let accents: Vec<f64> = (0..16).map(|k| if k % 2 == 0 { 2.0 } else { 1.0 }).collect();
    let est = meter_of_accents(&doubles(&accents), false).unwrap();
    assert_eq!(est.beats_per_bar, 2);
    assert_eq!(float(est.confidence), 14.0 / 16.0);
    assert!(meter_of_accents(&doubles(&[1.0; 16]), false).is_none());
}

#[test]
fn grids_that_never_end_are_reported() {
    let samples = vec![double(0.0); 10];
    // An infinite tempo leaves no room between beats.
    assert!(try_estimate_meter(&[], &samples, SR, double(f64::INFINITY), double(0.0), false).is_none());
    assert!(matches!(try_estimate_meter(&[], &samples, SR, double(0.0), double(0.0), false), Some(None)));
    assert!(matches!(try_estimate_meter(&[], &samples, SR, double(-3.0), double(0.0), false), Some(None)));
}

#[test]
fn only_relative_strengths_matter() {
    for (pattern, noise_amp) in [(vec![2.0, 1.0, 1.5, 1.0], 1.0), (vec![2.0, 1.0, 1.0], 0.3), (vec![1.1, 1.0, 1.05, 1.0], 0.6)] {
        let (onsets, samples, bpm, offset) = accent_train(120.0, 48, &pattern, noise_amp);
        let doubled: Vec<Onset> = onsets
            .iter()
            .map(|o| Onset::new(o.pos, double(float(o.strength) * 2.0)))
            .collect();
        let once = estimate_meter(&onsets, &samples, SR, bpm, offset, false).expect("expected an estimate");
        let twice = estimate_meter(&doubled, &samples, SR, bpm, offset, false).expect("expected an estimate");
        assert!(once == twice);
        assert_eq!(once.confidence.to_bits(), twice.confidence.to_bits());
    }
}
