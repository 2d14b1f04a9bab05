use std::collections::hash_map::DefaultHasher;
use std::hash::Hasher;
use tempo::double::Double;
use tempo::eval::{
    audio_hash, compare_timing, find_offset_error, spread_lines, spread_of, summary_lines, Comparison, Ledger,
};
use tempo::meter::MeterEstimate;
use tempo::osu::{OsuTiming, Skip};
use tempo::report::Row;
use tempo::TempoResult;

fn float(x: Double) -> f64 {
    f64::from_bits(x.to_bits())
}

fn double(x: f64) -> Double {
    Double::from_bits(x.to_bits())
}

fn truth(bpm: f64, offset_ms: f64) -> OsuTiming {
    OsuTiming {
        audio_filename: "song.mp3".to_string(),
        bpm: double(bpm),
        offset_ms: double(offset_ms),
        meter: 4,
    }
}

fn found(bpm: f64, offset: f64) -> TempoResult {
    TempoResult {
        bpm: double(bpm),
        offset: double(offset),
        fitness: double(1.0),
    }
}

fn meter() -> Option<MeterEstimate> {
    Some(MeterEstimate {
        beats_per_bar: 3,
        notation: "3/4".to_string(),
        confidence: double(0.456),
        ambiguous: false,
    })
}

#[test]
fn matching_timing_fills_the_row() {
    let results = vec![found(180.098, 0.09), found(90.0, 0.1)];
    let c = compare_timing("a.osz", &truth(180.0, 726.0), &results, &meter()).unwrap();
    assert!(c.bpm_ok);
    let beat = 60.0 / 180.0;
    let mut error = 0.09 - (726.0f64 / 1000.0).rem_euclid(beat);
    error = (error + beat / 2.0).rem_euclid(beat) - beat / 2.0;
    assert_eq!(c.offset_error.map(float), Some(error * 1000.0));
    assert_eq!(c.row.osz, "a.osz");
    assert_eq!(c.row.audio, "song.mp3");
    assert_eq!(c.row.status, "ok");
    assert_eq!(c.row.true_bpm, "180.000");
    assert_eq!(c.row.detected_bpm, "180.098");
    assert_eq!(c.row.bpm_error, "0.098");
    assert_eq!(c.row.true_bpm_rank, "1");
    assert_eq!(c.row.true_offset_ms, "726.0");
    assert_eq!(c.row.detected_offset_ms, "90.0");
    assert_eq!(c.row.offset_error_ms, "30.7");
    assert_eq!(c.row.meter_true, "4");
    assert_eq!(c.row.meter_detected, "3/4");
    assert_eq!(c.row.meter_confidence, "0.46");
}

#[test]
fn wrong_tempo_has_no_offset_error() {
    let results = vec![found(90.0, 0.1), found(180.4, 0.09)];
    let c = compare_timing("a.osz", &truth(180.0, 726.0), &results, &None).unwrap();
    assert!(!c.bpm_ok);
    assert!(c.offset_error.is_none());
    assert_eq!(c.row.true_bpm_rank, "2");
    assert_eq!(c.row.bpm_error, "-90.000");
    assert_eq!(c.row.offset_error_ms, "");
    assert_eq!(c.row.meter_detected, "");
    assert_eq!(c.row.meter_confidence, "");
    // A difference of half a beat per minute is too much.
    let c = compare_timing("a.osz", &truth(180.0, 726.0), &vec![found(180.5, 0.0)], &None).unwrap();
    assert!(!c.bpm_ok);
    assert_eq!(c.row.true_bpm_rank, "");
}

#[test]
fn no_candidates_cannot_be_compared() {
    let outcome = compare_timing("a.osz", &truth(180.0, 0.0), &Vec::new(), &None);
    assert_eq!(outcome.err(), Some("detector returned no candidates".to_string()));
}

#[test]
fn offset_errors_stay_within_half_a_beat() {
    // At 120 BPM a beat lasts half a second.
    let t = truth(120.0, 10_020.0);
    assert!((float(find_offset_error(double(0.03), &t)) - 10.0).abs() < 1e-9);
    // Just before the next beat is just before the true one.
    assert!((float(find_offset_error(double(0.49), &t)) + 30.0).abs() < 1e-9);
    let mut state = 0x9E37_79B9_7F4A_7C15u64;
    for _ in 0..2000 {
        state ^= state << 13;
        state ^= state >> 7;
        state ^= state << 17;
        let bpm = 40.0 + (state % 220_000) as f64 / 1000.0;
        let detected = (state >> 20) as f64 / 1e12;
        let t = truth(bpm, (state % 99_991) as f64);
        let error = float(find_offset_error(double(detected), &t));
        let half = 60.0 / bpm / 2.0 * 1000.0;
        assert!(-half <= error && error <= half, "{error} at {bpm}");
    }
}

#[test]
fn audio_is_recognized_by_its_hash() {
    let mut hasher = DefaultHasher::new();
    hasher.write(b"fake mp3 bytes");
    assert_eq!(audio_hash(Some(b"fake mp3 bytes")), hasher.finish());
    assert_eq!(audio_hash(None), DefaultHasher::new().finish());
    assert_ne!(audio_hash(Some(b"a")), audio_hash(Some(b"b")));
}

fn comparison(error: Option<f64>) -> Comparison {
    Comparison {
        row: Row::skipped("ok.osz", "nothing"),
        offset_error: error.map(double),
        bpm_ok: error.is_some(),
    }
}

#[test]
fn ledgers_count_what_they_hold() {
    let mut ledger = Ledger::new();
    assert!(summary_lines(&ledger, 0).len() == 1);
    ledger.skip_set("v.osz", &Skip::VariableBpm);
    ledger.skip_audio("w.osz", &Skip::Io("gone".to_string()));
    ledger.skip_decoding("d.osz", "unsupported");
    assert!(ledger.note_audio("a.osz", 7));
    assert!(ledger.note_audio("b.osz", 8));
    assert!(!ledger.note_audio("c.osz", 7));
    ledger.record("a.osz", Ok(comparison(Some(-12.5))));
    ledger.record("b.osz", Ok(comparison(None)));
    ledger.record("e.osz", Err("detector returned no candidates".to_string()));
    assert_eq!(ledger.rows.len(), 7);
    assert_eq!(ledger.rows[3].status, "skipped: duplicate audio of a.osz");
    assert_eq!(ledger.rows[3].osz, "c.osz");
    let errors: Vec<f64> = ledger.offset_errors.iter().map(|&e| float(e)).collect();
    assert_eq!(errors, vec![-12.5]);
    assert_eq!(
        summary_lines(&ledger, 9),
        vec![
            "== summary: 2 analyzed, 5 skipped, 9 total .osz ==",
            "  skipped v.osz: variable BPM",
            "  skipped w.osz: audio extraction failed: io: gone",
            "  skipped d.osz: decode failed: unsupported",
            "  skipped c.osz: duplicate audio of a.osz",
            "  skipped e.osz: detector returned no candidates",
            "bpm: 1/2 within 0.5 BPM of ground truth",
        ]
    );
}

#[test]
fn spreads_are_exact() {
    let errors = [26.9, -10.0, 40.0, 25.3];
    let spread = spread_of(&errors.iter().map(|&e| double(e)).collect());
    let mut sorted = errors.to_vec();
    sorted.sort_by(f64::total_cmp);
    let mean = sorted.iter().sum::<f64>() / 4.0;
    let variance = sorted.iter().map(|e| (e - mean).powi(2)).sum::<f64>() / 4.0;
    assert_eq!(float(spread.mean), mean);
    assert_eq!(float(spread.median), 26.9);
    assert_eq!(float(spread.variance), variance);
    assert_eq!(float(spread.min), -10.0);
    assert_eq!(float(spread.max), 40.0);
    assert_eq!(spread.within_10, 1);
    assert_eq!(spread.within_40, 4);
    assert_eq!(spread.count, 4);
    let lines = spread_lines(&spread, double(variance.sqrt()));
    assert_eq!(
        lines,
        vec![
            format!(
                "offset error (ms, signed, BPM-correct maps only): mean {mean:+.1}, median +26.9, stddev {:.1}, min -10.0, max +40.0",
                variance.sqrt()
            ),
            "offset accuracy: 1/4 within +-10ms, 4/4 within +-40ms".to_string(),
        ]
    );
}
