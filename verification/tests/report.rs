use tempo::report::{table_lines, Row};

fn full_row(osz: &str) -> Row {
    Row {
        osz: osz.to_string(),
        audio: "song.mp3".to_string(),
        status: "ok".to_string(),
        true_bpm: "180.000".to_string(),
        detected_bpm: "180.098".to_string(),
        bpm_error: "0.098".to_string(),
        true_bpm_rank: "1".to_string(),
        true_offset_ms: "726.0".to_string(),
        detected_offset_ms: "90.0".to_string(),
        offset_error_ms: "30.7".to_string(),
        meter_true: "4".to_string(),
        meter_detected: String::new(),
        meter_confidence: String::new(),
    }
}

#[test]
fn skipped_rows_hold_only_the_reason() {
    let row = Row::skipped("a.osz", "variable BPM");
    assert_eq!(row.osz, "a.osz");
    assert_eq!(row.status, "skipped: variable BPM");
    let empty = [
        &row.audio,
        &row.true_bpm,
        &row.detected_bpm,
        &row.bpm_error,
        &row.true_bpm_rank,
        &row.true_offset_ms,
        &row.detected_offset_ms,
        &row.offset_error_ms,
        &row.meter_true,
        &row.meter_detected,
        &row.meter_confidence,
    ];
    assert!(empty.iter().all(|cell| cell.is_empty()));
}

#[test]
fn tables_align_their_columns() {
    let mut second = full_row("b.osz");
    second.meter_detected = "12/8".to_string();
    let rows = vec![full_row("set one.osz"), Row::skipped("x.osz", "io"), second];
    let lines = table_lines(&rows);
    assert_eq!(
        lines,
        vec![
            "map          status         t_bpm    d_bpm    err  r  t_off  d_off  off_err  meter",
            "----------------------------------------------------------------------------------",
            "set one.osz  ok           180.000  180.098  0.098  1  726.0   90.0     30.7  4\u{2192}-",
            "x.osz        skipped: io",
            "b.osz        ok           180.000  180.098  0.098  1  726.0   90.0     30.7  4\u{2192}12/8",
        ]
    );
}

#[test]
fn long_names_are_cut() {
    let fits: String = "n".repeat(45);
    let long: String = "\u{e9}".repeat(46);
    let lines = table_lines(&vec![full_row(&fits), full_row(&long)]);
    assert!(lines[2].starts_with(&format!("{fits}  ok")));
    assert!(lines[3].starts_with(&format!("{}\u{2026}  ok", "\u{e9}".repeat(44))));
}

#[test]
fn a_table_without_rows_has_headings() {
    let lines = table_lines(&Vec::new());
    assert_eq!(lines.len(), 2);
    assert_eq!(lines[0], "map  status  t_bpm  d_bpm  err  r  t_off  d_off  off_err  meter");
    assert_eq!(lines[1], "-".repeat(lines[0].len()));
}
