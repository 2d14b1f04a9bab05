use std::io::Write;
use tempo::archive::{add_outcome, audio_file_name, entry_matches, extract_audio, read_osz_timings};
use tempo::double::Double;
use tempo::numeral::{parse_double, parse_u32};
use tempo::osu::{parse_osu, OsuTiming, Skip};

const BASIC_OSU: &str = "\
osu file format v14

[General]
AudioFilename: song.mp3
Mode: 0

[Metadata]
Title: Test Song

[TimingPoints]
726,333.333,4,2,0,80,1,0
1500,-100,4,2,0,60,0,0

[HitObjects]
";

fn float(x: Double) -> f64 {
    f64::from_bits(x.to_bits())
}

fn double(x: f64) -> Double {
    Double::from_bits(x.to_bits())
}

#[test]
fn parses_basic_timing() {
    let timing = parse_osu(BASIC_OSU).unwrap();
    assert_eq!(timing.audio_filename, "song.mp3");
    assert!((float(timing.bpm) - 180.0).abs() < 0.001);
    assert!((float(timing.offset_ms) - 726.0).abs() < 0.001);
    assert_eq!(timing.meter, 4);
}

#[test]
fn ignores_inherited_points_for_tempo() {
    // An inherited (negative beat length) point before the real one.
    let content = BASIC_OSU.replace(
        "726,333.333,4,2,0,80,1,0",
        "500,-50,4,2,0,80,0,0\n726,333.333,4,2,0,80,1,0",
    );
    let timing = parse_osu(&content).unwrap();
    assert!((float(timing.offset_ms) - 726.0).abs() < 0.001);
}

#[test]
fn old_format_without_uninherited_flag_uses_positive_beat_length() {
    let content = "[General]\nAudioFilename: a.mp3\n\n[TimingPoints]\n1000,500,4,1,0,80\n";
    let timing = parse_osu(content).unwrap();
    assert!((float(timing.bpm) - 120.0).abs() < 0.001);
}

#[test]
fn variable_bpm_is_rejected() {
    let content = BASIC_OSU.replace("1500,-100,4,2,0,60,0,0", "1500,250.0,4,2,0,60,1,0");
    assert_eq!(parse_osu(&content), Err(Skip::VariableBpm));
}

#[test]
fn reanchored_same_bpm_is_accepted() {
    // Two uninherited points with the same beat length: constant tempo, the first
    // point's offset wins.
    let content = BASIC_OSU.replace("1500,-100,4,2,0,60,0,0", "1500,333.333,4,2,0,60,1,0");
    let timing = parse_osu(&content).unwrap();
    assert!((float(timing.offset_ms) - 726.0).abs() < 0.001);
}

#[test]
fn missing_audio_filename_is_rejected() {
    let content = "[TimingPoints]\n726,333.333,4,2,0,80,1,0\n";
    assert_eq!(parse_osu(content), Err(Skip::NoAudioFilename));
}

#[test]
fn missing_uninherited_point_is_rejected() {
    let content = "[General]\nAudioFilename: a.mp3\n\n[TimingPoints]\n726,-100,4,2,0,80,0,0\n";
    assert_eq!(parse_osu(content), Err(Skip::NoUninheritedTimingPoint));
}

#[test]
fn tolerates_crlf_comments_and_blank_lines() {
    let content = BASIC_OSU.replace('\n', "\r\n") + "\r\n// a comment\r\n\r\n";
    let timing = parse_osu(&content).unwrap();
    assert_eq!(timing.audio_filename, "song.mp3");
}

#[test]
fn idle_lines_do_not_change_the_timing() {
    let expected = parse_osu(BASIC_OSU).unwrap();
    let lines: Vec<&str> = BASIC_OSU.lines().collect();
    let points = lines.iter().position(|&l| l == "[TimingPoints]").unwrap();
    for at in 0..=lines.len() {
        for idle in ["", "  ", "// 1,2,3,4,5,6,1", "\t//"] {
            let mut changed = lines.clone();
            changed.insert(at, idle);
            for end in ["\n", "\r\n"] {
                assert!(parse_osu(&changed.join(end)).unwrap() == expected, "{at} {idle}");
                assert!(parse_osu(&(changed.join(end) + end)).unwrap() == expected, "{at} {idle}");
            }
        }
        // Inherited points may have any beat length.
        if points < at && at <= points + 3 {
            for idle in ["0,-50,4,2,0,60,0,0", "1,250,4,2,0,60,0", " 9 , 1 , 3 ,0,0,0, 01 ,0"] {
                let mut changed = lines.clone();
                changed.insert(at, idle);
                assert!(parse_osu(&changed.join("\n")).unwrap() == expected, "{at} {idle}");
            }
        }
    }
}

#[test]
fn sections_and_fields_are_read_exactly() {
    // The last file name of the section counts; other sections and malformed lines
    // do not.
    let content = "[Editor]\nAudioFilename: no.mp3\n [General] \nAudioFilename : a b.ogg \nAudioFilename:c:d.ogg\n\
                   [TimingPoints]\nx,500\nx,500,4\n10.5,y,4\n 10.5 , 400 , seven ,0,0,0, 1 ,0\n";
    let timing = parse_osu(content).unwrap();
    assert_eq!(timing.audio_filename, "c:d.ogg");
    assert_eq!(float(timing.bpm), 150.0);
    assert_eq!(float(timing.offset_ms), 10.5);
    assert_eq!(timing.meter, 4);
    let flagged = "[General]\nAudioFilename: a\n[TimingPoints]\n1,500,3,0,0,0,0\n2,400,5,0,0,0,1\n";
    assert_eq!(float(parse_osu(flagged).unwrap().offset_ms), 2.0);
    assert_eq!(parse_osu(flagged).unwrap().meter, 5);
    // Beat lengths that differ by no more than a hundredth are one tempo.
    let close = "[General]\nAudioFilename: a\n[TimingPoints]\n1,500,4,0,0,0,1\n2,500.009,4,0,0,0,1\n";
    assert!(parse_osu(close).is_ok());
    let apart = "[General]\nAudioFilename: a\n[TimingPoints]\n1,500,4,0,0,0,1\n2,500.011,4,0,0,0,1\n";
    assert_eq!(parse_osu(apart), Err(Skip::VariableBpm));
}

#[test]
fn reasons_have_messages() {
    assert_eq!(Skip::NoAudioFilename.message(), "no AudioFilename");
    assert_eq!(Skip::NoUninheritedTimingPoint.message(), "no uninherited timing point");
    assert_eq!(Skip::VariableBpm.message(), "variable BPM");
    assert_eq!(Skip::NoOsuFiles.message(), "no .osu files in archive");
    assert_eq!(Skip::Io("x".to_string()).message(), "io: x");
}

/// The bytes of a zip archive with the given entries.
fn test_osz(entries: &[(&str, &str)]) -> Vec<u8> {
    let mut writer = zip::ZipWriter::new(std::io::Cursor::new(Vec::new()));
    let options = zip::write::SimpleFileOptions::default();
    for (name, content) in entries {
        writer.start_file(*name, options).unwrap();
        writer.write_all(content.as_bytes()).unwrap();
    }
    writer.finish().unwrap().into_inner()
}

#[test]
fn read_osz_dedupes_difficulties_sharing_timing() {
    let osz = test_osz(&[
        ("map [hard].osu", BASIC_OSU),
        ("map [insane].osu", BASIC_OSU),
        ("song.mp3", "not real audio"),
    ]);
    let timings = read_osz_timings(&osz).unwrap();
    assert_eq!(timings.len(), 1);
    assert!((float(timings[0].bpm) - 180.0).abs() < 0.001);
}

#[test]
fn read_osz_reports_variable_bpm_when_all_difficulties_do() {
    let variable = BASIC_OSU.replace("1500,-100,4,2,0,60,0,0", "1500,250.0,4,2,0,60,1,0");
    let osz = test_osz(&[("map.osu", &variable)]);
    assert_eq!(read_osz_timings(&osz), Err(Skip::VariableBpm));
}

#[test]
fn extract_audio_finds_file_regardless_of_case_and_prefix() {
    let osz = test_osz(&[("map.osu", BASIC_OSU), ("AUDIO/Song.MP3", "fake mp3 bytes")]);
    let audio = extract_audio(&osz, "song.mp3").unwrap();
    assert_eq!(audio.content, b"fake mp3 bytes");
    assert_eq!(audio.name, "AUDIO/Song.MP3");
    assert_eq!(audio_file_name(Some("MP3")), "osu-eval-audio.MP3");
    assert_eq!(audio_file_name(None), "osu-eval-audio.bin");
}

#[test]
fn sets_tell_why_they_hold_no_timing() {
    assert_eq!(read_osz_timings(&test_osz(&[("a.txt", "x")])), Err(Skip::NoOsuFiles));
    assert_eq!(
        read_osz_timings(&test_osz(&[("a.OSU", "x"), ("b.osu", "[General]\nAudioFilename: a\n")])),
        Err(Skip::NoAudioFilename)
    );
    let mixed = test_osz(&[("a.osu", "x"), ("b.osu", BASIC_OSU)]);
    assert_eq!(read_osz_timings(&mixed).unwrap().len(), 1);
    assert!(matches!(read_osz_timings(b"not a zip archive"), Err(Skip::Io(_))));
    assert!(matches!(extract_audio(b"not a zip archive", "a"), Err(Skip::Io(_))));
    match extract_audio(&mixed, "gone.mp3") {
        Err(Skip::Io(message)) => assert_eq!(message, "audio 'gone.mp3' not found in archive"),
        _ => panic!("expected a failure"),
    }
}

#[test]
fn entries_match_loosely() {
    assert!(entry_matches("a/b.mp3", "a\\b.mp3"));
    assert!(entry_matches("x\\y\\B.MP3", "b.mp3"));
    assert!(!entry_matches("b.mp3.bak", "b.mp3"));
    assert!(!entry_matches("ab.mp3", "b.mp3"));
}

#[test]
fn outcomes_gather_distinct_timings() {
    let timing = |bpm: f64, offset: f64| OsuTiming {
        audio_filename: "a".to_string(),
        bpm: double(bpm),
        offset_ms: double(offset),
        meter: 4,
    };
    let mut timings = Vec::new();
    let mut first = None;
    add_outcome(&mut timings, &mut first, Err(Skip::VariableBpm));
    add_outcome(&mut timings, &mut first, Ok(timing(120.0, 0.0)));
    add_outcome(&mut timings, &mut first, Ok(timing(120.0, -0.0)));
    add_outcome(&mut timings, &mut first, Ok(timing(121.0, 0.0)));
    add_outcome(&mut timings, &mut first, Err(Skip::NoAudioFilename));
    assert_eq!(timings.len(), 2);
    assert_eq!(first, Some(Skip::VariableBpm));
    // What is not a number equals nothing, itself not either.
    add_outcome(&mut timings, &mut first, Ok(timing(120.0, f64::NAN)));
    add_outcome(&mut timings, &mut first, Ok(timing(120.0, f64::NAN)));
    assert_eq!(timings.len(), 4);
}

fn parsed(text: &str) -> Option<u64> {
    let chars: Vec<char> = text.chars().collect();
    parse_double(&chars).map(|x| x.to_bits())
}

#[test]
fn numerals_agree_with_the_standard_library() {
    let fixed = [
        "", "+", "-", ".", "1", "-1", "+1", "1.", ".5", "-.5", "1.5e3", "1E-3", "1e", "1e+", "e5", ".e5", "1e5.0", "0x10",
        "inf", "-inf", "Infinity", "+INFINITY", "nan", "NaN", "-nan", "infin", "1_000", " 1", "1 ", "1e400", "1e-400",
        "-1e-400", "0e999999999999999999999999999999", "1e999999999999999999999999999999",
        "1e-999999999999999999999999999999", "179769313486231570814527423731704356798070567525844996598917476803157260780028538760589558632766878171540458953514382464234321326889464182768467546703537516986049910576551282076245490090389328944075868508455133942304583236903222948165808559332123347747797926207244472368e1",
        "2.2250738585072011e-308", "4.9406564584124654e-324", "2.4703282292062327e-324", "2.4703282292062328e-324",
        "9007199254740993", "9007199254740992.5", "0.1", "0.30000000000000004", "333.333", "00000.00001", "123456789012345678901234567890",
        "1.7976931348623157e308", "1.7976931348623159e308", "\u{663}",
    ];
    for text in fixed {
        let expected = text.parse::<f64>().ok().map(|x| x.to_bits());
        assert_eq!(parsed(text), expected, "{text}");
    }
    let mut state = 0x1357_9BDF_2468_ACE0u64;
    for _ in 0..3000 {
        state ^= state << 13;
        state ^= state >> 7;
        state ^= state << 17;
        let x = f64::from_bits(state);
        if x.is_finite() {
            let text = format!("{x:e}");
            assert_eq!(parsed(&text), Some(x.to_bits()), "{text}");
        }
        let text = format!("{}.{}e{}", state % 100_000, state >> 40, (state % 640) as i64 - 330);
        assert_eq!(parsed(&text), Some(text.parse::<f64>().unwrap().to_bits()), "{text}");
    }
}

#[test]
fn integers_agree_with_the_standard_library() {
    for text in ["", "+", "-1", "-0", "0", "+7", "007", "4294967295", "4294967296", "99999999999999999999", "4x", " 4"] {
        let chars: Vec<char> = text.chars().collect();
        assert_eq!(parse_u32(&chars), text.parse::<u32>().ok(), "{text}");
    }
}
