//! Ground-truth timing of osu! beatmaps.
//!
//! A beatmap is a text of sections. `[General]` names the audio file;
//! `[TimingPoints]` holds lines of the form
//! `time,beatLength,meter,sampleSet,sampleIndex,volume,uninherited,effects`, of
//! which an uninherited one with a positive beat length sets the tempo.

use crate::double::{ratio, zero, Double};
use crate::numeral::{double_of, parse_double, parse_u32, u32_of};
use crate::text::{
    characters, find, find_char, lemma_last_line, lemma_lines_joined, lemma_one_line, lemma_returns, lemma_trimmed_return,
    lemma_trimmed_twice, lines, pieces, portion, reads, same_lines, same_text, split, starts_with, trim, trimmed,
    with_returns, without_return, written,
};
use vstd::prelude::*;
use vstd::std_specs::cmp::PartialEqSpecImpl;
use vstd::string::*;

verus! {

/// Why a beatmap, or a set of them, cannot serve as ground truth.
#[derive(Debug, Clone, PartialEq)]
pub enum Skip {
    /// `[General]` has no `AudioFilename`.
    NoAudioFilename,
    /// No uninherited timing point exists.
    NoUninheritedTimingPoint,
    /// Uninherited timing points disagree on the beat length.
    VariableBpm,
    /// The archive contains no `.osu` files at all.
    NoOsuFiles,
    /// A failure to read the archive.
    Io(String),
}

impl Skip {
    /// The message that tells the reason.
    pub open spec fn text(self) -> Seq<char> {
        match self {
            Skip::NoAudioFilename => "no AudioFilename"@,
            Skip::NoUninheritedTimingPoint => "no uninherited timing point"@,
            Skip::VariableBpm => "variable BPM"@,
            Skip::NoOsuFiles => "no .osu files in archive"@,
            Skip::Io(message) => "io: "@ + message@,
        }
    }

    /// Writes the message that tells the reason.
    pub fn message(&self) -> (r: String)
        ensures
            r@ == self.text(),
    {
        match self {
            Skip::NoAudioFilename => "no AudioFilename".to_string(),
            Skip::NoUninheritedTimingPoint => "no uninherited timing point".to_string(),
            Skip::VariableBpm => "variable BPM".to_string(),
            Skip::NoOsuFiles => "no .osu files in archive".to_string(),
            Skip::Io(message) => {
                let mut out = "io: ".to_string();
                out.append(message.as_str());
                out
            },
        }
    }
}

/// The timing of one difficulty.
#[derive(Debug, Clone)]
pub struct OsuTiming {
    /// The path of the audio file inside the set.
    pub audio_filename: String,
    /// The tempo of the first uninherited timing point.
    pub bpm: Double,
    /// The time of the first uninherited timing point, in milliseconds.
    pub offset_ms: Double,
    /// The beats per bar of the first uninherited timing point.
    pub meter: u32,
}

/// What an [`OsuTiming`] holds.
pub struct Timing {
    pub audio_filename: Seq<char>,
    pub bpm: Double,
    pub offset_ms: Double,
    pub meter: u32,
}

impl Timing {
    /// Whether two timings are the same.
    pub open spec fn same(self, other: Timing) -> bool {
        &&& self.audio_filename == other.audio_filename
        &&& self.bpm.same(other.bpm)
        &&& self.offset_ms.same(other.offset_ms)
        &&& self.meter == other.meter
    }
}

impl View for OsuTiming {
    type V = Timing;

    open spec fn view(&self) -> Timing {
        Timing {
            audio_filename: self.audio_filename@,
            bpm: self.bpm,
            offset_ms: self.offset_ms,
            meter: self.meter,
        }
    }
}

impl PartialEqSpecImpl for OsuTiming {
    open spec fn obeys_eq_spec() -> bool {
        true
    }

    open spec fn eq_spec(&self, other: &OsuTiming) -> bool {
        self@.same(other@)
    }
}

impl PartialEq for OsuTiming {
    fn eq(&self, other: &OsuTiming) -> (r: bool) {
        let a = characters(self.audio_filename.as_str());
        let b = characters(other.audio_filename.as_str());
        same_text(&a, &b) && self.bpm.equals(other.bpm) && self.offset_ms.equals(other.offset_ms) && self.meter
            == other.meter
    }
}

/// A timing point that sets the tempo.
#[derive(Debug, Clone, Copy)]
pub struct TimingPoint {
    /// In milliseconds.
    pub time: Double,
    /// In milliseconds.
    pub beat_length: Double,
    /// Beats per bar.
    pub meter: u32,
}

/// What the lines of a beatmap up to some line tell.
pub struct Scan {
    /// The section that the next line belongs to.
    pub section: Seq<char>,
    /// The audio file that `[General]` names.
    pub audio: Option<Seq<char>>,
    /// The uninherited timing points.
    pub points: Seq<TimingPoint>,
}

/// Whether a line is to be passed over.
pub open spec fn is_blank(line: Seq<char>) -> bool {
    line.len() == 0 || (line.len() >= 2 && line.take(2) == "//"@)
}

/// Whether a line names a section.
pub open spec fn is_header(line: Seq<char>) -> bool {
    line.len() >= 2 && line[0] == '[' && line.last() == ']'
}

/// The audio file that a line of `[General]` names.
pub open spec fn audio_of(line: Seq<char>) -> Option<Seq<char>> {
    let colon = find(line, ':', 0);
    if colon < line.len() && trimmed(line.take(colon)) == "AudioFilename"@ {
        Some(trimmed(line.skip(colon + 1)))
    } else {
        None
    }
}

/// The uninherited timing point that a line of `[TimingPoints]` holds. A line
/// without the flag holds one where its beat length is positive.
pub open spec fn point_of(line: Seq<char>) -> Option<TimingPoint> {
    let fields = pieces(line, ',', 0);
    if fields.len() < 3 {
        None
    } else {
        match (double_of(trimmed(fields[0])), double_of(trimmed(fields[1]))) {
            (Some(time), Some(beat_length)) => {
                let meter = match u32_of(trimmed(fields[2])) {
                    Some(meter) => meter,
                    None => 4u32,
                };
                let flagged = fields.len() <= 6 || trimmed(fields[6]) == "1"@;
                if flagged && zero().lt(beat_length) {
                    Some(TimingPoint { time, beat_length, meter })
                } else {
                    None
                }
            },
            _ => None,
        }
    }
}

/// What a line adds to what the lines before it tell.
pub open spec fn scan_line(scan: Scan, raw: Seq<char>) -> Scan {
    let line = trimmed(raw);
    if is_blank(line) {
        scan
    } else if is_header(line) {
        Scan { section: line.subrange(1, line.len() - 1), ..scan }
    } else if scan.section == "General"@ {
        match audio_of(line) {
            Some(audio) => Scan { audio: Some(audio), ..scan },
            None => scan,
        }
    } else if scan.section == "TimingPoints"@ {
        match point_of(line) {
            Some(point) => Scan { points: scan.points.push(point), ..scan },
            None => scan,
        }
    } else {
        scan
    }
}

/// What some lines tell.
pub open spec fn scan_lines(all: Seq<Seq<char>>) -> Scan
    decreases all.len(),
{
    if all.len() == 0 {
        Scan { section: Seq::empty(), audio: None, points: Seq::empty() }
    } else {
        scan_line(scan_lines(all.drop_last()), all.last())
    }
}

/// Whether the beat length of a point differs from that of the first.
pub open spec fn departs(points: Seq<TimingPoint>, i: int) -> bool {
    ratio(1, 100).lt((points[i].beat_length - points[0].beat_length).abs())
}

/// The timing that a scan gives, or why it gives none.
pub open spec fn timing_of(scan: Scan) -> Result<Timing, Skip> {
    match scan.audio {
        None => Err(Skip::NoAudioFilename),
        Some(audio) => if scan.points.len() == 0 {
            Err(Skip::NoUninheritedTimingPoint)
        } else if exists|i: int| 0 <= i < scan.points.len() && departs(scan.points, i) {
            Err(Skip::VariableBpm)
        } else {
            Ok(
                Timing {
                    audio_filename: audio,
                    bpm: ratio(60000, 1) / scan.points[0].beat_length,
                    offset_ms: scan.points[0].time,
                    meter: scan.points[0].meter,
                },
            )
        },
    }
}

/// The timing of a beatmap, or why it has none.
pub open spec fn beatmap_timing(content: Seq<char>) -> Result<Timing, Skip> {
    timing_of(scan_lines(lines(content, 0)))
}

/// Lines that differ in the white space at their ends alone tell the same.
proof fn lemma_same_lines(a: Seq<Seq<char>>, b: Seq<Seq<char>>)
    requires
        same_lines(a, b),
    ensures
        scan_lines(a) == scan_lines(b),
    decreases a.len(),
{
    if a.len() > 0 {
        assert(trimmed(a[a.len() - 1]) == trimmed(b[a.len() - 1]));
        lemma_same_lines(a.drop_last(), b.drop_last());
    }
}

/// A beatmap whose lines end with a carriage return and a line feed has the timing of one
/// whose lines end with a line feed.
pub proof fn lemma_line_ends(content: Seq<char>)
    ensures
        beatmap_timing(with_returns(content)) == beatmap_timing(content),
{
    lemma_returns(content);
    lemma_same_lines(lines(with_returns(content), 0), lines(content, 0));
}

/// Whether a line of `[TimingPoints]` is an inherited point: its flag is not `1`.
pub open spec fn is_inherited(line: Seq<char>) -> bool {
    let fields = pieces(line, ',', 0);
    !is_header(line) && fields.len() > 6 && trimmed(fields[6]) != "1"@
}

/// Whether a line of a section tells nothing: it is blank, a comment or an inherited point.
pub open spec fn is_idle(section: Seq<char>, raw: Seq<char>) -> bool {
    is_blank(trimmed(raw)) || (section == "TimingPoints"@ && is_inherited(trimmed(raw)))
}

/// The trimmed lines that are not idle.
pub open spec fn telling(all: Seq<Seq<char>>) -> Seq<Seq<char>>
    decreases all.len(),
{
    if all.len() == 0 {
        all
    } else {
        let before = telling(all.drop_last());
        if is_idle(scan_lines(all.drop_last()).section, all.last()) {
            before
        } else {
            before.push(trimmed(all.last()))
        }
    }
}

/// An idle line adds nothing.
proof fn lemma_idle(scan: Scan, raw: Seq<char>)
    requires
        is_idle(scan.section, raw),
    ensures
        scan_line(scan, raw) == scan,
{
    reveal_strlit("General");
    reveal_strlit("TimingPoints");
    assert("General"@.len() != "TimingPoints"@.len());
}

/// Some lines tell what those of them that are not idle tell.
proof fn lemma_telling_lines(all: Seq<Seq<char>>)
    ensures
        scan_lines(telling(all)) == scan_lines(all),
    decreases all.len(),
{
    if all.len() > 0 {
        let before = all.drop_last();
        lemma_telling_lines(before);
        if is_idle(scan_lines(before).section, all.last()) {
            lemma_idle(scan_lines(before), all.last());
        } else {
            lemma_trimmed_twice(all.last());
            assert(telling(all).drop_last() =~= telling(before));
        }
    }
}

/// Beatmaps whose lines agree but for blank lines, comments, inherited points, white space
/// at the ends of lines and the form of line ends have the same timing.
pub proof fn lemma_telling(a: Seq<char>, b: Seq<char>)
    requires
        telling(lines(a, 0)) == telling(lines(b, 0)),
    ensures
        beatmap_timing(a) == beatmap_timing(b),
{
    lemma_telling_lines(lines(a, 0));
    lemma_telling_lines(lines(b, 0));
}

/// An idle line among other lines tells nothing.
pub proof fn lemma_idle_line(before: Seq<Seq<char>>, line: Seq<char>, after: Seq<Seq<char>>)
    requires
        is_idle(scan_lines(before).section, line),
    ensures
        scan_lines(before.push(line) + after) == scan_lines(before + after),
        telling(before.push(line) + after) == telling(before + after),
    decreases after.len(),
{
    let with = before.push(line) + after;
    let without = before + after;
    if after.len() == 0 {
        assert(with =~= before.push(line));
        assert(with.drop_last() =~= before);
        assert(without =~= before);
        lemma_idle(scan_lines(before), line);
    } else {
        lemma_idle_line(before, line, after.drop_last());
        assert(with.drop_last() =~= before.push(line) + after.drop_last());
        assert(without.drop_last() =~= before + after.drop_last());
    }
}

/// A blank line, a comment or, in `[TimingPoints]`, an inherited point that is inserted
/// before a line of a beatmap or behind the last one leaves the timing as it is.
pub proof fn lemma_inserted_line(before: Seq<char>, line: Seq<char>, after: Seq<char>)
    requires
        before.len() == 0 || before.last() == '\n',
        forall|i: int| 0 <= i < line.len() ==> line[i] != '\n',
        is_idle(scan_lines(lines(before, 0)).section, line),
    ensures
        beatmap_timing(before + line.push('\n') + after) == beatmap_timing(before + after),
        beatmap_timing(before + line) == beatmap_timing(before),
{
    let head = lines(before, 0);
    let tail = lines(after, 0);
    lemma_one_line(line);
    lemma_trimmed_return(line);
    lemma_lines_joined(before, line.push('\n'));
    lemma_lines_joined(before + line.push('\n'), after);
    lemma_lines_joined(before, after);
    lemma_idle_line(head, without_return(line), tail);
    assert(head + seq![without_return(line)] =~= head.push(without_return(line)));
    lemma_lines_joined(before, line);
    if line.len() == 0 {
        assert(before + line =~= before);
    } else {
        lemma_idle_line(head, line, Seq::empty());
        assert(head + seq![line] =~= head.push(line) + Seq::<Seq<char>>::empty());
        assert(head + Seq::<Seq<char>>::empty() =~= head);
    }
}

/// A line feed at the end of a beatmap leaves the timing as it is.
pub proof fn lemma_final_feed(content: Seq<char>)
    ensures
        beatmap_timing(content.push('\n')) == beatmap_timing(content),
{
    let k = lemma_last_line(content);
    let before = content.take(k);
    let line = content.skip(k);
    assert forall|i: int| 0 <= i < line.len() implies line[i] != '\n' by {
        assert(line[i] == content[k + i]);
    }
    assert(content =~= before + line);
    assert(content.push('\n') =~= before + line.push('\n'));
    lemma_one_line(line);
    lemma_trimmed_return(line);
    lemma_lines_joined(before, line);
    lemma_lines_joined(before, line.push('\n'));
    if line.len() == 0 {
        lemma_inserted_line(before, line, Seq::empty());
        assert(before + line.push('\n') + Seq::<char>::empty() =~= content.push('\n'));
        assert(before + Seq::<char>::empty() =~= content);
    } else {
        let a = lines(content.push('\n'), 0);
        let b = lines(content, 0);
        assert(same_lines(a, b));
        lemma_same_lines(a, b);
    }
}

/// Reads the audio file that a line of `[General]` names.
fn read_audio(line: &[char]) -> (r: Option<Vec<char>>)
    ensures
        match r {
            Some(audio) => audio_of(line@) == Some(audio@),
            None => audio_of(line@) is None,
        },
{
    let n = line.len();
    let colon = find_char(line, ':', 0);
    if colon == n {
        return None;
    }
    let key = portion(line, 0, colon);
    assert(key@ =~= line@.take(colon as int));
    let key = trim(&key);
    if !reads(&key, "AudioFilename") {
        return None;
    }
    let value = portion(line, colon + 1, n);
    assert(value@ =~= line@.skip(colon + 1));
    Some(trim(&value))
}

/// Reads the timing point that a line of `[TimingPoints]` holds.
fn read_point(line: &[char]) -> (r: Option<TimingPoint>)
    ensures
        r == point_of(line@),
{
    let fields = split(line, ',');
    let ghost all = pieces(line@, ',', 0);
    if fields.len() < 3 {
        return None;
    }
    proof {
        assert(forall|i: int| 0 <= i < fields@.len() ==> fields@[i]@ == #[trigger] all[i]);
    }
    let a = trim(&fields[0]);
    let b = trim(&fields[1]);
    let c = trim(&fields[2]);
    match (parse_double(&a), parse_double(&b)) {
        (Some(time), Some(beat_length)) => {
            let meter: u32 = match parse_u32(&c) {
                Some(meter) => meter,
                None => 4,
            };
            let flagged = if fields.len() <= 6 {
                true
            } else {
                let flag = trim(&fields[6]);
                reads(&flag, "1")
            };
            if flagged && Double::from_bits(0).less(beat_length) {
                Some(TimingPoint { time, beat_length, meter })
            } else {
                None
            }
        },
        _ => None,
    }
}

/// The scan that some values stand for.
spec fn scan_view(section: Seq<char>, audio: Option<Vec<char>>, points: Seq<TimingPoint>) -> Scan {
    Scan {
        section,
        audio: match audio {
            Some(a) => Some(a@),
            None => None,
        },
        points,
    }
}

/// Parses the content of one beatmap.
pub fn parse_osu(content: &str) -> (r: Result<OsuTiming, Skip>)
    ensures
        match r {
            Ok(timing) => beatmap_timing(content@) == Ok::<Timing, Skip>(timing@),
            Err(skip) => beatmap_timing(content@) == Err::<Timing, Skip>(skip),
        },
{
    let chars = characters(content);
    let n = chars.len();
    let mut section: Vec<char> = Vec::new();
    let mut audio: Option<Vec<char>> = None;
    let mut points: Vec<TimingPoint> = Vec::new();
    let mut from: usize = 0;
    let ghost all = lines(content@, 0);
    let ghost mut done: Seq<Seq<char>> = Seq::empty();
    assert(all =~= done + lines(content@, 0));
    assert(scan_view(section@, audio, points@).section =~= Seq::empty());
    assert(points@ =~= Seq::empty());
    while from < n
        invariant
            n == content@.len(),
            chars@ == content@,
            from <= n,
            all == lines(content@, 0),
            all == done + lines(content@, from as int),
            scan_view(section@, audio, points@) == scan_lines(done),
        decreases n - from,
    {
        let end = find_char(&chars, '\n', from);
        let raw = portion(&chars, from, end);
        let raw = if end < n {
            strip_return(raw)
        } else {
            raw
        };
        let line = trim(&raw);
        let ghost before = done;
        proof {
            done = done.push(raw@);
            assert(done.drop_last() =~= before);
            if end < n {
                assert(all =~= done + lines(content@, end + 1));
            } else {
                assert(raw@ =~= content@.subrange(from as int, n as int));
                assert(all =~= done + lines(content@, n as int));
            }
        }
        if line.len() == 0 || starts_with(&line, "//") {
            proof {
                reveal_strlit("//");
            }
        } else if line.len() >= 2 && line[0] == '[' && line[line.len() - 1] == ']' {
            proof {
                reveal_strlit("//");
            }
            section = portion(&line, 1, line.len() - 1);
        } else if reads(&section, "General") {
            proof {
                reveal_strlit("//");
            }
            match read_audio(&line) {
                Some(name) => {
                    audio = Some(name);
                },
                None => {},
            }
        } else if reads(&section, "TimingPoints") {
            proof {
                reveal_strlit("//");
            }
            match read_point(&line) {
                Some(point) => {
                    points.push(point);
                },
                None => {},
            }
        } else {
            proof {
                reveal_strlit("//");
            }
        }
        from = if end < n {
            end + 1
        } else {
            n
        };
    }
    assert(done =~= all);
    match audio {
        None => Err(Skip::NoAudioFilename),
        Some(name) => conclude(name, points),
    }
}

/// Removes a carriage return at the end.
fn strip_return(raw: Vec<char>) -> (r: Vec<char>)
    ensures
        r@ == without_return(raw@),
{
    let mut raw = raw;
    if raw.len() > 0 && raw[raw.len() - 1] == '\r' {
        raw.pop();
    }
    raw
}

/// Makes the timing of the points of a map whose audio file is known.
fn conclude(audio: Vec<char>, points: Vec<TimingPoint>) -> (r: Result<OsuTiming, Skip>)
    ensures
        forall|scan: Scan|
            scan.audio == Some(audio@) && scan.points == points@ ==> match r {
                Ok(timing) => timing_of(scan) == Ok::<Timing, Skip>(timing@),
                Err(skip) => timing_of(scan) == Err::<Timing, Skip>(skip),
            },
{
    if points.len() == 0 {
        return Err(Skip::NoUninheritedTimingPoint);
    }
    let first = points[0];
    let tolerance = Double::from_ratio(1, 100);
    let mut i: usize = 0;
    while i < points.len()
        invariant
            i <= points@.len(),
            points@.len() > 0,
            first == points@[0],
            tolerance == ratio(1, 100),
            forall|j: int| 0 <= j < i ==> !departs(points@, j),
        decreases points@.len() - i,
    {
        if tolerance.less((points[i].beat_length - first.beat_length).abs()) {
            assert(departs(points@, i as int));
            return Err(Skip::VariableBpm);
        }
        i = i + 1;
    }
    Ok(
        OsuTiming {
            audio_filename: written(&audio),
            bpm: Double::from_ratio(60000, 1) / first.beat_length,
            offset_ms: first.time,
            meter: first.meter,
        },
    )
}

} // verus!
