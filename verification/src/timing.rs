//! What the lines of a beatmap tell of its timing.

use crate::arith::quotient_to;
use crate::convert::lemma_exact_integer;
use crate::double::{lemma_build, one_units, ratio, zero, TOP};
use crate::eval::{gap_between, lemma_distance};
use crate::numeral::{double_of, u32_of};
use crate::osu::{
    audio_of, departs, is_blank, is_header, point_of, scan_line, scan_lines, timing_of, Scan, Skip, TimingPoint,
};
use crate::precision::rounded;
use crate::rounding::lemma_encode_scale;
use crate::text::{find, lemma_find, pieces, trimmed};
use crate::writing::lemma_pieces;
use vstd::arithmetic::power2::*;
use vstd::prelude::*;
use vstd::string::*;

verus! {

/// Fields with commas between them.
pub open spec fn joined(fields: Seq<Seq<char>>) -> Seq<char>
    decreases fields.len(),
{
    if fields.len() == 0 {
        Seq::empty()
    } else if fields.len() == 1 {
        fields[0]
    } else {
        fields[0].push(',') + joined(fields.drop_first())
    }
}

/// Whether no field has a comma.
pub open spec fn are_fields(fields: Seq<Seq<char>>) -> bool {
    &&& fields.len() > 0
    &&& forall|i: int, j: int| 0 <= i < fields.len() && 0 <= j < fields[i].len() ==> #[trigger] fields[i][j] != ','
}

/// A line is cut where fields were joined.
proof fn lemma_joined(fields: Seq<Seq<char>>)
    requires
        are_fields(fields),
    ensures
        pieces(joined(fields), ',', 0) == fields,
    decreases fields.len(),
{
    let first = fields[0];
    assert forall|j: int| 0 <= j < first.len() implies first[j] != ',' by {
        assert(fields[0][j] != ',');
    }
    if fields.len() == 1 {
        lemma_pieces(first, Seq::empty(), ',');
        assert(seq![first] =~= fields);
    } else {
        let rest = fields.drop_first();
        assert(are_fields(rest)) by {
            assert forall|i: int, j: int| 0 <= i < rest.len() && 0 <= j < rest[i].len() implies #[trigger] rest[i][j]
                != ',' by {
                assert(fields[i + 1][j] != ',');
            }
        }
        lemma_joined(rest);
        lemma_pieces(first, joined(rest), ',');
        assert(seq![first] + rest =~= fields);
    }
}

/// A line of `[TimingPoints]` sets the tempo where it has three fields or more, the first two
/// are numbers, the second is positive, and the seventh, if there is one, is a `1`. The
/// fields are the time, the length of a beat and the beats per bar; where the last are no
/// number, they are four.
pub proof fn lemma_point_line(fields: Seq<Seq<char>>)
    requires
        are_fields(fields),
    ensures
        ({
            let line = joined(fields);
            let time = double_of(trimmed(fields[0]));
            let beat = double_of(trimmed(fields[1]));
            let sets = {
                &&& fields.len() >= 3
                &&& time is Some
                &&& beat matches Some(b) && zero().lt(b)
                &&& fields.len() >= 7 ==> trimmed(fields[6]) == seq!['1']
            };
            &&& sets ==> point_of(line) == Some(
                TimingPoint {
                    time: time.unwrap(),
                    beat_length: beat.unwrap(),
                    meter: match u32_of(trimmed(fields[2])) {
                        Some(m) => m,
                        None => 4u32,
                    },
                },
            )
            &&& !sets ==> point_of(line) is None
        }),
{
    lemma_joined(fields);
    reveal_strlit("1");
    assert("1"@ =~= seq!['1']);
}

/// A line of `[General]` names the audio file behind the first colon, where what stands
/// before it reads `AudioFilename`; white space around both does not count.
pub proof fn lemma_audio_line(key: Seq<char>, value: Seq<char>)
    requires
        forall|i: int| 0 <= i < key.len() ==> key[i] != ':',
    ensures
        trimmed(key) == "AudioFilename"@ ==> audio_of(key.push(':') + value) == Some(trimmed(value)),
        trimmed(key) != "AudioFilename"@ ==> audio_of(key.push(':') + value) is None,
        audio_of(key) is None,
{
    let line = key.push(':') + value;
    let n = key.len() as int;
    lemma_find(line, ':', 0);
    lemma_find(key, ':', 0);
    assert(find(line, ':', 0) == n) by {
        assert(line[n] == ':');
        let f = find(line, ':', 0);
        if f < n {
            assert(line[f] == key[f]);
        }
    }
    assert(line.take(n) =~= key);
    assert(line.skip(n + 1) =~= value);
}

/// Whether a line neither is blank nor names a section.
pub open spec fn is_entry(raw: Seq<char>) -> bool {
    !is_blank(trimmed(raw)) && !is_header(trimmed(raw))
}

/// Whether no line names a section.
pub open spec fn has_no_header(all: Seq<Seq<char>>) -> bool {
    forall|i: int| 0 <= i < all.len() ==> !is_header(trimmed(#[trigger] all[i])) || is_blank(trimmed(all[i]))
}

/// The points that some lines of `[TimingPoints]` hold.
pub open spec fn points_in(all: Seq<Seq<char>>) -> Seq<TimingPoint> {
    all.filter(|raw: Seq<char>| is_entry(raw) && point_of(trimmed(raw)) is Some).map_values(
        |raw: Seq<char>| point_of(trimmed(raw)).unwrap(),
    )
}

/// Whether some lines of `[General]` name an audio file: the last of them that names one does.
pub open spec fn names(all: Seq<Seq<char>>, audio: Option<Seq<char>>) -> bool {
    match audio {
        None => forall|i: int| 0 <= i < all.len() ==> !is_entry(#[trigger] all[i]) || audio_of(trimmed(all[i])) is None,
        Some(name) => exists|k: int|
            {
                &&& 0 <= k < all.len()
                &&& is_entry(#[trigger] all[k])
                &&& audio_of(trimmed(all[k])) == Some(name)
                &&& forall|i: int|
                    k < i < all.len() ==> !is_entry(#[trigger] all[i]) || audio_of(trimmed(all[i])) is None
            },
    }
}

/// Sections have different names.
proof fn lemma_names_differ()
    ensures
        "General"@ != "TimingPoints"@,
        "General"@.len() == 7,
        "TimingPoints"@.len() == 12,
{
    reveal_strlit("General");
    reveal_strlit("TimingPoints");
    assert("General"@.len() != "TimingPoints"@.len());
}

/// What lines of `[TimingPoints]` add.
proof fn lemma_points_added(before: Seq<Seq<char>>, points: Seq<Seq<char>>)
    requires
        scan_lines(before).section == "TimingPoints"@,
        has_no_header(points),
    ensures
        scan_lines(before + points) == (Scan {
            points: scan_lines(before).points + points_in(points),
            ..scan_lines(before)
        }),
    decreases points.len(),
{
    lemma_names_differ();
    reveal(Seq::filter);
    let f = |raw: Seq<char>| is_entry(raw) && point_of(trimmed(raw)) is Some;
    let g = |raw: Seq<char>| point_of(trimmed(raw)).unwrap();
    let start = scan_lines(before);
    if points.len() == 0 {
        assert(before + points =~= before);
        assert(points_in(points) =~= Seq::empty());
        assert(start.points + points_in(points) =~= start.points);
    } else {
        let rest = points.drop_last();
        let raw = points.last();
        assert(has_no_header(rest)) by {
            assert forall|i: int| 0 <= i < rest.len() implies !is_header(trimmed(#[trigger] rest[i])) || is_blank(
                trimmed(rest[i]),
            ) by {
                assert(points[i] == rest[i]);
            }
        }
        lemma_points_added(before, rest);
        assert((before + points).drop_last() =~= before + rest);
        assert(points[points.len() - 1] == raw);
        if f(raw) {
            let s = points_in(rest);
            assert(rest.filter(f).push(raw).map_values(g) =~= s.push(g(raw)));
            assert(start.points + s.push(g(raw)) =~= (start.points + s).push(g(raw)));
        }
    }
}

/// What lines of `[General]` add.
proof fn lemma_general_added(before: Seq<Seq<char>>, general: Seq<Seq<char>>)
    requires
        scan_lines(before).section == "General"@,
        scan_lines(before).audio is None,
        has_no_header(general),
    ensures
        scan_lines(before + general).section == "General"@,
        scan_lines(before + general).points == scan_lines(before).points,
        names(general, scan_lines(before + general).audio),
    decreases general.len(),
{
    lemma_names_differ();
    if general.len() == 0 {
        assert(before + general =~= before);
    } else {
        let rest = general.drop_last();
        let raw = general.last();
        let last = general.len() - 1;
        assert(has_no_header(rest)) by {
            assert forall|i: int| 0 <= i < rest.len() implies !is_header(trimmed(#[trigger] rest[i])) || is_blank(
                trimmed(rest[i]),
            ) by {
                assert(general[i] == rest[i]);
            }
        }
        lemma_general_added(before, rest);
        assert((before + general).drop_last() =~= before + rest);
        assert(general[last] == raw);
        assert(forall|i: int| 0 <= i < rest.len() ==> rest[i] == general[i]);
        let was = scan_lines(before + rest).audio;
        let now = scan_lines(before + general).audio;
        if is_entry(raw) && audio_of(trimmed(raw)) is Some {
            assert(now == audio_of(trimmed(raw)));
            assert(is_entry(general[last]));
        } else {
            assert(now == was);
            if let Some(name) = was {
                let k = choose|k: int|
                    {
                        &&& 0 <= k < rest.len()
                        &&& is_entry(#[trigger] rest[k])
                        &&& audio_of(trimmed(rest[k])) == Some(name)
                        &&& forall|i: int|
                            k < i < rest.len() ==> !is_entry(#[trigger] rest[i]) || audio_of(trimmed(rest[i])) is None
                    };
                assert(general[k] == rest[k]);
                assert forall|i: int| k < i < general.len() implies !is_entry(#[trigger] general[i]) || audio_of(
                    trimmed(general[i]),
                ) is None by {
                    if i < last {
                        assert(rest[i] == general[i]);
                    }
                }
                assert(is_entry(general[k]));
            } else {
                assert forall|i: int| 0 <= i < general.len() implies !is_entry(#[trigger] general[i]) || audio_of(
                    trimmed(general[i]),
                ) is None by {
                    if i < last {
                        assert(rest[i] == general[i]);
                    }
                }
            }
        }
    }
}

/// A line that names a section.
proof fn lemma_header(before: Seq<Seq<char>>, header: Seq<char>, name: Seq<char>)
    requires
        header == seq!['['] + name + seq![']'],
        trimmed(header) == header,
    ensures
        scan_lines(before.push(header)) == (Scan { section: name, ..scan_lines(before) }),
{
    assert(before.push(header).drop_last() =~= before);
    assert(header[0] == '[' && header.last() == ']');
    assert(header.subrange(1, header.len() - 1) =~= name);
    reveal_strlit("//");
    assert(header.take(2)[0] == '[');
    assert("//"@[0] == '/');
}

/// Brackets are no white space.
proof fn lemma_bracketed(name: Seq<char>)
    ensures
        trimmed(seq!['['] + name + seq![']']) == seq!['['] + name + seq![']'],
{
    let s = seq!['['] + name + seq![']'];
    assert(s[0] == '[' && s.last() == ']');
}

/// A beatmap of a section `[General]` and a section `[TimingPoints]` tells the audio file
/// that the last line of the first section names which names one, and all points that lines
/// of the second section hold, in their order.
pub proof fn lemma_sections(general: Seq<Seq<char>>, points: Seq<Seq<char>>)
    requires
        has_no_header(general),
        has_no_header(points),
    ensures
        ({
            let all = seq!["[General]"@] + general + seq!["[TimingPoints]"@] + points;
            &&& names(general, scan_lines(all).audio)
            &&& scan_lines(all).points == points_in(points)
        }),
{
    lemma_names_differ();
    reveal_strlit("[General]");
    reveal_strlit("[TimingPoints]");
    reveal_strlit("General");
    reveal_strlit("TimingPoints");
    assert("[General]"@ =~= seq!['['] + "General"@ + seq![']']);
    assert("[TimingPoints]"@ =~= seq!['['] + "TimingPoints"@ + seq![']']);
    lemma_bracketed("General"@);
    lemma_bracketed("TimingPoints"@);
    let none = Seq::<Seq<char>>::empty();
    lemma_header(none, "[General]"@, "General"@);
    let a = none.push("[General]"@);
    lemma_general_added(a, general);
    let b = a + general;
    lemma_header(b, "[TimingPoints]"@, "TimingPoints"@);
    let c = b.push("[TimingPoints]"@);
    lemma_points_added(c, points);
    let all = seq!["[General]"@] + general + seq!["[TimingPoints]"@] + points;
    assert(all =~= c + points);
    assert(Seq::<TimingPoint>::empty() + points_in(points) =~= points_in(points));
}

/// A line in another section tells nothing.
pub proof fn lemma_other_section(scan: Scan, raw: Seq<char>)
    requires
        scan.section != "General"@,
        scan.section != "TimingPoints"@,
        !is_header(trimmed(raw)),
    ensures
        scan_line(scan, raw) == scan,
{
}

/// The timing is that of the first point, whatever points come later: its time is the offset,
/// its beats per bar the meter, and a minute divided by its beat the tempo. There is none
/// where no audio file is named, where there is no point, or where the beat of some point
/// differs from that of the first by more than a hundredth of a millisecond.
pub proof fn lemma_timing(scan: Scan)
    requires
        forall|i: int| 0 <= i < scan.points.len() ==> (#[trigger] scan.points[i]).beat_length.is_finite(),
    ensures
        ({
            let varies = exists|i: int|
                0 <= i < scan.points.len() && ratio(1, 100).lt(
                    rounded(gap_between((#[trigger] scan.points[i]).beat_length, scan.points[0].beat_length) as int),
                );
            match timing_of(scan) {
                Ok(t) => {
                    &&& scan.audio == Some(t.audio_filename)
                    &&& scan.points.len() > 0
                    &&& !varies
                    &&& t.offset_ms == scan.points[0].time
                    &&& t.meter == scan.points[0].meter
                    &&& t.bpm == ratio(60000, 1) / scan.points[0].beat_length
                },
                Err(Skip::NoAudioFilename) => scan.audio is None,
                Err(Skip::NoUninheritedTimingPoint) => scan.audio is Some && scan.points.len() == 0,
                Err(Skip::VariableBpm) => scan.audio is Some && scan.points.len() > 0 && varies,
                Err(_) => false,
            }
        }),
{
    broadcast use lemma_build;

    let points = scan.points;
    assert forall|i: int| 0 <= i < points.len() implies departs(points, i) == ratio(1, 100).lt(
        rounded(gap_between((#[trigger] points[i]).beat_length, points[0].beat_length) as int),
    ) by {
        assert(points[0].beat_length.is_finite());
        lemma_distance(points[i].beat_length, points[0].beat_length);
    }
    if exists|i: int| 0 <= i < points.len() && departs(points, i) {
        let i = choose|i: int| 0 <= i < points.len() && departs(points, i);
        assert(points[i] == points[i]);
    }
}

/// The tempo of a beat of a whole number of milliseconds is 60000 divided by it, rounded once.
pub proof fn lemma_tempo_of_beat(beat: nat)
    requires
        0 < beat < TOP,
    ensures
        ratio(60000, 1) / ratio(beat, 1) == ratio(60000, beat),
{
    broadcast use lemma_build;

    reveal(quotient_to);
    let one = one_units();
    lemma_pow2_pos(1074);
    lemma_exact_integer(60000);
    lemma_exact_integer(beat);
    lemma_encode_scale(TOP as nat, 60000 * one, beat, one);
    assert(beat * one > 0) by (nonlinear_arith)
        requires
            beat > 0,
            one > 0,
    ;
    assert(crate::double::decode(0) == 0);
}

} // verus!
