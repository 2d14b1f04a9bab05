//! The report of a comparison of detected timing with ground truth.

use crate::text::{characters, portion, trim_end, trimmed_end, views, written};
use vstd::prelude::*;
use vstd::string::*;

verus! {

/// One row of the report. The numeric fields are empty for skipped maps.
#[derive(Debug, Clone)]
pub struct Row {
    pub osz: String,
    pub audio: String,
    pub status: String,
    pub true_bpm: String,
    pub detected_bpm: String,
    pub bpm_error: String,
    /// The rank at which the true tempo appears, empty when absent.
    pub true_bpm_rank: String,
    pub true_offset_ms: String,
    pub detected_offset_ms: String,
    /// Signed, wrapped into half a beat; empty when the tempo is wrong.
    pub offset_error_ms: String,
    pub meter_true: String,
    pub meter_detected: String,
    pub meter_confidence: String,
}

impl Row {
    /// The row of a map that was not analyzed.
    pub fn skipped(osz: &str, reason: &str) -> (r: Row)
        ensures
            r.osz@ == osz@,
            r.status@ == "skipped: "@ + reason@,
            r.audio@.len() == 0,
            r.true_bpm@.len() == 0,
            r.detected_bpm@.len() == 0,
            r.bpm_error@.len() == 0,
            r.true_bpm_rank@.len() == 0,
            r.true_offset_ms@.len() == 0,
            r.detected_offset_ms@.len() == 0,
            r.offset_error_ms@.len() == 0,
            r.meter_true@.len() == 0,
            r.meter_detected@.len() == 0,
            r.meter_confidence@.len() == 0,
    {
        let mut status = "skipped: ".to_string();
        status.append(reason);
        Row {
            osz: osz.to_string(),
            audio: String::new(),
            status,
            true_bpm: String::new(),
            detected_bpm: String::new(),
            bpm_error: String::new(),
            true_bpm_rank: String::new(),
            true_offset_ms: String::new(),
            detected_offset_ms: String::new(),
            offset_error_ms: String::new(),
            meter_true: String::new(),
            meter_detected: String::new(),
            meter_confidence: String::new(),
        }
    }
}

/// The widest that the name of a map stands in a table.
pub const TABLE_MAP_WIDTH: usize = 45;

/// The number of columns of a table.
pub const COLUMNS: usize = 10;

/// The heading of a column.
pub open spec fn heading(column: int) -> Seq<char> {
    if column == 0 {
        "map"@
    } else if column == 1 {
        "status"@
    } else if column == 2 {
        "t_bpm"@
    } else if column == 3 {
        "d_bpm"@
    } else if column == 4 {
        "err"@
    } else if column == 5 {
        "r"@
    } else if column == 6 {
        "t_off"@
    } else if column == 7 {
        "d_off"@
    } else if column == 8 {
        "off_err"@
    } else {
        "meter"@
    }
}

/// Whether a column is aligned to the right.
pub open spec fn is_right(column: int) -> bool {
    2 <= column <= 8
}

/// The name of a map, cut where it is too wide.
pub open spec fn shortened(name: Seq<char>) -> Seq<char> {
    if name.len() <= TABLE_MAP_WIDTH {
        name
    } else {
        name.take(TABLE_MAP_WIDTH - 1).push('\u{2026}')
    }
}

/// The true and the detected meter of a row.
pub open spec fn meter_cell(row: Row) -> Seq<char> {
    if row.meter_true@.len() == 0 {
        Seq::empty()
    } else {
        row.meter_true@.push('\u{2192}') + if row.meter_detected@.len() == 0 {
            seq!['-']
        } else {
            row.meter_detected@
        }
    }
}

/// The cell of a row in a column.
pub open spec fn cell(row: Row, column: int) -> Seq<char> {
    if column == 0 {
        shortened(row.osz@)
    } else if column == 1 {
        row.status@
    } else if column == 2 {
        row.true_bpm@
    } else if column == 3 {
        row.detected_bpm@
    } else if column == 4 {
        row.bpm_error@
    } else if column == 5 {
        row.true_bpm_rank@
    } else if column == 6 {
        row.true_offset_ms@
    } else if column == 7 {
        row.detected_offset_ms@
    } else if column == 8 {
        row.offset_error_ms@
    } else {
        meter_cell(row)
    }
}

/// The width of a column: that of the widest of its heading and its first `n` cells.
pub open spec fn width(rows: Seq<Row>, column: int, n: int) -> nat
    decreases n,
{
    if n <= 0 {
        heading(column).len()
    } else {
        let before = width(rows, column, n - 1);
        let own = cell(rows[n - 1], column).len();
        if before < own {
            own
        } else {
            before
        }
    }
}

/// A number of spaces.
pub open spec fn blank(n: int) -> Seq<char> {
    Seq::new(
        if n > 0 {
            n as nat
        } else {
            0
        },
        |i: int| ' ',
    )
}

/// A cell filled up to a width, and two spaces.
pub open spec fn padded(text: Seq<char>, width: nat, right: bool) -> Seq<char> {
    let fill = blank(width - text.len());
    if right {
        fill + text + blank(2)
    } else {
        text + fill + blank(2)
    }
}

/// The first `n` columns of a line.
pub open spec fn columns(texts: Seq<Seq<char>>, widths: Seq<nat>, n: int) -> Seq<char>
    decreases n,
{
    if n <= 0 {
        Seq::empty()
    } else {
        columns(texts, widths, n - 1) + padded(texts[n - 1], widths[n - 1], is_right(n - 1))
    }
}

/// A line of a table.
pub open spec fn table_line(texts: Seq<Seq<char>>, widths: Seq<nat>) -> Seq<char> {
    trimmed_end(columns(texts, widths, 10))
}

/// The headings of a table.
pub open spec fn headings() -> Seq<Seq<char>> {
    Seq::new(10, |i: int| heading(i))
}

/// The cells of a row.
pub open spec fn cells(row: Row) -> Seq<Seq<char>> {
    Seq::new(10, |i: int| cell(row, i))
}

/// The widths of the columns of a table.
pub open spec fn column_widths(rows: Seq<Row>) -> Seq<nat> {
    Seq::new(10, |i: int| width(rows, i, rows.len() as int))
}

/// The lines of a table: the headings, a rule of the same length, and a line for each row.
pub open spec fn table(rows: Seq<Row>) -> Seq<Seq<char>> {
    let widths = column_widths(rows);
    let head = table_line(headings(), widths);
    seq![head, Seq::new(head.len(), |i: int| '-')] + rows.map_values(|r: Row| table_line(cells(r), widths))
}

/// Every cell fits its column.
pub proof fn lemma_cells_fit(rows: Seq<Row>, i: int, column: int)
    requires
        0 <= i < rows.len(),
        0 <= column < COLUMNS,
    ensures
        cell(rows[i], column).len() <= column_widths(rows)[column],
        heading(column).len() <= column_widths(rows)[column],
{
    lemma_width(rows, column, rows.len() as int, i);
}

proof fn lemma_width(rows: Seq<Row>, column: int, n: int, i: int)
    requires
        n <= rows.len(),
    ensures
        width(rows, column, n) >= heading(column).len(),
        0 <= i < n ==> width(rows, column, n) >= cell(rows[i], column).len(),
    decreases n,
{
    if n > 0 {
        lemma_width(rows, column, n - 1, i);
    }
}

/// Where a column starts: behind all columns before it, with two spaces behind each.
pub open spec fn column_start(widths: Seq<nat>, n: int) -> nat
    decreases n,
{
    if n <= 0 {
        0
    } else {
        column_start(widths, n - 1) + widths[n - 1] + 2
    }
}

/// Columns that fit are as long as their widths and the spaces behind them.
proof fn lemma_columns_length(texts: Seq<Seq<char>>, widths: Seq<nat>, n: int)
    requires
        0 <= n <= texts.len(),
        texts.len() == widths.len(),
        forall|i: int| 0 <= i < texts.len() ==> (#[trigger] texts[i]).len() <= widths[i],
    ensures
        columns(texts, widths, n).len() == column_start(widths, n),
    decreases n,
{
    if n > 0 {
        lemma_columns_length(texts, widths, n - 1);
        assert(texts[n - 1].len() <= widths[n - 1]);
    }
}

/// In every line the text of a column stands at the same place: at the end of the column for
/// numbers, the third to the ninth column, and at its start for the others; the rest of the
/// column is blank.
pub proof fn lemma_columns(texts: Seq<Seq<char>>, widths: Seq<nat>, n: int, c: int)
    requires
        0 <= c < n <= texts.len(),
        texts.len() == widths.len(),
        forall|i: int| 0 <= i < texts.len() ==> (#[trigger] texts[i]).len() <= widths[i],
    ensures
        ({
            let line = columns(texts, widths, n);
            let start = column_start(widths, c) as int;
            let end = start + widths[c];
            let from = if 2 <= c <= 8 {
                end - texts[c].len()
            } else {
                start
            };
            &&& 0 <= start <= from <= from + texts[c].len() <= end
            &&& end + 2 <= line.len()
            &&& line.subrange(from, from + texts[c].len()) == texts[c]
            &&& forall|i: int|
                start <= i < end + 2 && !(from <= i < from + texts[c].len()) ==> (#[trigger] line[i]) == ' '
        }),
    decreases n,
{
    lemma_columns_length(texts, widths, n - 1);
    lemma_columns_length(texts, widths, n);
    let line = columns(texts, widths, n);
    let before = columns(texts, widths, n - 1);
    let start = column_start(widths, c) as int;
    let end = start + widths[c];
    let text = texts[c];
    assert(text.len() <= widths[c]);
    let from = if 2 <= c <= 8 {
        end - text.len()
    } else {
        start
    };
    if c < n - 1 {
        lemma_columns(texts, widths, n - 1, c);
        assert(line.subrange(from, from + text.len()) =~= before.subrange(from, from + text.len()));
        assert forall|i: int| start <= i < end + 2 && !(from <= i < from + text.len()) implies (#[trigger] line[i])
            == ' ' by {
            assert(line[i] == before[i]);
        }
    } else {
        let cell = padded(text, widths[c], is_right(c));
        assert(line == before + cell);
        assert(line.subrange(from, from + text.len()) =~= text);
    }
}

/// The name of a map takes no more than its column may.
pub proof fn lemma_shortened(name: Seq<char>)
    ensures
        shortened(name).len() <= TABLE_MAP_WIDTH,
{
}

fn shorten(name: &str) -> (r: Vec<char>)
    ensures
        r@ == shortened(name@),
{
    let chars = characters(name);
    if chars.len() <= TABLE_MAP_WIDTH {
        return chars;
    }
    let mut out = portion(&chars, 0, TABLE_MAP_WIDTH - 1);
    assert(out@ =~= chars@.take(TABLE_MAP_WIDTH - 1));
    out.push('\u{2026}');
    out
}

/// Adds some characters to others.
fn extend(out: &mut Vec<char>, more: &[char])
    ensures
        final(out)@ == old(out)@ + more@,
{
    let ghost before = out@;
    let mut i: usize = 0;
    assert(out@ =~= before + more@.take(0));
    while i < more.len()
        invariant
            i <= more@.len(),
            out@ == before + more@.take(i as int),
        decreases more@.len() - i,
    {
        assert(before + more@.take(i + 1) =~= (before + more@.take(i as int)).push(more@[i as int]));
        out.push(more[i]);
        i = i + 1;
    }
    assert(more@.take(more@.len() as int) =~= more@);
}

/// Adds spaces.
fn fill(out: &mut Vec<char>, n: usize)
    ensures
        final(out)@ == old(out)@ + blank(n as int),
{
    let ghost before = out@;
    let mut i: usize = 0;
    assert(out@ =~= before + blank(0));
    while i < n
        invariant
            i <= n,
            out@ == before + blank(i as int),
        decreases n - i,
    {
        assert(before + blank(i + 1) =~= (before + blank(i as int)).push(' '));
        out.push(' ');
        i = i + 1;
    }
}

fn write_meter(row: &Row) -> (r: Vec<char>)
    ensures
        r@ == meter_cell(*row),
{
    let mut out = characters(row.meter_true.as_str());
    if out.len() == 0 {
        return out;
    }
    out.push('\u{2192}');
    let detected = characters(row.meter_detected.as_str());
    if detected.len() == 0 {
        out.push('-');
        assert(out@ =~= meter_cell(*row));
    } else {
        extend(&mut out, &detected);
    }
    out
}

fn write_cells(row: &Row) -> (r: Vec<Vec<char>>)
    ensures
        views(r@) == cells(*row),
        r@.len() == 10,
{
    let mut out: Vec<Vec<char>> = Vec::new();
    out.push(shorten(row.osz.as_str()));
    out.push(characters(row.status.as_str()));
    out.push(characters(row.true_bpm.as_str()));
    out.push(characters(row.detected_bpm.as_str()));
    out.push(characters(row.bpm_error.as_str()));
    out.push(characters(row.true_bpm_rank.as_str()));
    out.push(characters(row.true_offset_ms.as_str()));
    out.push(characters(row.detected_offset_ms.as_str()));
    out.push(characters(row.offset_error_ms.as_str()));
    out.push(write_meter(row));
    assert(views(out@) =~= cells(*row));
    out
}

fn write_headings() -> (r: Vec<Vec<char>>)
    ensures
        views(r@) == headings(),
        r@.len() == 10,
{
    let mut out: Vec<Vec<char>> = Vec::new();
    out.push(characters("map"));
    out.push(characters("status"));
    out.push(characters("t_bpm"));
    out.push(characters("d_bpm"));
    out.push(characters("err"));
    out.push(characters("r"));
    out.push(characters("t_off"));
    out.push(characters("d_off"));
    out.push(characters("off_err"));
    out.push(characters("meter"));
    assert(views(out@) =~= headings());
    out
}

/// Machine integers as numbers.
spec fn numbers(widths: Seq<usize>) -> Seq<nat> {
    widths.map_values(|w: usize| w as nat)
}

fn write_line(texts: &Vec<Vec<char>>, widths: &Vec<usize>) -> (r: Vec<char>)
    requires
        texts@.len() == 10,
        widths@.len() == 10,
    ensures
        r@ == table_line(views(texts@), numbers(widths@)),
{
    let ghost t = views(texts@);
    let ghost w = numbers(widths@);
    let mut out: Vec<char> = Vec::new();
    let mut i: usize = 0;
    assert(out@ =~= columns(t, w, 0));
    while i < COLUMNS
        invariant
            i <= 10,
            texts@.len() == 10,
            widths@.len() == 10,
            t == views(texts@),
            w == numbers(widths@),
            out@ == columns(t, w, i as int),
        decreases 10 - i,
    {
        let ghost before = out@;
        let n = texts[i].len();
        let gap: usize = if widths[i] > n {
            widths[i] - n
        } else {
            0
        };
        assert(t[i as int] == texts@[i as int]@);
        if 2 <= i && i <= 8 {
            fill(&mut out, gap);
            extend(&mut out, &texts[i]);
        } else {
            extend(&mut out, &texts[i]);
            fill(&mut out, gap);
        }
        fill(&mut out, 2);
        assert(blank(gap as int) =~= blank(w[i as int] - t[i as int].len()));
        assert(out@ =~= before + padded(t[i as int], w[i as int], is_right(i as int)));
        i = i + 1;
    }
    trim_end(&out)
}

/// Writes the lines of a table.
pub fn table_lines(rows: &Vec<Row>) -> (r: Vec<String>)
    ensures
        r@.map_values(|s: String| s@) == table(rows@),
{
    let head = write_headings();
    let mut widths: Vec<usize> = Vec::new();
    let mut c: usize = 0;
    while c < COLUMNS
        invariant
            c <= 10,
            head@.len() == 10,
            views(head@) == headings(),
            widths@.len() == c,
            forall|i: int| 0 <= i < c ==> widths@[i] == width(rows@, i, 0),
        decreases 10 - c,
    {
        assert(views(head@)[c as int] == heading(c as int));
        assert(head@[c as int]@ == heading(c as int));
        widths.push(head[c].len());
        c = c + 1;
    }
    let mut data: Vec<Vec<Vec<char>>> = Vec::new();
    let mut i: usize = 0;
    while i < rows.len()
        invariant
            i <= rows@.len(),
            widths@.len() == 10,
            data@.len() == i,
            forall|c: int| 0 <= c < 10 ==> #[trigger] widths@[c] == width(rows@, c, i as int),
            forall|j: int| 0 <= j < i ==> views((#[trigger] data@[j])@) == cells(rows@[j]),
        decreases rows@.len() - i,
    {
        let texts = write_cells(&rows[i]);
        let mut c: usize = 0;
        while c < COLUMNS
            invariant
                c <= 10,
                i < rows@.len(),
                widths@.len() == 10,
                texts@.len() == 10,
                views(texts@) == cells(rows@[i as int]),
                forall|k: int|
                    0 <= k < 10 ==> #[trigger] widths@[k] == width(
                        rows@,
                        k,
                        if k < c {
                            i + 1
                        } else {
                            i as int
                        },
                    ),
            decreases 10 - c,
        {
            assert(views(texts@)[c as int] == cell(rows@[i as int], c as int));
            assert(texts@[c as int]@ == cell(rows@[i as int], c as int));
            let n = texts[c].len();
            if widths[c] < n {
                widths.set(c, n);
            }
            c = c + 1;
        }
        data.push(texts);
        i = i + 1;
    }
    let ghost w = numbers(widths@);
    assert(w =~= column_widths(rows@));
    let first = write_line(&head, &widths);
    let mut out: Vec<String> = Vec::new();
    out.push(written(&first));
    let mut rule: Vec<char> = Vec::new();
    let mut k: usize = 0;
    while k < first.len()
        invariant
            k <= first@.len(),
            rule@ == Seq::new(k as nat, |i: int| '-'),
        decreases first@.len() - k,
    {
        assert(Seq::new((k + 1) as nat, |i: int| '-') =~= Seq::new(k as nat, |i: int| '-').push('-'));
        rule.push('-');
        k = k + 1;
    }
    out.push(written(&rule));
    let ghost lines = rows@.map_values(|r: Row| table_line(cells(r), w));
    let ghost top = seq![first@, rule@];
    let mut i: usize = 0;
    assert(out@.map_values(|s: String| s@) =~= top + lines.take(0));
    while i < rows.len()
        invariant
            i <= rows@.len(),
            data@.len() == rows@.len(),
            widths@.len() == 10,
            w == numbers(widths@),
            lines == rows@.map_values(|r: Row| table_line(cells(r), w)),
            forall|j: int| 0 <= j < data@.len() ==> views((#[trigger] data@[j])@) == cells(rows@[j]),
            out@.map_values(|s: String| s@) == top + lines.take(i as int),
        decreases rows@.len() - i,
    {
        let ghost before = out@;
        assert(views(data@[i as int]@) == cells(rows@[i as int]));
        assert(data@[i as int]@.len() == views(data@[i as int]@).len());
        let line = write_line(&data[i], &widths);
        out.push(written(&line));
        proof {
            assert(lines.take(i + 1) =~= lines.take(i as int).push(line@));
            assert(out@.map_values(|s: String| s@) =~= before.map_values(|s: String| s@).push(line@));
            assert(out@.map_values(|s: String| s@) =~= top + lines.take(i + 1));
        }
        i = i + 1;
    }
    assert(lines.take(rows@.len() as int) =~= lines);
    assert(table(rows@) =~= top + lines);
    out
}

} // verus!
