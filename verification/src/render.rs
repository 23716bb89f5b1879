//! Notes laid out as text tables: one row for each line of a wrapped body,
//! with a rule under every note.

use chrono::DateTime;
use vstd::prelude::*;
use vstd::string::*;

use crate::decimal::{decimal_text, i32_to_text};
use crate::note::{note_views, Note, NoteView};
use crate::timestamp::Timestamp;

verus! {

/// The column that holds the body, which is the one that is wrapped.
pub const BODY_COLUMN: usize = 1;

/// The pattern of the times in the long table: date and time to the second.
pub open spec fn clock_pattern() -> Seq<char> {
    "%Y-%m-%d %H:%M:%S"@
}

/// The lines that `textwrap::wrap` breaks a text into at a width.
pub uninterp spec fn wrapped(text: Seq<char>, width: usize) -> Seq<Seq<char>>;

/// The text that `DateTime::<Utc>::format` writes for an instant under a
/// `strftime` pattern; `None` where the pattern or the instant cannot be
/// written.
pub uninterp spec fn formatted_instant(secs: i64, nanos: u32, pattern: Seq<char>) -> Option<
    Seq<char>,
>;

/// What a list of texts holds.
pub open spec fn texts_view(texts: Seq<String>) -> Seq<Seq<char>> {
    texts.map_values(|s: String| s@)
}

/// What a list of entries holds.
pub open spec fn entries_view(entries: Seq<Vec<String>>) -> Seq<Seq<Seq<char>>> {
    entries.map_values(|cells: Vec<String>| texts_view(cells@))
}

/// `textwrap::wrap` with a plain width: the lines of the wrapped text.
#[verifier::external_body]
fn wrap_lines(text: &str, width: usize) -> (lines: Vec<String>)
    ensures
        texts_view(lines@) == wrapped(text@, width),
{
    textwrap::wrap(text, width).into_iter().map(|line| line.into_owned()).collect()
}

/// `DateTime::from_timestamp`, then `format` and `write_to`: the instant
/// written under the pattern.
#[verifier::external_body]
fn format_instant(secs: i64, nanos: u32, pattern: &str) -> (res: Option<String>)
    ensures
        res is Some <==> formatted_instant(secs, nanos, pattern@) is Some,
        res matches Some(text) ==> formatted_instant(secs, nanos, pattern@) == Some(text@),
{
    let mut text = String::new();
    match DateTime::from_timestamp(secs, nanos) {
        Some(instant) => match instant.format(pattern).write_to(&mut text) {
            Ok(()) => Some(text),
            Err(_) => None,
        },
        None => None,
    }
}

/// `unit` written `n` times.
pub open spec fn repeated(unit: Seq<char>, n: nat) -> Seq<char>
    decreases n,
{
    if n == 0 {
        Seq::empty()
    } else {
        repeated(unit, (n - 1) as nat) + unit
    }
}

/// A text filled up with spaces on the right to `width` characters; a text
/// that is longer stays as it is.
pub open spec fn padded(text: Seq<char>, width: nat) -> Seq<char> {
    if text.len() >= width {
        text
    } else {
        text + repeated(" "@, (width - text.len()) as nat)
    }
}

/// The width of column `c`; a column without a width is not padded.
pub open spec fn width_at(widths: Seq<usize>, c: int) -> nat {
    if 0 <= c < widths.len() {
        widths[c] as nat
    } else {
        0
    }
}

/// A table row: a bar, then each cell padded to its column's width between
/// a space and a space with a bar.
pub open spec fn row_text(cells: Seq<Seq<char>>, widths: Seq<usize>) -> Seq<char>
    decreases cells.len(),
{
    if cells.len() == 0 {
        "|"@
    } else {
        row_text(cells.drop_last(), widths) + " "@ + padded(
            cells.last(),
            width_at(widths, cells.len() - 1),
        ) + " |"@
    }
}

/// The rule under a note: dashes as wide as the columns with their margins,
/// with bars between.
pub open spec fn rule_text(widths: Seq<usize>) -> Seq<char>
    decreases widths.len(),
{
    if widths.len() == 0 {
        "|"@
    } else {
        rule_text(widths.drop_last()) + "-"@ + repeated("-"@, widths.last() as nat) + "-|"@
    }
}

/// The cells of the row that shows line `line` of an entry's body: the
/// first row carries the other cells of the entry, the rows below leave
/// them empty.
pub open spec fn line_cells(cells: Seq<Seq<char>>, line: Seq<char>, first: bool) -> Seq<Seq<char>> {
    Seq::new(
        cells.len(),
        |c: int|
            if c == BODY_COLUMN {
                line
            } else if first {
                cells[c]
            } else {
                Seq::empty()
            },
    )
}

/// The body of an entry, empty where it has no body column.
pub open spec fn body_of(cells: Seq<Seq<char>>) -> Seq<char> {
    if cells.len() > BODY_COLUMN {
        cells[BODY_COLUMN as int]
    } else {
        Seq::empty()
    }
}

/// The rows of one entry for the given lines of its body.
pub open spec fn line_rows(cells: Seq<Seq<char>>, widths: Seq<usize>, lines: Seq<Seq<char>>) -> Seq<
    Seq<char>,
> {
    Seq::new(lines.len(), |i: int| row_text(line_cells(cells, lines[i], i == 0), widths))
}

/// The rows of one entry, with the rule under them: its body is wrapped at
/// the width of the body column.
pub open spec fn block_text(cells: Seq<Seq<char>>, widths: Seq<usize>) -> Seq<Seq<char>> {
    line_rows(
        cells,
        widths,
        wrapped(body_of(cells), width_at(widths, BODY_COLUMN as int) as usize),
    ).push(rule_text(widths))
}

/// The blocks of the entries, one after the other.
pub open spec fn blocks_text(entries: Seq<Seq<Seq<char>>>, widths: Seq<usize>) -> Seq<Seq<char>>
    decreases entries.len(),
{
    if entries.len() == 0 {
        Seq::empty()
    } else {
        blocks_text(entries.drop_last(), widths) + block_text(entries.last(), widths)
    }
}

/// A table: the header row, a rule, and the block of each entry.
pub open spec fn table_text(
    header: Seq<Seq<char>>,
    widths: Seq<usize>,
    entries: Seq<Seq<Seq<char>>>,
) -> Seq<Seq<char>> {
    seq![row_text(header, widths), rule_text(widths)] + blocks_text(entries, widths)
}

/// The widths of the short table: identifier, body, priority.
pub open spec fn short_widths() -> Seq<usize> {
    seq![4usize, 60usize, 10usize]
}

/// The widths of the long table: identifier, body, priority and both times.
pub open spec fn long_widths() -> Seq<usize> {
    seq![4usize, 60usize, 10usize, 19usize, 19usize]
}

/// The header of the short table.
pub open spec fn short_header() -> Seq<Seq<char>> {
    seq!["ID"@, "Note"@, "Priority"@]
}

/// The header of the long table.
pub open spec fn long_header() -> Seq<Seq<char>> {
    seq!["ID"@, "Note"@, "Priority"@, "Created At"@, "Modified At"@]
}

/// The time of the long table: date and time to the second, and nothing
/// where the pattern cannot write the instant.
pub open spec fn clock_text(t: Timestamp) -> Seq<char> {
    match formatted_instant(t.seconds(), t.subsec_nanos(), clock_pattern()) {
        Some(text) => text,
        None => Seq::empty(),
    }
}

/// The cells of a note in the short table.
pub open spec fn short_cells(note: NoteView) -> Seq<Seq<char>> {
    seq![decimal_text(note.id as i32), note.note, note.priority.label_text()]
}

/// The cells of a note in the long table.
pub open spec fn long_cells(note: NoteView) -> Seq<Seq<char>> {
    seq![
        decimal_text(note.id as i32),
        note.note,
        note.priority.label_text(),
        clock_text(note.created_at),
        match note.modified_at {
            Some(m) => clock_text(m),
            None => Seq::empty(),
        },
    ]
}

/// The short table of the notes: identifier, body and priority.
pub open spec fn short_table(notes: Seq<NoteView>) -> Seq<Seq<char>> {
    table_text(short_header(), short_widths(), notes.map_values(|n: NoteView| short_cells(n)))
}

/// The long table of the notes: as the short one, with both times.
pub open spec fn long_table(notes: Seq<NoteView>) -> Seq<Seq<char>> {
    table_text(long_header(), long_widths(), notes.map_values(|n: NoteView| long_cells(n)))
}

/// Appends `unit` to `out`, `n` times.
fn append_repeated(out: &mut String, unit: &str, n: usize)
    ensures
        final(out)@ == old(out)@ + repeated(unit@, n as nat),
{
    let ghost start = out@;
    let mut k: usize = 0;
    assert(start + repeated(unit@, 0) =~= start);
    while k < n
        invariant
            k <= n,
            out@ == start + repeated(unit@, k as nat),
        decreases n - k,
    {
        out.append(unit);
        k += 1;
        assert(out@ =~= start + repeated(unit@, k as nat));
    }
}

/// Fills a text up with spaces on the right to `width` characters.
pub fn pad(text: &str, width: usize) -> (res: String)
    ensures
        res@ == padded(text@, width as nat),
{
    let mut out = text.to_owned();
    let len = text.unicode_len();
    if len < width {
        append_repeated(&mut out, " ", width - len);
    }
    out
}

/// Lays out one row.
pub fn render_row(cells: &Vec<String>, widths: &Vec<usize>) -> (row: String)
    ensures
        row@ == row_text(texts_view(cells@), widths@),
{
    let ghost views = texts_view(cells@);
    let mut row = "|".to_owned();
    let mut c: usize = 0;
    assert(views.take(0) =~= Seq::<Seq<char>>::empty());
    while c < cells.len()
        invariant
            c <= cells@.len(),
            views == texts_view(cells@),
            row@ == row_text(views.take(c as int), widths@),
        decreases cells@.len() - c,
    {
        let width: usize = if c < widths.len() {
            widths[c]
        } else {
            0
        };
        let cell = pad(cells[c].as_str(), width);
        let ghost before = row@;
        row.append(" ");
        row.append(cell.as_str());
        row.append(" |");
        proof {
            let next = views.take(c + 1);
            assert(next.drop_last() =~= views.take(c as int));
            assert(next.last() == cells@[c as int]@);
            assert(row@ =~= before + " "@ + cell@ + " |"@);
        }
        c += 1;
    }
    assert(views.take(c as int) =~= views);
    row
}

/// Lays out the rule.
pub fn render_rule(widths: &Vec<usize>) -> (rule: String)
    ensures
        rule@ == rule_text(widths@),
{
    let mut rule = "|".to_owned();
    let mut c: usize = 0;
    assert(widths@.take(0) =~= Seq::<usize>::empty());
    while c < widths.len()
        invariant
            c <= widths@.len(),
            rule@ == rule_text(widths@.take(c as int)),
        decreases widths@.len() - c,
    {
        let ghost before = rule@;
        rule.append("-");
        append_repeated(&mut rule, "-", widths[c]);
        rule.append("-|");
        proof {
            let next = widths@.take(c + 1);
            assert(next.drop_last() =~= widths@.take(c as int));
            assert(next.last() == widths@[c as int]);
            assert(rule@ =~= before + "-"@ + repeated("-"@, widths@[c as int] as nat) + "-|"@);
        }
        c += 1;
    }
    assert(widths@.take(c as int) =~= widths@);
    rule
}

/// Lays out the rows of one entry and the rule under them, and appends
/// them to `out`.
pub fn render_block(cells: &Vec<String>, widths: &Vec<usize>, out: &mut Vec<String>)
    ensures
        texts_view(final(out)@) == texts_view(old(out)@) + block_text(
            texts_view(cells@),
            widths@,
        ),
{
    let ghost start = texts_view(out@);
    let ghost views = texts_view(cells@);
    let width: usize = if BODY_COLUMN < widths.len() {
        widths[BODY_COLUMN]
    } else {
        0
    };
    let lines: Vec<String> = if BODY_COLUMN < cells.len() {
        assert(views[BODY_COLUMN as int] == cells@[BODY_COLUMN as int]@);
        wrap_lines(cells[BODY_COLUMN].as_str(), width)
    } else {
        wrap_lines("", width)
    };
    proof {
        if BODY_COLUMN >= cells@.len() {
            reveal_strlit("");
            assert(""@ =~= Seq::<char>::empty());
        }
    }
    let ghost line_views = texts_view(lines@);
    assert(line_views == wrapped(body_of(views), width_at(widths@, BODY_COLUMN as int) as usize));
    let ghost rows = line_rows(views, widths@, line_views);
    let mut i: usize = 0;
    assert(start + rows.take(0) =~= start);
    while i < lines.len()
        invariant
            i <= lines@.len(),
            views == texts_view(cells@),
            line_views == texts_view(lines@),
            rows == line_rows(views, widths@, line_views),
            texts_view(out@) == start + rows.take(i as int),
        decreases lines@.len() - i,
    {
        let mut shown: Vec<String> = Vec::new();
        let mut c: usize = 0;
        let ghost wanted = line_cells(views, line_views[i as int], i == 0);
        assert(texts_view(shown@) =~= wanted.take(0));
        while c < cells.len()
            invariant
                c <= cells@.len(),
                i < lines@.len(),
                views == texts_view(cells@),
                line_views == texts_view(lines@),
                wanted == line_cells(views, line_views[i as int], i == 0),
                texts_view(shown@) == wanted.take(c as int),
            decreases cells@.len() - c,
        {
            let cell: String = if c == BODY_COLUMN {
                lines[i].clone()
            } else if i == 0 {
                cells[c].clone()
            } else {
                String::new()
            };
            let ghost before = texts_view(shown@);
            shown.push(cell);
            proof {
                assert(views[c as int] == cells@[c as int]@);
                assert(line_views[i as int] == lines@[i as int]@);
                assert(texts_view(shown@) =~= before.push(wanted[c as int]));
                assert(wanted.take(c + 1) =~= wanted.take(c as int).push(wanted[c as int]));
            }
            c += 1;
        }
        assert(wanted.take(c as int) =~= wanted);
        let row = render_row(&shown, widths);
        let ghost before = texts_view(out@);
        out.push(row);
        proof {
            assert(texts_view(out@) =~= before.push(rows[i as int]));
            assert(rows.take(i + 1) =~= rows.take(i as int).push(rows[i as int]));
            assert(texts_view(out@) =~= start + rows.take(i + 1));
        }
        i += 1;
    }
    assert(rows.take(i as int) =~= rows);
    let rule = render_rule(widths);
    let ghost before = texts_view(out@);
    out.push(rule);
    assert(texts_view(out@) =~= before.push(rule_text(widths@)));
    assert(texts_view(out@) =~= start + block_text(views, widths@));
}

/// Lays out a table: the header row, a rule, and the block of each entry.
pub fn render_table(header: &Vec<String>, widths: &Vec<usize>, entries: &Vec<Vec<String>>) -> (lines:
    Vec<String>)
    ensures
        texts_view(lines@) == table_text(texts_view(header@), widths@, entries_view(entries@)),
{
    let ghost views = entries_view(entries@);
    let mut lines: Vec<String> = Vec::new();
    lines.push(render_row(header, widths));
    lines.push(render_rule(widths));
    let ghost top = texts_view(lines@);
    assert(top =~= seq![row_text(texts_view(header@), widths@), rule_text(widths@)]);
    let mut k: usize = 0;
    assert(views.take(0) =~= Seq::<Seq<Seq<char>>>::empty());
    assert(top + blocks_text(views.take(0), widths@) =~= top);
    while k < entries.len()
        invariant
            k <= entries@.len(),
            views == entries_view(entries@),
            texts_view(lines@) == top + blocks_text(views.take(k as int), widths@),
        decreases entries@.len() - k,
    {
        let ghost before = texts_view(lines@);
        render_block(&entries[k], widths, &mut lines);
        proof {
            let next = views.take(k + 1);
            assert(next.drop_last() =~= views.take(k as int));
            assert(next.last() == texts_view(entries@[k as int]@));
            assert(texts_view(lines@) =~= top + blocks_text(next, widths@));
        }
        k += 1;
    }
    assert(views.take(k as int) =~= views);
    lines
}

/// The time of the long table for an instant.
pub fn clock(t: &Timestamp) -> (text: String)
    ensures
        text@ == clock_text(*t),
{
    match format_instant(t.secs(), t.nanos(), "%Y-%m-%d %H:%M:%S") {
        Some(text) => text,
        None => String::new(),
    }
}

/// Lays out the short table of the notes: identifier, body wrapped at 60
/// columns, and priority.
pub fn render_short(notes: &Vec<Note>) -> (lines: Vec<String>)
    ensures
        texts_view(lines@) == short_table(note_views(notes@)),
{
    let mut header: Vec<String> = Vec::new();
    header.push("ID".to_owned());
    header.push("Note".to_owned());
    header.push("Priority".to_owned());
    assert(texts_view(header@) =~= short_header());
    let mut widths: Vec<usize> = Vec::new();
    widths.push(4);
    widths.push(60);
    widths.push(10);
    assert(widths@ =~= short_widths());
    let ghost views = note_views(notes@);
    let mut entries: Vec<Vec<String>> = Vec::new();
    let mut k: usize = 0;
    assert(entries_view(entries@) =~= views.take(0).map_values(|n: NoteView| short_cells(n)));
    while k < notes.len()
        invariant
            k <= notes@.len(),
            views == note_views(notes@),
            entries_view(entries@) == views.take(k as int).map_values(
                |n: NoteView| short_cells(n),
            ),
        decreases notes@.len() - k,
    {
        let note = &notes[k];
        let mut cells: Vec<String> = Vec::new();
        cells.push(i32_to_text(note.id));
        cells.push(note.note.clone());
        cells.push(note.priority.label().to_owned());
        assert(texts_view(cells@) =~= short_cells(note@));
        let ghost before = entries_view(entries@);
        entries.push(cells);
        proof {
            assert(entries_view(entries@) =~= before.push(short_cells(views[k as int])));
            assert(views.take(k + 1) =~= views.take(k as int).push(views[k as int]));
            assert(entries_view(entries@) =~= views.take(k + 1).map_values(
                |n: NoteView| short_cells(n),
            ));
        }
        k += 1;
    }
    assert(views.take(k as int) =~= views);
    render_table(&header, &widths, &entries)
}

/// Lays out the long table of the notes: as the short one, with the times
/// of creation and modification to the second.
pub fn render_long(notes: &Vec<Note>) -> (lines: Vec<String>)
    ensures
        texts_view(lines@) == long_table(note_views(notes@)),
{
    let mut header: Vec<String> = Vec::new();
    header.push("ID".to_owned());
    header.push("Note".to_owned());
    header.push("Priority".to_owned());
    header.push("Created At".to_owned());
    header.push("Modified At".to_owned());
    assert(texts_view(header@) =~= long_header());
    let mut widths: Vec<usize> = Vec::new();
    widths.push(4);
    widths.push(60);
    widths.push(10);
    widths.push(19);
    widths.push(19);
    assert(widths@ =~= long_widths());
    let ghost views = note_views(notes@);
    let mut entries: Vec<Vec<String>> = Vec::new();
    let mut k: usize = 0;
    assert(entries_view(entries@) =~= views.take(0).map_values(|n: NoteView| long_cells(n)));
    while k < notes.len()
        invariant
            k <= notes@.len(),
            views == note_views(notes@),
            entries_view(entries@) == views.take(k as int).map_values(
                |n: NoteView| long_cells(n),
            ),
        decreases notes@.len() - k,
    {
        let note = &notes[k];
        let mut cells: Vec<String> = Vec::new();
        cells.push(i32_to_text(note.id));
        cells.push(note.note.clone());
        cells.push(note.priority.label().to_owned());
        cells.push(clock(&note.created_at));
        cells.push(
            match &note.modified_at {
                Some(m) => clock(m),
                None => String::new(),
            },
        );
        assert(texts_view(cells@) =~= long_cells(note@));
        let ghost before = entries_view(entries@);
        entries.push(cells);
        proof {
            assert(entries_view(entries@) =~= before.push(long_cells(views[k as int])));
            assert(views.take(k + 1) =~= views.take(k as int).push(views[k as int]));
            assert(entries_view(entries@) =~= views.take(k + 1).map_values(
                |n: NoteView| long_cells(n),
            ));
        }
        k += 1;
    }
    assert(views.take(k as int) =~= views);
    render_table(&header, &widths, &entries)
}

} // verus!
