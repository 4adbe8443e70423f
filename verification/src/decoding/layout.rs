//! The layout of a chart block: its header lines, then its measures.
//!
//! A block is handled as its list of trimmed lines. The header is the first
//! five lines that are not empty: the type of steps, the description, the
//! difficulty, the meter and the radar values. The description is passed
//! over whatever it holds. What follows is measure data:
//! the note-lines of one measure after the other, a line `,` between two
//! measures and a line `;` after the last.

use vstd::prelude::*;
use crate::decoding::decode::{is_note_chars, is_note_text};
use crate::number::{parse_decimal, read_decimal};
use crate::text::{fields, lines_view, split_fields, trim, trimmed, trimmed_range};

verus! {

/// Where the comment of `line` starts: the first index at or after `i` at
/// which two slashes stand, or the length.
pub open spec fn comment_start(line: Seq<char>, i: int) -> int
    decreases line.len() - i,
{
    if i < 0 || i + 1 >= line.len() {
        line.len() as int
    } else if line[i] == '/' && line[i + 1] == '/' {
        i
    } else {
        comment_start(line, i + 1)
    }
}

/// What a line says: the line without its comment, trimmed.
pub open spec fn code_of(line: Seq<char>) -> Seq<char> {
    trim(line.subrange(0, comment_start(line, 0)))
}

/// The line `;`, which ends a chart.
pub open spec fn is_end_mark(code: Seq<char>) -> bool {
    code.len() == 1 && code[0] == ';'
}

/// The lines `,` and `;`, which end a measure.
pub open spec fn is_separator(code: Seq<char>) -> bool {
    code.len() == 1 && (code[0] == ',' || code[0] == ';')
}

/// A note-line: not empty, and made of note symbols only.
pub open spec fn is_note_code(code: Seq<char>) -> bool {
    code.len() > 0 && is_note_text(code)
}

/// The index of the line that ends the measure starting at line `i`: the
/// first separator at or after `i`, or the number of lines.
pub open spec fn measure_end(lines: Seq<Seq<char>>, i: int) -> int
    decreases lines.len() - i,
{
    if i < 0 || i >= lines.len() || is_separator(code_of(lines[i])) {
        i
    } else {
        measure_end(lines, i + 1)
    }
}

/// The note-lines among the lines from `lo` up to `hi`, in order, each without
/// its comment. Lines that are no note-lines are passed over.
pub open spec fn note_lines_between(lines: Seq<Seq<char>>, lo: int, hi: int) -> Seq<Seq<char>>
    decreases hi - lo,
{
    if hi <= lo {
        seq![]
    } else {
        let before = note_lines_between(lines, lo, hi - 1);
        let code = code_of(lines[hi - 1]);
        if is_note_code(code) {
            before.push(code)
        } else {
            before
        }
    }
}

/// The measures of the lines from `i` on, each as its note-lines. A measure
/// may hold no note-line. Lines after a `;` belong to no measure; lines after
/// the last `,` make a last measure, also where none of them is a note-line.
pub open spec fn measure_blocks(lines: Seq<Seq<char>>, i: int) -> Seq<Seq<Seq<char>>>
    decreases lines.len() - i,
{
    let e = measure_end(lines, i);
    if i < 0 || i >= lines.len() {
        seq![]
    } else if e >= lines.len() || is_end_mark(code_of(lines[e])) {
        seq![note_lines_between(lines, i, e)]
    } else {
        proof {
            lemma_measure_end_bounds(lines, i);
        }
        seq![note_lines_between(lines, i, e)] + measure_blocks(lines, e + 1)
    }
}

/// The first index at or after `i` of a line that is not empty, or the number
/// of lines.
pub open spec fn skip_empty_from(lines: Seq<Seq<char>>, i: int) -> int
    decreases lines.len() - i,
{
    if i < 0 || i >= lines.len() || lines[i].len() > 0 {
        i
    } else {
        skip_empty_from(lines, i + 1)
    }
}

/// The index after `i`, or `i` itself where no line is there.
pub open spec fn step_over(lines: Seq<Seq<char>>, i: int) -> int {
    if i < lines.len() {
        i + 1
    } else {
        i
    }
}

/// The index of the line that names the type of steps.
pub open spec fn stepstype_index(lines: Seq<Seq<char>>) -> int {
    skip_empty_from(lines, 0)
}

/// The index of the line that holds the description. The line is passed over
/// whatever it holds.
pub open spec fn description_index(lines: Seq<Seq<char>>) -> int {
    skip_empty_from(lines, step_over(lines, stepstype_index(lines)))
}

/// The index of the line that names the difficulty.
pub open spec fn difficulty_index(lines: Seq<Seq<char>>) -> int {
    skip_empty_from(lines, step_over(lines, description_index(lines)))
}

/// The index of the line that holds the meter.
pub open spec fn meter_index(lines: Seq<Seq<char>>) -> int {
    skip_empty_from(lines, step_over(lines, difficulty_index(lines)))
}

/// The index of the line that holds the radar values.
pub open spec fn radar_index(lines: Seq<Seq<char>>) -> int {
    skip_empty_from(lines, step_over(lines, meter_index(lines)))
}

/// The index of the first line of measure data.
pub open spec fn body_index(lines: Seq<Seq<char>>) -> int {
    step_over(lines, radar_index(lines))
}

/// The decimals among the first `n` of `parts`, in order, each part trimmed
/// before it is read. Parts that are no decimals are passed over.
pub open spec fn decimals_among(parts: Seq<Seq<char>>, n: int) -> Seq<i64>
    decreases n,
{
    if n <= 0 {
        seq![]
    } else {
        let before = decimals_among(parts, n - 1);
        match parse_decimal(trim(parts[n - 1])) {
            Some(v) => before.push(v as i64),
            None => before,
        }
    }
}

/// The radar values that `line` holds: the decimals among its fields, commas
/// between them.
pub open spec fn radar_values_of(line: Seq<char>) -> Seq<i64> {
    decimals_among(fields(line, ','), fields(line, ',').len() as int)
}

/// A measure ends at or after the line at which it starts, at a separator or
/// with the last line.
pub proof fn lemma_measure_end_bounds(lines: Seq<Seq<char>>, i: int)
    requires
        0 <= i <= lines.len(),
    ensures
        i <= measure_end(lines, i) <= lines.len(),
        measure_end(lines, i) < lines.len() ==> is_separator(
            code_of(lines[measure_end(lines, i)]),
        ),
    decreases lines.len() - i,
{
    if i < lines.len() && !is_separator(code_of(lines[i])) {
        lemma_measure_end_bounds(lines, i + 1);
    }
}

/// Passing over empty lines never goes back, nor beyond the last line.
pub proof fn lemma_skip_empty_bounds(lines: Seq<Seq<char>>, i: int)
    requires
        0 <= i <= lines.len(),
    ensures
        i <= skip_empty_from(lines, i) <= lines.len(),
    decreases lines.len() - i,
{
    if i < lines.len() && lines[i].len() == 0 {
        lemma_skip_empty_bounds(lines, i + 1);
    }
}

/// The header lines come in order, and none lies beyond the last line.
pub proof fn lemma_header_indices(lines: Seq<Seq<char>>)
    ensures
        0 <= stepstype_index(lines) <= description_index(lines) <= difficulty_index(lines)
            <= meter_index(lines) <= radar_index(lines) <= body_index(lines) <= lines.len(),
{
    lemma_skip_empty_bounds(lines, 0);
    lemma_skip_empty_bounds(lines, step_over(lines, stepstype_index(lines)));
    lemma_skip_empty_bounds(lines, step_over(lines, description_index(lines)));
    lemma_skip_empty_bounds(lines, step_over(lines, difficulty_index(lines)));
    lemma_skip_empty_bounds(lines, step_over(lines, meter_index(lines)));
}

/// What `line` says: the line without its comment, trimmed.
pub fn code_of_line(line: &[char]) -> (code: Vec<char>)
    ensures
        code@ == code_of(line@),
{
    let mut i: usize = 0;
    while i < line.len() && line.len() - i >= 2 && !(line[i] == '/' && line[i + 1] == '/')
        invariant
            i <= line@.len(),
            comment_start(line@, i as int) == comment_start(line@, 0),
        decreases line.len() - i,
    {
        i += 1;
    }
    let cut: usize = if i < line.len() && line.len() - i >= 2 {
        i
    } else {
        line.len()
    };
    trimmed_range(line, 0, cut)
}

/// Whether `code` is the line `,` or the line `;`.
pub fn is_separator_code(code: &[char]) -> (b: bool)
    ensures
        b == is_separator(code@),
{
    code.len() == 1 && (code[0] == ',' || code[0] == ';')
}

/// Whether `code` is the line `;`.
pub fn is_end_code(code: &[char]) -> (b: bool)
    ensures
        b == is_end_mark(code@),
{
    code.len() == 1 && code[0] == ';'
}

/// The note-lines of the measure that starts at line `start`, and the index of
/// the line that ends it.
pub fn collect_measure(lines: &Vec<Vec<char>>, start: usize) -> (res: (Vec<Vec<char>>, usize))
    requires
        start <= lines@.len(),
    ensures
        res.1 == measure_end(lines_view(lines@), start as int),
        start <= res.1 <= lines@.len(),
        lines_view(res.0@) == note_lines_between(lines_view(lines@), start as int, res.1 as int),
{
    let ghost all = lines_view(lines@);
    let mut note_lines: Vec<Vec<char>> = Vec::new();
    let mut idx: usize = start;
    while idx < lines.len()
        invariant
            all == lines_view(lines@),
            start <= idx <= lines@.len(),
            measure_end(all, idx as int) == measure_end(all, start as int),
            lines_view(note_lines@) == note_lines_between(all, start as int, idx as int),
        decreases lines.len() - idx,
    {
        let code = code_of_line(lines[idx].as_slice());
        assert(all[idx as int] == lines@[idx as int]@);
        if is_separator_code(code.as_slice()) {
            return (note_lines, idx);
        }
        let ghost before = lines_view(note_lines@);
        if code.len() > 0 && is_note_chars(code.as_slice()) {
            note_lines.push(code);
            assert(lines_view(note_lines@) =~= before.push(code@));
        }
        idx += 1;
    }
    (note_lines, idx)
}

/// The radar values that `line` holds.
pub fn read_radar_values(line: &[char]) -> (values: Vec<i64>)
    ensures
        values@ == radar_values_of(line@),
{
    let parts = split_fields(line, ',');
    let ghost all = lines_view(parts@);
    let mut values: Vec<i64> = Vec::new();
    let mut i: usize = 0;
    while i < parts.len()
        invariant
            all == lines_view(parts@),
            i <= parts@.len(),
            values@ == decimals_among(all, i as int),
        decreases parts.len() - i,
    {
        let part = trimmed(parts[i].as_slice());
        assert(all[i as int] == parts@[i as int]@);
        match read_decimal(part.as_slice()) {
            Some(v) => {
                values.push(v);
            },
            None => {},
        }
        i += 1;
    }
    values
}

} // verus!
