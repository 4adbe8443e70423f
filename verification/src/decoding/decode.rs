//! From the text of a song file to its timed charts.

use vstd::prelude::*;
use crate::decoding::grid::{lemma_row_offset_bounds, lemma_row_offset_monotone, line_offset, row_offset};
use crate::decoding::layout::{
    body_index, code_of, code_of_line, collect_measure, description_index, difficulty_index,
    is_end_code,
    is_end_mark, lemma_header_indices, lemma_measure_end_bounds, measure_blocks, measure_end,
    meter_index, note_lines_between, radar_index, radar_values_of, read_radar_values,
    skip_empty_from, stepstype_index,
};
use crate::decoding::tempo::{
    build_timeline, order_on_rows, ordered_on_rows, rows_ordered, timeline_of,
};
use crate::number::{lemma_decimal_range, parse_unsigned, read_unsigned};
use crate::structs::{Beat, BeatView, Chart, Measure, MeasureView, MetadataView, SmFile};
use crate::text::{
    lines_view, sections_after, split_lines, split_sections, to_chars, to_text, trim,
    trimmed_lines,
};
use crate::timing::{
    carry_at, is_timeline, lemma_state_time, lemma_time_monotone, tempo_at, tempos_positive,
    time_at, timeline_wf, TimingError, TimingState, MEASURE_SPAN,
};
use crate::utils::{
    decimal_field_value, lemma_found_pairs_in_range, first_group, found_pairs, pairs_in_range,
    parse_decimal_field, parse_pairs,
};

verus! {

/// A symbol of the note alphabet: empty, tap, hold head, hold end, roll head
/// or mine.
pub open spec fn is_note_symbol(c: char) -> bool {
    c == '0' || c == '1' || c == '2' || c == '3' || c == '4' || c == 'M'
}

/// A note-line is text made of note symbols only.
pub open spec fn is_note_text(s: Seq<char>) -> bool {
    forall|i: int| 0 <= i < s.len() ==> is_note_symbol(#[trigger] s[i])
}

/// For each column of a note-line, whether it holds a note: every symbol but
/// `0` does.
pub open spec fn note_flags(s: Seq<char>) -> Seq<bool> {
    Seq::new(s.len(), |i: int| s[i] != '0')
}

/// A note-line at `row`, stamped with the time that the timeline gives the row.
pub open spec fn timed_beat(tl: Seq<(i64, i64)>, row: int, line: Seq<char>) -> BeatView {
    BeatView { time: time_at(tl, row), notes: note_flags(line) }
}

/// The measure that starts at `start_row` and holds `lines`: it starts at the
/// time of its first row, and each line is stamped with the time of the row on
/// which the grid puts it.
pub open spec fn timed_measure(
    tl: Seq<(i64, i64)>,
    start_row: int,
    lines: Seq<Seq<char>>,
) -> MeasureView {
    MeasureView {
        start_time: time_at(tl, start_row),
        beats: Seq::new(
            lines.len(),
            |i: int| timed_beat(tl, start_row + row_offset(lines.len() as int, i), lines[i]),
        ),
    }
}

/// The measures of a chart, timed: measure `k` starts `k` times 192 rows
/// after row 0.
pub open spec fn timed_chart(tl: Seq<(i64, i64)>, blocks: Seq<Seq<Seq<char>>>) -> Seq<
    MeasureView,
> {
    Seq::new(blocks.len(), |k: int| timed_measure(tl, k * 192_000_000, blocks[k]))
}

/// The width of the widest of `beats`: the largest number of columns that one
/// of them holds, 0 where there is none.
pub open spec fn beats_width(beats: Seq<BeatView>) -> nat
    decreases beats.len(),
{
    if beats.len() == 0 {
        0
    } else {
        let before = beats_width(beats.drop_last());
        let here = beats.last().notes.len();
        if here > before {
            here
        } else {
            before
        }
    }
}

/// The width of a chart: that of its widest note-line, 0 where it has none.
/// In a chart whose note-lines all have one width, it is that width.
pub open spec fn chart_width(measures: Seq<MeasureView>) -> nat
    decreases measures.len(),
{
    if measures.len() == 0 {
        0
    } else {
        let before = chart_width(measures.drop_last());
        let here = beats_width(measures.last().beats);
        if here > before {
            here
        } else {
            before
        }
    }
}

/// A chart of `measures` measures cannot be timed: its last row, or the
/// timestamp of that row, is beyond the integers that hold them.
pub open spec fn chart_overflows(tl: Seq<(i64, i64)>, measures: int) -> bool {
    measures * 192_000_000 > i64::MAX || time_at(tl, measures * 192_000_000) > u64::MAX
}

/// The text of line `i`, or `otherwise` where there is no such line.
pub open spec fn line_or(lines: Seq<Seq<char>>, i: int, otherwise: Seq<char>) -> Seq<char> {
    if 0 <= i < lines.len() {
        lines[i]
    } else {
        otherwise
    }
}

/// The meter that the header gives: the number on its meter line, or
/// `otherwise` where there is no such line; 0 where the line is no number.
pub open spec fn header_meter(lines: Seq<Seq<char>>, otherwise: int) -> int {
    let i = meter_index(lines);
    if i < lines.len() {
        match parse_unsigned(lines[i]) {
            Some(v) => v,
            None => 0,
        }
    } else {
        otherwise
    }
}

/// The radar values that the header gives.
pub open spec fn header_radar(lines: Seq<Seq<char>>) -> Seq<i64> {
    let i = radar_index(lines);
    if i < lines.len() {
        radar_values_of(lines[i])
    } else {
        seq![]
    }
}

/// Why the chart block `content` cannot be timed along `tl`, if it cannot.
pub open spec fn chart_error(content: Seq<char>, tl: Seq<(i64, i64)>) -> Option<TimingError> {
    let lines = trimmed_lines(content);
    let blocks = measure_blocks(lines, body_index(lines));
    if !timeline_wf(tl) {
        Some(TimingError::Disordered)
    } else if !tempos_positive(tl) {
        Some(TimingError::NonPositiveTempo)
    } else if chart_overflows(tl, blocks.len() as int) || chart_width(timed_chart(tl, blocks))
        > u32::MAX {
        Some(TimingError::Overflow)
    } else {
        None
    }
}

/// Among the first `n` chart blocks, the error of the first one that cannot
/// be timed.
pub open spec fn first_failure(sections: Seq<Seq<char>>, tl: Seq<(i64, i64)>, n: int) -> Option<
    TimingError,
>
    decreases n,
{
    if n <= 0 {
        None
    } else {
        match first_failure(sections, tl, n - 1) {
            Some(e) => Some(e),
            None => chart_error(sections[n - 1], tl),
        }
    }
}

/// The mark that opens a chart block.
pub open spec fn notes_mark() -> Seq<char> {
    seq!['#', 'N', 'O', 'T', 'E', 'S', ':']
}

/// The chart blocks of a file: what follows each mark, up to the next one.
pub open spec fn chart_sections(content: Seq<char>) -> Seq<Seq<char>> {
    sections_after(content, notes_mark())
}

/// The tempo pairs that a file declares, positions in beats.
pub open spec fn bpm_pairs(content: Seq<char>) -> Seq<(i64, i64)> {
    found_pairs(first_group("(?s)#BPMS:(.*?);"@, content))
}

/// The pause pairs that a file declares, positions in beats.
pub open spec fn stop_pairs(content: Seq<char>) -> Seq<(i64, i64)> {
    found_pairs(first_group("(?s)#STOPS:(.*?);"@, content))
}

/// The offset that a file declares, in microseconds and without its sign; 0
/// where it declares none.
pub open spec fn file_offset(content: Seq<char>) -> int {
    let v = decimal_field_value(first_group("#OFFSET:([-\\d.]+);"@, content), 0);
    if v < 0 {
        -v
    } else {
        v
    }
}

/// Whether `line` is made of note symbols only.
pub fn is_note_chars(line: &[char]) -> (b: bool)
    ensures
        b == is_note_text(line@),
{
    let mut i: usize = 0;
    while i < line.len()
        invariant
            i <= line.len(),
            forall|k: int| 0 <= k < i ==> is_note_symbol(#[trigger] line@[k]),
        decreases line.len() - i,
    {
        let c = line[i];
        if !(c == '0' || c == '1' || c == '2' || c == '3' || c == '4' || c == 'M') {
            return false;
        }
        i += 1;
    }
    true
}

/// The note flags of `line`, column by column.
pub fn note_flags_of(line: &[char]) -> (flags: Vec<bool>)
    ensures
        flags@ == note_flags(line@),
{
    let mut flags: Vec<bool> = Vec::new();
    let mut i: usize = 0;
    while i < line.len()
        invariant
            i <= line.len(),
            flags@.len() == i,
            forall|k: int| 0 <= k < i ==> flags@[k] == (line@[k] != '0'),
        decreases line.len() - i,
    {
        flags.push(line[i] != '0');
        i += 1;
    }
    assert(flags@ =~= note_flags(line@));
    flags
}

impl Beat {
    /// Whether `line` is a note-line: text made of note symbols only.
    pub fn is_note_line(line: &str) -> (b: bool)
        ensures
            b == is_note_text(line@),
    {
        let chars = to_chars(line);
        is_note_chars(chars.as_slice())
    }

    /// The note-line that `line` describes, not yet timed.
    pub fn parse(line: &str) -> (beat: Beat)
        ensures
            beat.time == 0,
            beat.notes@ == note_flags(line@),
    {
        let chars = to_chars(line);
        Beat { time: 0, notes: note_flags_of(chars.as_slice()) }
    }
}

impl Measure {
    /// The width of the measure: the number of columns of its widest
    /// note-line, 0 where it has none.
    pub fn width(&self) -> (w: usize)
        ensures
            w == beats_width(self@.beats),
    {
        let mut w: usize = 0;
        let mut i: usize = 0;
        while i < self.beats.len()
            invariant
                i <= self.beats@.len(),
                self@.beats.len() == self.beats@.len(),
                w == beats_width(self@.beats.take(i as int)),
            decreases self.beats.len() - i,
        {
            let here = self.beats[i].notes.len();
            proof {
                let now = self@.beats.take(i + 1);
                assert(now.drop_last() =~= self@.beats.take(i as int));
                assert(now.last() == self.beats@[i as int]@);
            }
            if here > w {
                w = here;
            }
            i += 1;
        }
        assert(self@.beats.take(self@.beats.len() as int) =~= self@.beats);
        w
    }

    /// Times one measure. The walk enters at the first row of the measure; each
    /// note-line is reached in turn and stamped; then the walk goes on to the
    /// end of the measure, 192 rows after its start, whatever the number of
    /// lines.
    pub fn integrate(note_lines: &Vec<Vec<char>>, tl: &[(i64, i64)], state: TimingState) -> (res:
        Result<(Measure, TimingState), TimingError>)
        requires
            timeline_wf(tl@),
            tempos_positive(tl@),
            state.wf(tl@),
        ensures
            match res {
                Ok((measure, next)) => {
                    &&& measure@ == timed_measure(tl@, state.row as int, lines_view(note_lines@))
                    &&& next.wf(tl@)
                    &&& next.settled(tl@)
                    &&& next.row - state.row == MEASURE_SPAN
                    &&& next.time == time_at(tl@, next.row as int)
                    &&& next.carry == carry_at(tl@, next.row as int)
                    &&& next.bpm == tempo_at(tl@, next.row as int)
                },
                Err(e) => {
                    &&& e == TimingError::Overflow
                    &&& (state.row + MEASURE_SPAN > i64::MAX || time_at(
                        tl@,
                        state.row + MEASURE_SPAN,
                    ) > u64::MAX)
                },
            },
    {
        if state.row > i64::MAX - MEASURE_SPAN {
            return Err(TimingError::Overflow);
        }
        let start_row: i64 = state.row;
        let end_row: i64 = start_row + MEASURE_SPAN;
        let count: usize = note_lines.len();
        let ghost lines = lines_view(note_lines@);
        proof {
            lemma_state_time(tl@, state);
        }
        let mut beats: Vec<Beat> = Vec::new();
        let mut st = state;
        let mut i: usize = 0;
        while i < count
            invariant
                timeline_wf(tl@),
                tempos_positive(tl@),
                count == note_lines@.len(),
                lines == lines_view(note_lines@),
                0 <= start_row == state.row,
                end_row == start_row + MEASURE_SPAN,
                i <= count,
                st.wf(tl@),
                i == 0 ==> st.row == start_row,
                i > 0 ==> st.row == start_row + row_offset(count as int, i - 1),
                beats@.len() == i,
                forall|k: int|
                    0 <= k < i ==> (#[trigger] beats@[k])@ == timed_beat(
                        tl@,
                        start_row + row_offset(count as int, k),
                        lines[k],
                    ),
            decreases count - i,
        {
            let offset = line_offset(count, i);
            proof {
                if i > 0 {
                    lemma_row_offset_monotone(count as int, i - 1, i as int);
                }
            }
            let row: i64 = start_row + offset;
            match st.advance_to(tl, row) {
                Ok(reached) => {
                    st = reached;
                },
                Err(e) => {
                    proof {
                        lemma_time_monotone(tl@, row as int, end_row as int);
                    }
                    return Err(e);
                },
            }
            let notes = note_flags_of(note_lines[i].as_slice());
            beats.push(Beat { time: st.time, notes });
            i += 1;
        }
        proof {
            if count > 0 {
                lemma_row_offset_bounds(count as int, count - 1);
            }
        }
        match st.advance_to(tl, end_row) {
            Ok(next) => {
                let measure = Measure { beats, start_time: state.time };
                proof {
                    let want = timed_measure(tl@, state.row as int, lines);
                    assert(measure@.beats =~= want.beats);
                }
                Ok((measure, next))
            },
            Err(e) => Err(e),
        }
    }

    /// Reads the measure that starts at line `start` and times it. Returns the
    /// measure, the index of the line after the one that ends it, and the
    /// state of the walk at the end of the measure.
    pub fn parse(lines: &Vec<Vec<char>>, start: usize, tl: &[(i64, i64)], state: TimingState) -> (res:
        Result<(Measure, usize, TimingState), TimingError>)
        requires
            start <= lines@.len(),
            timeline_wf(tl@),
            tempos_positive(tl@),
            state.wf(tl@),
        ensures
            match res {
                Ok((measure, next_index, next)) => {
                    let end = measure_end(lines_view(lines@), start as int);
                    &&& measure@ == timed_measure(
                        tl@,
                        state.row as int,
                        note_lines_between(lines_view(lines@), start as int, end),
                    )
                    &&& next_index == (if end < lines@.len() {
                        end + 1
                    } else {
                        end
                    })
                    &&& next.wf(tl@)
                    &&& next.settled(tl@)
                    &&& next.row - state.row == MEASURE_SPAN
                    &&& next.time == time_at(tl@, next.row as int)
                    &&& next.carry == carry_at(tl@, next.row as int)
                    &&& next.bpm == tempo_at(tl@, next.row as int)
                },
                Err(e) => {
                    &&& e == TimingError::Overflow
                    &&& (state.row + MEASURE_SPAN > i64::MAX || time_at(
                        tl@,
                        state.row + MEASURE_SPAN,
                    ) > u64::MAX)
                },
            },
    {
        let (note_lines, end) = collect_measure(lines, start);
        let next_index: usize = if end < lines.len() {
            end + 1
        } else {
            end
        };
        match Measure::integrate(&note_lines, tl, state) {
            Ok((measure, next)) => Ok((measure, next_index, next)),
            Err(e) => Err(e),
        }
    }
}

impl Chart {
    /// The chart is what the block `content` describes, timed along `tl`: the
    /// header fields from the header lines, and the measures of the block,
    /// measure `k` starting at row `192 * k`, each note-line stamped with the
    /// time of its row. The column count is the width of the note-lines: that
    /// of the widest, 0 where the chart has none. The description is not
    /// read.
    pub open spec fn is_parse_of(&self, content: Seq<char>, tl: Seq<(i64, i64)>) -> bool {
        let lines = trimmed_lines(content);
        let blocks = measure_blocks(lines, body_index(lines));
        &&& self.stepstype@ == line_or(lines, stepstype_index(lines), seq![])
        &&& self.difficulty@ == line_or(lines, difficulty_index(lines), seq![])
        &&& self.description@ == Seq::<char>::empty()
        &&& self.meter == header_meter(lines, 0)
        &&& self.radar_values@ == header_radar(lines)
        &&& self.column_count == chart_width(timed_chart(tl, blocks))
        &&& self.measures_view() == timed_chart(tl, blocks)
    }

    /// Reads the header of a chart block from its lines and returns the index
    /// of the first line of measure data. The header is the first five lines
    /// that are not empty: type of steps, description, difficulty, meter and
    /// radar values. The description is passed over whatever it holds. A
    /// field whose line is missing keeps its value; a meter that is no number
    /// becomes 0; the radar values found are added to those already there.
    pub fn parse_header(&mut self, lines: &Vec<Vec<char>>) -> (body: usize)
        ensures
            body == body_index(lines_view(lines@)),
            body <= lines@.len(),
            final(self).stepstype@ == line_or(
                lines_view(lines@),
                stepstype_index(lines_view(lines@)),
                old(self).stepstype@,
            ),
            final(self).difficulty@ == line_or(
                lines_view(lines@),
                difficulty_index(lines_view(lines@)),
                old(self).difficulty@,
            ),
            final(self).meter == header_meter(lines_view(lines@), old(self).meter as int),
            final(self).radar_values@ == old(self).radar_values@ + header_radar(lines_view(lines@)),
            final(self).description == old(self).description,
            final(self).column_count == old(self).column_count,
            final(self).measures == old(self).measures,
    {
        let ghost all = lines_view(lines@);
        proof {
            lemma_header_indices(all);
        }
        let mut idx: usize = 0;
        while idx < lines.len() && lines[idx].len() == 0
            invariant
                all == lines_view(lines@),
                idx <= lines@.len(),
                skip_empty_from(all, idx as int) == stepstype_index(all),
            decreases lines.len() - idx,
        {
            assert(all[idx as int] == lines@[idx as int]@);
            idx += 1;
        }
        if idx < lines.len() {
            assert(all[idx as int] == lines@[idx as int]@);
            self.stepstype = to_text(lines[idx].as_slice());
            idx += 1;
        }
        while idx < lines.len() && lines[idx].len() == 0
            invariant
                all == lines_view(lines@),
                idx <= lines@.len(),
                skip_empty_from(all, idx as int) == description_index(all),
            decreases lines.len() - idx,
        {
            assert(all[idx as int] == lines@[idx as int]@);
            idx += 1;
        }
        if idx < lines.len() {
            idx += 1;
        }
        while idx < lines.len() && lines[idx].len() == 0
            invariant
                all == lines_view(lines@),
                idx <= lines@.len(),
                skip_empty_from(all, idx as int) == difficulty_index(all),
            decreases lines.len() - idx,
        {
            assert(all[idx as int] == lines@[idx as int]@);
            idx += 1;
        }
        if idx < lines.len() {
            assert(all[idx as int] == lines@[idx as int]@);
            self.difficulty = to_text(lines[idx].as_slice());
            idx += 1;
        }
        while idx < lines.len() && lines[idx].len() == 0
            invariant
                all == lines_view(lines@),
                idx <= lines@.len(),
                skip_empty_from(all, idx as int) == meter_index(all),
            decreases lines.len() - idx,
        {
            assert(all[idx as int] == lines@[idx as int]@);
            idx += 1;
        }
        if idx < lines.len() {
            assert(all[idx as int] == lines@[idx as int]@);
            self.meter =
            match read_unsigned(lines[idx].as_slice()) {
                Some(v) => v,
                None => 0,
            };
            idx += 1;
        }
        while idx < lines.len() && lines[idx].len() == 0
            invariant
                all == lines_view(lines@),
                idx <= lines@.len(),
                skip_empty_from(all, idx as int) == radar_index(all),
            decreases lines.len() - idx,
        {
            assert(all[idx as int] == lines@[idx as int]@);
            idx += 1;
        }
        if idx < lines.len() {
            assert(all[idx as int] == lines@[idx as int]@);
            let mut values = read_radar_values(lines[idx].as_slice());
            self.radar_values.append(&mut values);
            idx += 1;
        } else {
            assert(self.radar_values@ =~= old(self).radar_values@ + header_radar(all));
        }
        idx
    }

    /// Reads one chart block and times its measures along the tempo timeline
    /// `bpms`.
    ///
    /// The block is cut into trimmed lines; the header comes first, the
    /// measures follow. Measure `k` starts at row `192 * k`, and every
    /// note-line gets the timestamp of its row. The column count is the
    /// width of the widest note-line. A timeline that is out of order or
    /// holds a tempo that is not positive is refused, and so is a chart whose
    /// rows, timestamps or columns do not fit their integers.
    pub fn parse(content: &[char], bpms: &[(i64, i64)]) -> (res: Result<Chart, TimingError>)
        ensures
            match res {
                Ok(chart) => chart_error(content@, bpms@) is None && chart.is_parse_of(
                    content@,
                    bpms@,
                ),
                Err(e) => chart_error(content@, bpms@) == Some(e),
            },
    {
        if !is_timeline(bpms) {
            return Err(TimingError::Disordered);
        }
        if !all_tempos_positive(bpms) {
            return Err(TimingError::NonPositiveTempo);
        }
        let lines = split_lines(content);
        let ghost all = lines_view(lines@);
        let mut chart = Chart::new();
        let mut idx = chart.parse_header(&lines);
        let ghost body = idx as int;
        let ghost blocks = measure_blocks(all, body);
        let ghost done: Seq<Seq<Seq<char>>> = seq![];
        let mut widest: usize = 0;
        let mut state = TimingState::start(bpms);
        proof {
            assert(timed_chart(bpms@, done) =~= Seq::<MeasureView>::empty());
            lemma_state_time(bpms@, state);
            assert(chart.stepstype@ =~= line_or(all, stepstype_index(all), seq![]));
            assert(chart.difficulty@ =~= line_or(all, difficulty_index(all), seq![]));
            assert(chart.radar_values@ =~= header_radar(all));
        }
        while idx < lines.len()
            invariant_except_break
                done + measure_blocks(all, idx as int) == blocks,
            invariant
                all == lines_view(lines@),
                all == trimmed_lines(content@),
                blocks == measure_blocks(all, body_index(all)),
                timeline_wf(bpms@),
                tempos_positive(bpms@),
                idx <= lines@.len(),
                state.wf(bpms@),
                state.row == done.len() * 192_000_000,
                state.time == time_at(bpms@, state.row as int),
                chart.measures@.len() == done.len(),
                forall|k: int|
                    0 <= k < done.len() ==> (#[trigger] chart.measures@[k])@ == timed_measure(
                        bpms@,
                        k * 192_000_000,
                        done[k],
                    ),
                chart.stepstype@ == line_or(all, stepstype_index(all), seq![]),
                chart.difficulty@ == line_or(all, difficulty_index(all), seq![]),
                chart.description@ == Seq::<char>::empty(),
                chart.meter == header_meter(all, 0),
                chart.radar_values@ == header_radar(all),
                chart.column_count == 0,
                widest == chart_width(timed_chart(bpms@, done)),
            ensures
                done == blocks,
            decreases lines.len() - idx,
        {
            let ghost end = measure_end(all, idx as int);
            let ghost block = note_lines_between(all, idx as int, end);
            proof {
                lemma_measure_end_bounds(all, idx as int);
            }
            match Measure::parse(&lines, idx, bpms, state) {
                Ok((measure, next_index, next)) => {
                    let width = measure.width();
                    if width > widest {
                        widest = width;
                    }
                    proof {
                        let before = timed_chart(bpms@, done);
                        let now = timed_chart(bpms@, done.push(block));
                        assert(now.drop_last() =~= before);
                        assert(now.last() == measure@);
                        done = done.push(block);
                    }
                    chart.measures.push(measure);
                    state = next;
                    if next_index > 0 && next_index > idx && is_end_line(&lines, next_index - 1) {
                        proof {
                            assert(all[next_index - 1] == lines@[next_index - 1]@);
                            assert(done =~= blocks);
                        }
                        break;
                    }
                    proof {
                        if end < all.len() {
                            assert(all[end] == lines@[end]@);
                        }
                        assert(done + measure_blocks(all, next_index as int) =~= blocks);
                    }
                    idx = next_index;
                },
                Err(e) => {
                    proof {
                        let total = blocks.len() as int;
                        let here = done.len() as int;
                        assert(blocks.len() == done.len() + measure_blocks(all, idx as int).len());
                        assert(total >= here + 1);
                        lemma_time_monotone(bpms@, (here + 1) * 192_000_000, total * 192_000_000);
                    }
                    return Err(e);
                },
            }
        }
        proof {
            if idx >= lines.len() {
                assert(done =~= blocks);
            }
            assert(chart.measures_view() =~= timed_chart(bpms@, blocks));
        }
        if widest > u32::MAX as usize {
            return Err(TimingError::Overflow);
        }
        chart.column_count = widest as u32;
        Ok(chart)
    }
}

/// Whether every tempo of the timeline is positive.
pub fn all_tempos_positive(tl: &[(i64, i64)]) -> (b: bool)
    ensures
        b == tempos_positive(tl@),
{
    let mut i: usize = 0;
    while i < tl.len()
        invariant
            i <= tl@.len(),
            forall|k: int| 0 <= k < i ==> (#[trigger] tl@[k]).1 > 0,
        decreases tl.len() - i,
    {
        if tl[i].1 <= 0 {
            return false;
        }
        i += 1;
    }
    true
}

/// Whether line `i` is the line `;`, which ends a chart.
fn is_end_line(lines: &Vec<Vec<char>>, i: usize) -> (b: bool)
    requires
        i < lines@.len(),
    ensures
        b == is_end_mark(code_of(lines@[i as int]@)),
{
    let code = code_of_line(lines[i].as_slice());
    is_end_code(code.as_slice())
}

impl SmFile {
    /// The file is what `content` describes: its metadata, its offset, its
    /// tempo timeline, its pauses in the order of their rows, and one timed
    /// chart for each chart block.
    pub open spec fn is_parse_of(&self, content: Seq<char>) -> bool {
        let sections = chart_sections(content);
        &&& self.metadata.is_parse_of(content, MetadataView::blank())
        &&& self.offset == file_offset(content)
        &&& self.bpms@ == timeline_of(bpm_pairs(content))
        &&& self.stops@ == ordered_on_rows(stop_pairs(content), stop_pairs(content).len() as int)
        &&& self.charts@.len() == sections.len()
        &&& forall|k: int|
            0 <= k < sections.len() ==> (#[trigger] self.charts@[k]).is_parse_of(
                sections[k],
                self.bpms@,
            )
    }

    /// Reads a song file from its text.
    ///
    /// Declarations that cannot be read are passed over. The file is refused
    /// where one of its charts cannot be timed: where it has a chart and its
    /// tempo timeline holds a tempo that is not positive, or where a chart is
    /// too long. The error is that of the first such chart, in words.
    pub fn from_string(content: &str) -> (res: Result<SmFile, String>)
        ensures
            match res {
                Ok(sm) => {
                    &&& sm.is_parse_of(content@)
                    &&& timeline_wf(sm.bpms@)
                    &&& rows_ordered(sm.stops@)
                    &&& first_failure(
                        chart_sections(content@),
                        timeline_of(bpm_pairs(content@)),
                        chart_sections(content@).len() as int,
                    ) is None
                },
                Err(msg) => {
                    &&& first_failure(
                        chart_sections(content@),
                        timeline_of(bpm_pairs(content@)),
                        chart_sections(content@).len() as int,
                    ) matches Some(e)
                    &&& msg@ == e.message_spec()
                },
            },
    {
        SmFile::parse(content)
    }

    /// Reads a song file from its text: the metadata, the tempo timeline, the
    /// pauses, the offset, and then the charts.
    fn parse(content: &str) -> (res: Result<SmFile, String>)
        ensures
            match res {
                Ok(sm) => {
                    &&& sm.is_parse_of(content@)
                    &&& timeline_wf(sm.bpms@)
                    &&& rows_ordered(sm.stops@)
                    &&& first_failure(
                        chart_sections(content@),
                        timeline_of(bpm_pairs(content@)),
                        chart_sections(content@).len() as int,
                    ) is None
                },
                Err(msg) => {
                    &&& first_failure(
                        chart_sections(content@),
                        timeline_of(bpm_pairs(content@)),
                        chart_sections(content@).len() as int,
                    ) matches Some(e)
                    &&& msg@ == e.message_spec()
                },
            },
    {
        let mut sm = SmFile::new();
        sm.metadata.parse(content);
        sm.parse_bpms(content);
        sm.parse_stops(content);
        let mut offset: i64 = 0;
        parse_decimal_field(content, "#OFFSET:([-\\d.]+);", &mut offset);
        proof {
            match first_group("#OFFSET:([-\\d.]+);"@, content@) {
                Some(g) => {
                    lemma_decimal_range(trim(g));
                },
                None => {},
            }
            assert(sm.bpms@ =~= timeline_of(bpm_pairs(content@))) by {
                assert(Seq::<(i64, i64)>::empty() + bpm_pairs(content@) =~= bpm_pairs(content@));
            }
            assert(Seq::<(i64, i64)>::empty() + stop_pairs(content@) =~= stop_pairs(content@));
        }
        sm.offset =
        if offset < 0 {
            (-offset) as u64
        } else {
            offset as u64
        };
        match sm.parse_charts(content) {
            Ok(()) => {
                proof {
                    let sections = chart_sections(content@);
                    assert forall|k: int| 0 <= k < sections.len() implies (#[trigger] sm.charts@[k]).is_parse_of(
                        sections[k],
                        sm.bpms@,
                    ) by {
                        assert(sm.charts@[0 + k].is_parse_of(sections[k], sm.bpms@));
                    }
                }
                Ok(sm)
            },
            Err(msg) => Err(msg),
        }
    }

    /// Sets the tempo timeline from the pairs that the file declares, added to
    /// those already there.
    fn parse_bpms(&mut self, content: &str)
        requires
            pairs_in_range(old(self).bpms@),
        ensures
            final(self).bpms@ == timeline_of(old(self).bpms@ + bpm_pairs(content@)),
            timeline_wf(final(self).bpms@),
            final(self).metadata == old(self).metadata,
            final(self).offset == old(self).offset,
            final(self).stops == old(self).stops,
            final(self).charts == old(self).charts,
    {
        parse_pairs(content, "(?s)#BPMS:(.*?);", &mut self.bpms);
        proof {
            lemma_found_pairs_in_range(old(self).bpms@, first_group("(?s)#BPMS:(.*?);"@, content@));
        }
        self.bpms = build_timeline(&self.bpms);
    }

    /// Sets the pauses from the pairs that the file declares, added to those
    /// already there, in the order of their rows.
    fn parse_stops(&mut self, content: &str)
        requires
            pairs_in_range(old(self).stops@),
        ensures
            final(self).stops@ == ordered_on_rows(
                old(self).stops@ + stop_pairs(content@),
                (old(self).stops@ + stop_pairs(content@)).len() as int,
            ),
            rows_ordered(final(self).stops@),
            final(self).metadata == old(self).metadata,
            final(self).offset == old(self).offset,
            final(self).bpms == old(self).bpms,
            final(self).charts == old(self).charts,
    {
        parse_pairs(content, "(?s)#STOPS:(.*?);", &mut self.stops);
        proof {
            lemma_found_pairs_in_range(old(self).stops@, first_group("(?s)#STOPS:(.*?);"@, content@));
        }
        self.stops = order_on_rows(&self.stops);
    }

    /// Adds one timed chart for each chart block of the file. Stops at the
    /// first block that cannot be timed, with its error in words.
    fn parse_charts(&mut self, content: &str) -> (res: Result<(), String>)
        ensures
            final(self).metadata == old(self).metadata,
            final(self).offset == old(self).offset,
            final(self).bpms == old(self).bpms,
            final(self).stops == old(self).stops,
            match res {
                Ok(()) => {
                    let sections = chart_sections(content@);
                    &&& first_failure(sections, old(self).bpms@, sections.len() as int) is None
                    &&& final(self).charts@.len() == old(self).charts@.len() + sections.len()
                    &&& forall|k: int|
                        0 <= k < old(self).charts@.len() ==> final(self).charts@[k] == old(
                            self,
                        ).charts@[k]
                    &&& forall|k: int|
                        0 <= k < sections.len() ==> (#[trigger] final(self).charts@[old(
                            self,
                        ).charts@.len() + k]).is_parse_of(sections[k], old(self).bpms@)
                },
                Err(msg) => {
                    let sections = chart_sections(content@);
                    &&& first_failure(sections, old(self).bpms@, sections.len() as int) matches Some(
                        e,
                    )
                    &&& msg@ == e.message_spec()
                },
            },
    {
        let chars = to_chars(content);
        let mark: Vec<char> = vec!['#', 'N', 'O', 'T', 'E', 'S', ':'];
        assert(mark@ =~= notes_mark());
        let sections = split_sections(chars.as_slice(), mark.as_slice());
        let ghost all = lines_view(sections@);
        let ghost before = self.charts@.len();
        let mut i: usize = 0;
        while i < sections.len()
            invariant
                all == lines_view(sections@),
                all == chart_sections(content@),
                i <= sections@.len(),
                self.metadata == old(self).metadata,
                self.offset == old(self).offset,
                self.bpms == old(self).bpms,
                self.stops == old(self).stops,
                before == old(self).charts@.len(),
                first_failure(all, self.bpms@, i as int) is None,
                self.charts@.len() == before + i,
                forall|k: int| 0 <= k < before ==> self.charts@[k] == old(self).charts@[k],
                forall|k: int|
                    0 <= k < i ==> (#[trigger] self.charts@[before + k]).is_parse_of(
                        all[k],
                        self.bpms@,
                    ),
            decreases sections.len() - i,
        {
            assert(all[i as int] == sections@[i as int]@);
            match Chart::parse(sections[i].as_slice(), self.bpms.as_slice()) {
                Ok(chart) => {
                    self.charts.push(chart);
                },
                Err(e) => {
                    proof {
                        lemma_first_failure_stays(all, self.bpms@, i + 1, all.len() as int);
                    }
                    return Err(e.message());
                },
            }
            i += 1;
        }
        Ok(())
    }
}

/// Once a chart block has failed, the first failure stays what it is however
/// many blocks follow.
pub proof fn lemma_first_failure_stays(
    sections: Seq<Seq<char>>,
    tl: Seq<(i64, i64)>,
    n: int,
    m: int,
)
    requires
        n <= m,
        first_failure(sections, tl, n) is Some,
    ensures
        first_failure(sections, tl, m) == first_failure(sections, tl, n),
    decreases m - n,
{
    if n < m {
        lemma_first_failure_stays(sections, tl, n, m - 1);
    }
}

/// Along a chart, timestamps never decrease: not from one measure to a later
/// one, not from the start of a measure to its note-lines, not from one
/// note-line to a later one, and not from a note-line to a later measure.
pub proof fn lemma_chart_times_ordered(
    tl: Seq<(i64, i64)>,
    blocks: Seq<Seq<Seq<char>>>,
    k1: int,
    k2: int,
)
    requires
        timeline_wf(tl),
        tempos_positive(tl),
        0 <= k1 <= k2 < blocks.len(),
    ensures
        0 <= timed_chart(tl, blocks)[k1].start_time <= timed_chart(tl, blocks)[k2].start_time,
        forall|i: int|
            0 <= i < blocks[k1].len() ==> timed_chart(tl, blocks)[k1].start_time <= (
            #[trigger] timed_chart(tl, blocks)[k1].beats[i]).time,
        forall|i: int, j: int|
            0 <= i <= j < blocks[k1].len() ==> (#[trigger] timed_chart(
                tl,
                blocks,
            )[k1].beats[i]).time <= (#[trigger] timed_chart(tl, blocks)[k1].beats[j]).time,
        k1 < k2 ==> forall|i: int|
            0 <= i < blocks[k1].len() ==> (#[trigger] timed_chart(tl, blocks)[k1].beats[i]).time
                <= timed_chart(tl, blocks)[k2].start_time,
{
    let chart = timed_chart(tl, blocks);
    let n = blocks[k1].len() as int;
    let s1 = k1 * 192_000_000;
    let s2 = k2 * 192_000_000;
    lemma_time_monotone(tl, s1, s2);
    assert forall|i: int| 0 <= i < n implies chart[k1].start_time <= (#[trigger] chart[k1].beats[i]).time by {
        lemma_row_offset_bounds(n, i);
        lemma_time_monotone(tl, s1, s1 + row_offset(n, i));
    }
    assert forall|i: int, j: int| 0 <= i <= j < n implies (#[trigger] chart[k1].beats[i]).time <= (
    #[trigger] chart[k1].beats[j]).time by {
        lemma_row_offset_bounds(n, i);
        lemma_row_offset_monotone(n, i, j);
        lemma_time_monotone(tl, s1 + row_offset(n, i), s1 + row_offset(n, j));
    }
    if k1 < k2 {
        assert forall|i: int| 0 <= i < n implies (#[trigger] chart[k1].beats[i]).time
            <= chart[k2].start_time by {
            lemma_row_offset_bounds(n, i);
            lemma_time_monotone(tl, s1 + row_offset(n, i), s2);
        }
    }
}

/// Reading the same block along the same timeline gives the same chart: two
/// charts that are both what the block describes agree in every field that is
/// read, and in every timestamp.
pub proof fn lemma_chart_determined(a: Chart, b: Chart, content: Seq<char>, tl: Seq<(i64, i64)>)
    requires
        a.is_parse_of(content, tl),
        b.is_parse_of(content, tl),
    ensures
        a.measures_view() == b.measures_view(),
        a.stepstype@ == b.stepstype@,
        a.difficulty@ == b.difficulty@,
        a.description@ == b.description@,
        a.meter == b.meter,
        a.radar_values@ == b.radar_values@,
        a.column_count == b.column_count,
{
}

/// Timing the same note-lines from the same row along the same timeline gives
/// the same measure.
pub proof fn lemma_measure_determined(
    a: Measure,
    b: Measure,
    tl: Seq<(i64, i64)>,
    start_row: int,
    lines: Seq<Seq<char>>,
)
    requires
        a@ == timed_measure(tl, start_row, lines),
        b@ == timed_measure(tl, start_row, lines),
    ensures
        a@ == b@,
        a.start_time == b.start_time,
        a.beats@.len() == b.beats@.len(),
        forall|i: int|
            0 <= i < a.beats@.len() ==> (#[trigger] a.beats@[i]).time == b.beats@[i].time
                && a.beats@[i].notes@ == b.beats@[i].notes@,
{
    assert(a@.beats.len() == a.beats@.len());
    assert(b@.beats.len() == b.beats@.len());
    assert forall|i: int| 0 <= i < a.beats@.len() implies (#[trigger] a.beats@[i]).time
        == b.beats@[i].time && a.beats@[i].notes@ == b.beats@[i].notes@ by {
        assert(a@.beats[i] == a.beats@[i]@);
        assert(b@.beats[i] == b.beats@[i]@);
    }
}

/// Every measure of a chart spans 192 rows, whatever the number of its
/// note-lines: measure `k` starts at row `192 * k`, every note-line of it lies
/// at or after that row, and before the row at which the next measure starts.
pub proof fn lemma_measure_rows(count: int, k: int, i: int)
    requires
        0 <= k,
        0 <= i < count,
    ensures
        (k + 1) * 192_000_000 - k * 192_000_000 == 192_000_000,
        k * 192_000_000 <= k * 192_000_000 + row_offset(count, i) < (k + 1) * 192_000_000,
{
    lemma_row_offset_bounds(count, i);
}

/// No note-line is wider than `beats_width` says, and where there is a
/// note-line, one of them is that wide.
pub proof fn lemma_beats_width(beats: Seq<BeatView>)
    ensures
        forall|i: int| 0 <= i < beats.len() ==> (#[trigger] beats[i]).notes.len() <= beats_width(beats),
        beats.len() > 0 ==> exists|i: int|
            0 <= i < beats.len() && (#[trigger] beats[i]).notes.len() == beats_width(beats),
        beats.len() == 0 ==> beats_width(beats) == 0,
    decreases beats.len(),
{
    if beats.len() > 0 {
        let rest = beats.drop_last();
        lemma_beats_width(rest);
        assert forall|i: int| 0 <= i < beats.len() implies (#[trigger] beats[i]).notes.len()
            <= beats_width(beats) by {
            if i < rest.len() {
                assert(beats[i] == rest[i]);
            }
        }
        if beats.last().notes.len() > beats_width(rest) || rest.len() == 0 {
            assert(beats[beats.len() - 1].notes.len() == beats_width(beats));
        } else {
            let i = choose|i: int|
                0 <= i < rest.len() && (#[trigger] rest[i]).notes.len() == beats_width(rest);
            assert(beats[i] == rest[i]);
        }
    }
}

/// No note-line of a chart is wider than the chart, and a chart that is not
/// of width 0 has a note-line of its width.
pub proof fn lemma_chart_width(measures: Seq<MeasureView>)
    ensures
        forall|k: int, i: int|
            0 <= k < measures.len() && 0 <= i < measures[k].beats.len() ==> (
            #[trigger] measures[k].beats[i]).notes.len() <= chart_width(measures),
        chart_width(measures) > 0 ==> exists|k: int, i: int|
            0 <= k < measures.len() && 0 <= i < measures[k].beats.len() && (
            #[trigger] measures[k].beats[i]).notes.len() == chart_width(measures),
    decreases measures.len(),
{
    if measures.len() > 0 {
        let rest = measures.drop_last();
        let last = measures.last();
        lemma_chart_width(rest);
        lemma_beats_width(last.beats);
        assert forall|k: int, i: int|
            0 <= k < measures.len() && 0 <= i < measures[k].beats.len() implies (
        #[trigger] measures[k].beats[i]).notes.len() <= chart_width(measures) by {
            if k < rest.len() {
                assert(measures[k] == rest[k]);
            }
        }
        if chart_width(measures) > 0 {
            if beats_width(last.beats) > chart_width(rest) {
                let i = choose|i: int|
                    0 <= i < last.beats.len() && (#[trigger] last.beats[i]).notes.len()
                        == beats_width(last.beats);
                assert(measures[measures.len() - 1].beats[i].notes.len() == chart_width(measures));
            } else {
                let (k, i) = choose|k: int, i: int|
                    0 <= k < rest.len() && 0 <= i < rest[k].beats.len() && (
                    #[trigger] rest[k].beats[i]).notes.len() == chart_width(rest);
                assert(measures[k] == rest[k]);
                assert(measures[k].beats[i].notes.len() == chart_width(measures));
            }
        }
    }
}

/// In a chart whose note-lines all have the width `w`, and that has a
/// note-line, the column count is `w`, and every note-line holds that many
/// flags.
pub proof fn lemma_uniform_width(tl: Seq<(i64, i64)>, blocks: Seq<Seq<Seq<char>>>, w: nat)
    requires
        forall|k: int, i: int|
            0 <= k < blocks.len() && 0 <= i < blocks[k].len() ==> (#[trigger] blocks[k][i]).len()
                == w,
        exists|k: int| 0 <= k < blocks.len() && (#[trigger] blocks[k]).len() > 0,
    ensures
        chart_width(timed_chart(tl, blocks)) == w,
        forall|k: int, i: int|
            0 <= k < blocks.len() && 0 <= i < blocks[k].len() ==> (#[trigger] timed_chart(
                tl,
                blocks,
            )[k].beats[i]).notes.len() == chart_width(timed_chart(tl, blocks)),
{
    let chart = timed_chart(tl, blocks);
    lemma_chart_width(chart);
    assert forall|k: int, i: int|
        0 <= k < blocks.len() && 0 <= i < blocks[k].len() implies (#[trigger] chart[k].beats[i]).notes.len()
        == w by {
        assert(blocks[k][i].len() == w);
    }
    let k0 = choose|k: int| 0 <= k < blocks.len() && (#[trigger] blocks[k]).len() > 0;
    assert(chart[k0].beats[0].notes.len() == w);
    if chart_width(chart) > 0 {
        let (k, i) = choose|k: int, i: int|
            0 <= k < chart.len() && 0 <= i < chart[k].beats.len() && (
            #[trigger] chart[k].beats[i]).notes.len() == chart_width(chart);
        assert(blocks[k][i].len() == w);
    }
}

/// A chart read from a block whose note-lines all have the width `w`, and
/// that has a note-line, has `w` columns, and every note-line of it holds
/// that many flags.
pub proof fn lemma_chart_columns(chart: Chart, content: Seq<char>, tl: Seq<(i64, i64)>, w: nat)
    requires
        chart.is_parse_of(content, tl),
        forall|k: int, i: int|
            0 <= k < measure_blocks(
                trimmed_lines(content),
                body_index(trimmed_lines(content)),
            ).len() && 0 <= i < measure_blocks(
                trimmed_lines(content),
                body_index(trimmed_lines(content)),
            )[k].len() ==> (#[trigger] measure_blocks(
                trimmed_lines(content),
                body_index(trimmed_lines(content)),
            )[k][i]).len() == w,
        exists|k: int|
            0 <= k < measure_blocks(
                trimmed_lines(content),
                body_index(trimmed_lines(content)),
            ).len() && (#[trigger] measure_blocks(
                trimmed_lines(content),
                body_index(trimmed_lines(content)),
            )[k]).len() > 0,
    ensures
        chart.column_count == w,
        forall|k: int, i: int|
            0 <= k < chart.measures@.len() && 0 <= i < chart.measures@[k].beats@.len() ==> (
            #[trigger] chart.measures@[k].beats@[i]).notes@.len() == chart.column_count,
{
    let lines = trimmed_lines(content);
    let blocks = measure_blocks(lines, body_index(lines));
    lemma_uniform_width(tl, blocks, w);
    assert(chart.measures_view().len() == chart.measures@.len());
    assert forall|k: int, i: int|
        0 <= k < chart.measures@.len() && 0 <= i < chart.measures@[k].beats@.len() implies (
    #[trigger] chart.measures@[k].beats@[i]).notes@.len() == chart.column_count by {
        assert(chart.measures_view()[k] == chart.measures@[k]@);
        assert(chart.measures@[k]@.beats.len() == chart.measures@[k].beats@.len());
        assert(chart.measures@[k]@.beats[i] == chart.measures@[k].beats@[i]@);
        assert(timed_chart(tl, blocks)[k].beats[i].notes.len() == w);
    }
}

} // verus!
