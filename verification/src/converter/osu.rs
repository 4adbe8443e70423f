//! Writing a chart as a beatmap.
//!
//! Times are written in whole milliseconds, the global offset added; a beat
//! length is written in milliseconds with up to six places. A value that does
//! not fit a signed integer of 32 bits is written as the largest one.

use vstd::prelude::*;
use crate::decoding::decode::all_tempos_positive;
use crate::number::{fixed_text, integer_text, push_fixed, push_integer};
use crate::structs::{Beat, BeatView, Chart, Measure, MeasureView, OsuSettings, SmFile};
use crate::timing::{
    event_time, is_timeline, lemma_event_time_monotone, lemma_time_at_event, tempos_positive,
    timeline_wf, TimingError, TimingState,
};

verus! {

/// The number of columns that a chart is written with: its own, or four where
/// it names none.
pub open spec fn columns_of(columns: u32) -> int {
    if columns > 0 {
        columns as int
    } else {
        4
    }
}

/// A time in microseconds as whole milliseconds, no larger than a signed
/// integer of 32 bits.
pub open spec fn clamp_millis(micros: int) -> int {
    if micros / 1000 > i32::MAX {
        i32::MAX as int
    } else {
        micros / 1000
    }
}

/// The length of a beat at tempo `bpm`, in millionths of a millisecond.
pub open spec fn beat_length(bpm: int) -> int {
    60_000_000_000_000_000int / bpm
}

/// The horizontal place of column `index` of `columns`, on a field 512 wide:
/// the middle of the column, rounded down.
pub open spec fn column_x(index: int, columns: int) -> int {
    if ((2 * index + 1) * 256) / columns > i32::MAX {
        i32::MAX as int
    } else {
        ((2 * index + 1) * 256) / columns
    }
}

/// `prefix` followed by the opening of a beatmap and its general section.
pub open spec fn with_general(prefix: Seq<char>, music: Seq<char>) -> Seq<char> {
    prefix + "osu file format v14\n\n[General]\nAudioFilename: "@ + music
        + "\nAudioLeadIn: 0\nPreviewTime: -1\nCountdown: 0\nSampleSet: Normal\nStackLeniency: 0.7\nMode: 3\nLetterboxInBreaks: 0\nWidescreenStoryboard: 0\n\n[Editor]\n\n"@
}

/// `prefix` followed by the metadata section.
pub open spec fn with_metadata(
    prefix: Seq<char>,
    title: Seq<char>,
    artist: Seq<char>,
    credit: Seq<char>,
    version: Seq<char>,
) -> Seq<char> {
    prefix + "[Metadata]\nTitle:"@ + title + "\nTitleUnicode:"@ + title + "\nArtist:"@ + artist
        + "\nArtistUnicode:"@ + artist + "\nCreator:"@ + credit + "\nVersion:"@ + version
        + "\nSource:\nTags: rOtterna\nBeatmapID: 0\nBeatmapSetID: -1\n\n"@
}

/// `prefix` followed by the difficulty section.
pub open spec fn with_difficulty(prefix: Seq<char>, hp: int, od: int) -> Seq<char> {
    prefix + "[Difficulty]\nHPDrainRate: "@ + fixed_text(hp) + "\nCircleSize: 4\nOverallDifficulty: "@
        + fixed_text(od) + "\nApproachRate: 5\nSliderMultiplier: 1.4\nSliderTickRate: 1\n\n"@
}

/// `prefix` followed by the events section; the background is named where
/// there is one.
pub open spec fn with_events(prefix: Seq<char>, background: Seq<char>) -> Seq<char> {
    let opened = prefix + "[Events]\n//Background and Video events\n"@;
    let shown = if background.len() > 0 {
        opened + "0,0,\""@ + background + "\",0,0\n"@
    } else {
        opened
    };
    shown
        + "//Break Periods\n//Storyboard Layer 0 (Background)\n//Storyboard Layer 1 (Fail)\n//Storyboard Layer 2 (Pass)\n//Storyboard Layer 3 (Foreground)\n//Storyboard Sound Samples\n\n"@
}

/// `prefix` followed by one timing point.
pub open spec fn with_timing_point(prefix: Seq<char>, millis: int, length: int) -> Seq<char> {
    prefix + integer_text(millis) + ","@ + fixed_text(length) + ",4,2,0,100,1,0\n"@
}

/// `prefix` followed by the timing points of the first `n` tempo events, each
/// at the time at which its event takes effect.
pub open spec fn with_timing_points(
    prefix: Seq<char>,
    tl: Seq<(i64, i64)>,
    offset: int,
    n: int,
) -> Seq<char>
    decreases n,
{
    if n <= 0 {
        prefix
    } else {
        with_timing_point(
            with_timing_points(prefix, tl, offset, n - 1),
            clamp_millis(event_time(tl, n - 1) + offset),
            beat_length(tl[n - 1].1 as int),
        )
    }
}

/// `prefix` followed by the timing points of the timeline. A file without a
/// timeline gets one timing point, at the offset, with the beat length of 120
/// beats per minute.
pub open spec fn with_timing(prefix: Seq<char>, tl: Seq<(i64, i64)>, offset: int) -> Seq<char> {
    if tl.len() == 0 {
        with_timing_point(prefix, clamp_millis(offset), 500_000_000)
    } else {
        with_timing_points(prefix, tl, offset, tl.len() as int)
    }
}

/// `prefix` followed by one hit object.
pub open spec fn with_hit_object(prefix: Seq<char>, x: int, millis: int) -> Seq<char> {
    prefix + integer_text(x) + ",192,"@ + integer_text(millis) + ",1,0,0:0:0:0:\n"@
}

/// `prefix` followed by a hit object for each note among the first `n`
/// columns of a note-line.
pub open spec fn with_notes(
    prefix: Seq<char>,
    notes: Seq<bool>,
    columns: int,
    millis: int,
    n: int,
) -> Seq<char>
    decreases n,
{
    if n <= 0 {
        prefix
    } else if notes[n - 1] {
        with_hit_object(
            with_notes(prefix, notes, columns, millis, n - 1),
            column_x(n - 1, columns),
            millis,
        )
    } else {
        with_notes(prefix, notes, columns, millis, n - 1)
    }
}

/// `prefix` followed by the hit objects of the first `n` note-lines.
pub open spec fn with_beats(
    prefix: Seq<char>,
    beats: Seq<BeatView>,
    columns: int,
    offset: int,
    n: int,
) -> Seq<char>
    decreases n,
{
    if n <= 0 {
        prefix
    } else {
        with_notes(
            with_beats(prefix, beats, columns, offset, n - 1),
            beats[n - 1].notes,
            columns,
            clamp_millis(beats[n - 1].time + offset),
            beats[n - 1].notes.len() as int,
        )
    }
}

/// `prefix` followed by the hit objects of the first `n` measures.
pub open spec fn with_measures(
    prefix: Seq<char>,
    measures: Seq<MeasureView>,
    columns: int,
    offset: int,
    n: int,
) -> Seq<char>
    decreases n,
{
    if n <= 0 {
        prefix
    } else {
        with_beats(
            with_measures(prefix, measures, columns, offset, n - 1),
            measures[n - 1].beats,
            columns,
            offset,
            measures[n - 1].beats.len() as int,
        )
    }
}

/// The beatmap of `chart`.
pub open spec fn osu_text(sm_file: &SmFile, chart: &Chart, settings: &OsuSettings) -> Seq<char> {
    let general = with_general(Seq::empty(), sm_file.metadata.music@);
    let metadata = with_metadata(
        general,
        sm_file.metadata.title@,
        sm_file.metadata.artist@,
        sm_file.metadata.credit@,
        chart.difficulty@,
    );
    let difficulty = with_difficulty(metadata, settings.hp as int, settings.od as int);
    let events = with_events(difficulty, sm_file.metadata.background@);
    let timing = with_timing(events + "[TimingPoints]\n"@, sm_file.bpms@, sm_file.offset as int);
    with_measures(
        timing + "\n[HitObjects]\n"@,
        chart.measures_view(),
        columns_of(chart.column_count),
        sm_file.offset as int,
        chart.measures@.len() as int,
    )
}

/// Why the timing points of `tl` cannot be written, if they cannot.
pub open spec fn emit_error(tl: Seq<(i64, i64)>) -> Option<TimingError> {
    if tl.len() == 0 {
        None
    } else if !timeline_wf(tl) {
        Some(TimingError::Disordered)
    } else if !tempos_positive(tl) {
        Some(TimingError::NonPositiveTempo)
    } else if event_time(tl, tl.len() - 1) > u64::MAX {
        Some(TimingError::Overflow)
    } else {
        None
    }
}

/// A time in microseconds, with the offset added, as whole milliseconds.
pub fn millis_of(time: u64, offset: u64) -> (millis: i64)
    ensures
        millis == clamp_millis(time + offset),
{
    let total: u128 = (time as u128 + offset as u128) / 1000;
    if total > i32::MAX as u128 {
        i32::MAX as i64
    } else {
        total as i64
    }
}

/// The horizontal place of column `index` of `columns`.
pub fn column_place(index: usize, columns: u32) -> (x: i64)
    requires
        columns > 0,
    ensures
        x == column_x(index as int, columns as int),
{
    let scaled: u128 = (2 * (index as u128) + 1) * 256;
    let x: u128 = scaled / (columns as u128);
    if x > i32::MAX as u128 {
        i32::MAX as i64
    } else {
        x as i64
    }
}

/// Writes one timing point at the end of `out`.
fn push_timing_point(out: &mut String, millis: i64, length: i64)
    ensures
        final(out)@ == with_timing_point(old(out)@, millis as int, length as int),
{
    push_integer(out, millis);
    out.append(",");
    push_fixed(out, length);
    out.append(",4,2,0,100,1,0\n");
}

/// Writes the timing points of the timeline at the end of `out`. Fails where
/// the time of an event does not fit.
fn push_timing_points(out: &mut String, tl: &[(i64, i64)], offset: u64) -> (res: Result<
    (),
    TimingError,
>)
    requires
        tl@.len() > 0,
        timeline_wf(tl@),
        tempos_positive(tl@),
    ensures
        match res {
            Ok(()) => {
                &&& event_time(tl@, tl@.len() - 1) <= u64::MAX
                &&& final(out)@ == with_timing_points(
                    old(out)@,
                    tl@,
                    offset as int,
                    tl@.len() as int,
                )
            },
            Err(e) => e == TimingError::Overflow && event_time(tl@, tl@.len() - 1) > u64::MAX,
        },
{
    let mut state = TimingState::start(tl);
    let mut i: usize = 0;
    while i < tl.len()
        invariant
            timeline_wf(tl@),
            tempos_positive(tl@),
            i <= tl@.len(),
            state.wf(tl@),
            i > 0 ==> 0 <= event_time(tl@, i - 1) <= u64::MAX,
            state.row == 0 || (i > 0 && state.row == tl@[i - 1].0),
            out@ == with_timing_points(old(out)@, tl@, offset as int, i as int),
        decreases tl.len() - i,
    {
        let event = tl[i];
        proof {
            lemma_event_time_monotone(tl@, i as int, tl@.len() - 1);
            if i > 0 {
                assert(tl@[i - 1].0 < tl@[i as int].0);
            }
        }
        let time: u64 = if event.0 <= 0 {
            proof {
                crate::timing::lemma_event_time_before_origin(tl@, i as int);
            }
            0
        } else {
            match state.advance_to(tl, event.0) {
                Ok(reached) => {
                    state = reached;
                    proof {
                        lemma_time_at_event(tl@, i as int);
                    }
                    reached.time
                },
                Err(e) => {
                    proof {
                        lemma_time_at_event(tl@, i as int);
                    }
                    return Err(e);
                },
            }
        };
        let length: i64 = (60_000_000_000_000_000u64 / (event.1 as u64)) as i64;
        push_timing_point(out, millis_of(time, offset), length);
        i += 1;
    }
    Ok(())
}

/// Writes one hit object at the end of `out`.
fn push_hit_object(out: &mut String, x: i64, millis: i64)
    ensures
        final(out)@ == with_hit_object(old(out)@, x as int, millis as int),
{
    push_integer(out, x);
    out.append(",192,");
    push_integer(out, millis);
    out.append(",1,0,0:0:0:0:\n");
}

/// Writes a hit object for each note of a note-line at the end of `out`.
fn push_notes(out: &mut String, beat: &Beat, columns: u32, offset: u64)
    requires
        columns > 0,
    ensures
        final(out)@ == with_notes(
            old(out)@,
            beat@.notes,
            columns as int,
            clamp_millis(beat@.time + offset),
            beat@.notes.len() as int,
        ),
{
    let millis = millis_of(beat.time, offset);
    let mut i: usize = 0;
    while i < beat.notes.len()
        invariant
            columns > 0,
            i <= beat.notes@.len(),
            millis == clamp_millis(beat@.time + offset),
            out@ == with_notes(old(out)@, beat@.notes, columns as int, millis as int, i as int),
        decreases beat.notes.len() - i,
    {
        if beat.notes[i] {
            push_hit_object(out, column_place(i, columns), millis);
        }
        i += 1;
    }
}

/// Writes the hit objects of a measure at the end of `out`.
fn push_beats(out: &mut String, measure: &Measure, columns: u32, offset: u64)
    requires
        columns > 0,
    ensures
        final(out)@ == with_beats(
            old(out)@,
            measure@.beats,
            columns as int,
            offset as int,
            measure@.beats.len() as int,
        ),
{
    let mut i: usize = 0;
    while i < measure.beats.len()
        invariant
            columns > 0,
            i <= measure.beats@.len(),
            measure@.beats.len() == measure.beats@.len(),
            out@ == with_beats(old(out)@, measure@.beats, columns as int, offset as int, i as int),
        decreases measure.beats.len() - i,
    {
        assert(measure@.beats[i as int] == measure.beats@[i as int]@);
        push_notes(out, &measure.beats[i], columns, offset);
        i += 1;
    }
}

/// Writes the hit objects of a chart at the end of `out`.
fn push_measures(out: &mut String, chart: &Chart, columns: u32, offset: u64)
    requires
        columns > 0,
    ensures
        final(out)@ == with_measures(
            old(out)@,
            chart.measures_view(),
            columns as int,
            offset as int,
            chart.measures@.len() as int,
        ),
{
    let mut i: usize = 0;
    while i < chart.measures.len()
        invariant
            columns > 0,
            i <= chart.measures@.len(),
            out@ == with_measures(
                old(out)@,
                chart.measures_view(),
                columns as int,
                offset as int,
                i as int,
            ),
        decreases chart.measures.len() - i,
    {
        assert(chart.measures_view()[i as int] == chart.measures@[i as int]@);
        push_beats(out, &chart.measures[i], columns, offset);
        i += 1;
    }
}

/// Writes the sections before the timing points at the end of `out`.
fn push_opening(out: &mut String, sm_file: &SmFile, chart: &Chart, settings: &OsuSettings)
    ensures
        final(out)@ == with_events(
            with_difficulty(
                with_metadata(
                    with_general(old(out)@, sm_file.metadata.music@),
                    sm_file.metadata.title@,
                    sm_file.metadata.artist@,
                    sm_file.metadata.credit@,
                    chart.difficulty@,
                ),
                settings.hp as int,
                settings.od as int,
            ),
            sm_file.metadata.background@,
        ),
{
    out.append("osu file format v14\n\n[General]\nAudioFilename: ");
    out.append(sm_file.metadata.music.as_str());
    out.append(
        "\nAudioLeadIn: 0\nPreviewTime: -1\nCountdown: 0\nSampleSet: Normal\nStackLeniency: 0.7\nMode: 3\nLetterboxInBreaks: 0\nWidescreenStoryboard: 0\n\n[Editor]\n\n",
    );
    out.append("[Metadata]\nTitle:");
    out.append(sm_file.metadata.title.as_str());
    out.append("\nTitleUnicode:");
    out.append(sm_file.metadata.title.as_str());
    out.append("\nArtist:");
    out.append(sm_file.metadata.artist.as_str());
    out.append("\nArtistUnicode:");
    out.append(sm_file.metadata.artist.as_str());
    out.append("\nCreator:");
    out.append(sm_file.metadata.credit.as_str());
    out.append("\nVersion:");
    out.append(chart.difficulty.as_str());
    out.append("\nSource:\nTags: rOtterna\nBeatmapID: 0\nBeatmapSetID: -1\n\n");
    out.append("[Difficulty]\nHPDrainRate: ");
    push_fixed(out, settings.hp);
    out.append("\nCircleSize: 4\nOverallDifficulty: ");
    push_fixed(out, settings.od);
    out.append("\nApproachRate: 5\nSliderMultiplier: 1.4\nSliderTickRate: 1\n\n");
    out.append("[Events]\n//Background and Video events\n");
    if !sm_file.metadata.background.as_str().is_empty() {
        out.append("0,0,\"");
        out.append(sm_file.metadata.background.as_str());
        out.append("\",0,0\n");
    }
    out.append(
        "//Break Periods\n//Storyboard Layer 0 (Background)\n//Storyboard Layer 1 (Fail)\n//Storyboard Layer 2 (Pass)\n//Storyboard Layer 3 (Foreground)\n//Storyboard Sound Samples\n\n",
    );
}

/// Writes `chart` as a beatmap: the fixed sections with the metadata of the
/// file and the settings, one timing point for each tempo event, and one hit
/// object for each note.
///
/// A timeline that is not empty must be in order and hold positive tempos
/// only, and the time of its last event must fit; else the error says in
/// words what is wrong.
pub fn create_basic_osu(sm_file: &SmFile, chart: &Chart, settings: &OsuSettings) -> (res: Result<
    String,
    String,
>)
    ensures
        match res {
            Ok(text) => emit_error(sm_file.bpms@) is None && text@ == osu_text(
                sm_file,
                chart,
                settings,
            ),
            Err(msg) => emit_error(sm_file.bpms@) matches Some(e) && msg@ == e.message_spec(),
        },
{
    let mut osu = String::new();
    push_opening(&mut osu, sm_file, chart, settings);
    osu.append("[TimingPoints]\n");
    if sm_file.bpms.len() == 0 {
        push_timing_point(&mut osu, millis_of(0, sm_file.offset), 500_000_000);
    } else {
        if !is_timeline(sm_file.bpms.as_slice()) {
            return Err(TimingError::Disordered.message());
        }
        if !all_tempos_positive(sm_file.bpms.as_slice()) {
            return Err(TimingError::NonPositiveTempo.message());
        }
        match push_timing_points(&mut osu, sm_file.bpms.as_slice(), sm_file.offset) {
            Ok(()) => {},
            Err(e) => {
                return Err(e.message());
            },
        }
    }
    osu.append("\n[HitObjects]\n");
    let columns: u32 = if chart.column_count > 0 {
        chart.column_count
    } else {
        4
    };
    push_measures(&mut osu, chart, columns, sm_file.offset);
    Ok(osu)
}

/// A column of the chart lies on the field: its place is below 512.
pub proof fn lemma_column_on_field(index: int, columns: int)
    requires
        0 <= index < columns,
    ensures
        0 <= column_x(index, columns) < 512,
{
    let scaled = (2 * index + 1) * 256;
    assert(0 <= scaled < 512 * columns);
    assert(0 <= scaled / columns < 512) by (nonlinear_arith)
        requires
            0 <= scaled < 512 * columns,
            columns > 0,
    ;
}

} // verus!
