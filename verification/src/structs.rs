//! The data of a song file.
//!
//! Numbers are fixed-point integers: positions, tempos, durations and radar
//! values are stored in millionths, times in whole microseconds.

use vstd::prelude::*;
use crate::utils::{field_value, first_group, parse_field};

verus! {

/// A parsed song file.
#[derive(Debug, Clone)]
pub struct SmFile {
    pub metadata: Metadata,
    /// The global offset, in microseconds; never negative.
    pub offset: u64,
    /// The tempo timeline: `(row, bpm)` pairs, both in millionths.
    pub bpms: Vec<(i64, i64)>,
    /// The pauses: `(row, duration)` pairs, both in millionths (of a row, of a
    /// second). They are kept for the reader and take no part in the timing.
    pub stops: Vec<(i64, i64)>,
    pub charts: Vec<Chart>,
}

impl SmFile {
    /// A file with nothing in it.
    pub fn new() -> (sm: SmFile)
        ensures
            sm.metadata.is_blank(),
            sm.offset == 0,
            sm.bpms@.len() == 0,
            sm.stops@.len() == 0,
            sm.charts@.len() == 0,
    {
        SmFile {
            metadata: Metadata::new(),
            offset: 0,
            bpms: Vec::new(),
            stops: Vec::new(),
            charts: Vec::new(),
        }
    }
}

/// The descriptive fields of a song file, as mathematical values.
pub struct MetadataView {
    pub title: Seq<char>,
    pub subtitle: Seq<char>,
    pub artist: Seq<char>,
    pub title_translit: Seq<char>,
    pub artist_translit: Seq<char>,
    pub credit: Seq<char>,
    pub music: Seq<char>,
    pub banner: Seq<char>,
    pub background: Seq<char>,
}

impl MetadataView {
    /// The metadata with every field empty.
    pub open spec fn blank() -> MetadataView {
        MetadataView {
            title: Seq::empty(),
            subtitle: Seq::empty(),
            artist: Seq::empty(),
            title_translit: Seq::empty(),
            artist_translit: Seq::empty(),
            credit: Seq::empty(),
            music: Seq::empty(),
            banner: Seq::empty(),
            background: Seq::empty(),
        }
    }
}

impl View for Metadata {
    type V = MetadataView;

    open spec fn view(&self) -> MetadataView {
        MetadataView {
            title: self.title@,
            subtitle: self.subtitle@,
            artist: self.artist@,
            title_translit: self.title_translit@,
            artist_translit: self.artist_translit@,
            credit: self.credit@,
            music: self.music@,
            banner: self.banner@,
            background: self.background@,
        }
    }
}

/// The descriptive fields of a song file.
#[derive(Debug, Clone)]
pub struct Metadata {
    pub title: String,
    pub subtitle: String,
    pub artist: String,
    pub title_translit: String,
    pub artist_translit: String,
    pub credit: String,
    pub music: String,
    pub banner: String,
    pub background: String,
}

impl Metadata {
    /// Every field is empty.
    pub open spec fn is_blank(&self) -> bool {
        self@ == MetadataView::blank()
    }

    /// Every field holds what its declaration in `content` gives, or what it
    /// holds in `before` where `content` has no such declaration. A declaration
    /// is `#NAME:value;` on one line; the value is trimmed.
    pub open spec fn is_parse_of(&self, content: Seq<char>, before: MetadataView) -> bool {
        &&& self.title@ == field_value(first_group("#TITLE:(.*?);"@, content), before.title)
        &&& self.subtitle@ == field_value(
            first_group("#SUBTITLE:(.*?);"@, content),
            before.subtitle,
        )
        &&& self.artist@ == field_value(first_group("#ARTIST:(.*?);"@, content), before.artist)
        &&& self.title_translit@ == field_value(
            first_group("#TITLETRANSLIT:(.*?);"@, content),
            before.title_translit,
        )
        &&& self.artist_translit@ == field_value(
            first_group("#ARTISTTRANSLIT:(.*?);"@, content),
            before.artist_translit,
        )
        &&& self.credit@ == field_value(first_group("#CREDIT:(.*?);"@, content), before.credit)
        &&& self.music@ == field_value(first_group("#MUSIC:(.*?);"@, content), before.music)
        &&& self.banner@ == field_value(first_group("#BANNER:(.*?);"@, content), before.banner)
        &&& self.background@ == field_value(
            first_group("#BACKGROUND:(.*?);"@, content),
            before.background,
        )
    }

    /// Metadata with every field empty.
    pub fn new() -> (metadata: Metadata)
        ensures
            metadata.is_blank(),
    {
        Metadata {
            title: String::new(),
            subtitle: String::new(),
            artist: String::new(),
            title_translit: String::new(),
            artist_translit: String::new(),
            credit: String::new(),
            music: String::new(),
            banner: String::new(),
            background: String::new(),
        }
    }

    /// Sets each field that `content` declares; the others keep their values.
    pub fn parse(&mut self, content: &str)
        ensures
            final(self).is_parse_of(content@, old(self)@),
    {
        parse_field(content, "#TITLE:(.*?);", &mut self.title);
        parse_field(content, "#SUBTITLE:(.*?);", &mut self.subtitle);
        parse_field(content, "#ARTIST:(.*?);", &mut self.artist);
        parse_field(content, "#TITLETRANSLIT:(.*?);", &mut self.title_translit);
        parse_field(content, "#ARTISTTRANSLIT:(.*?);", &mut self.artist_translit);
        parse_field(content, "#CREDIT:(.*?);", &mut self.credit);
        parse_field(content, "#MUSIC:(.*?);", &mut self.music);
        parse_field(content, "#BANNER:(.*?);", &mut self.banner);
        parse_field(content, "#BACKGROUND:(.*?);", &mut self.background);
    }
}

/// One difficulty of a song: its header and its timed measures.
#[derive(Debug, Clone)]
pub struct Chart {
    pub stepstype: String,
    pub description: String,
    pub difficulty: String,
    pub meter: u32,
    /// The radar values, in millionths.
    pub radar_values: Vec<i64>,
    /// The number of columns: the width of the widest note-line, 0 where the
    /// chart has no note-line.
    pub column_count: u32,
    pub measures: Vec<Measure>,
}

impl Chart {
    /// The measures of the chart as mathematical values.
    pub open spec fn measures_view(&self) -> Seq<MeasureView> {
        Seq::new(self.measures@.len(), |k: int| self.measures@[k]@)
    }

    /// A chart with an empty header and no measure.
    pub fn new() -> (chart: Chart)
        ensures
            chart.stepstype@.len() == 0,
            chart.description@.len() == 0,
            chart.difficulty@.len() == 0,
            chart.meter == 0,
            chart.radar_values@.len() == 0,
            chart.column_count == 0,
            chart.measures@.len() == 0,
    {
        Chart {
            stepstype: String::new(),
            description: String::new(),
            difficulty: String::new(),
            meter: 0,
            radar_values: Vec::new(),
            column_count: 0,
            measures: Vec::new(),
        }
    }
}

/// A measure: the time at which it starts and its note-lines, each with its
/// timestamp.
#[derive(Debug, Clone)]
pub struct Measure {
    pub beats: Vec<Beat>,
    /// Microseconds from the start of the chart.
    pub start_time: u64,
}

/// A measure as a mathematical value.
pub struct MeasureView {
    pub start_time: int,
    pub beats: Seq<BeatView>,
}

impl View for Measure {
    type V = MeasureView;

    open spec fn view(&self) -> MeasureView {
        MeasureView {
            start_time: self.start_time as int,
            beats: Seq::new(self.beats@.len(), |i: int| self.beats@[i]@),
        }
    }
}

impl Measure {
    /// A measure without note-lines, at time 0.
    pub fn new() -> (measure: Measure)
        ensures
            measure.beats@.len() == 0,
            measure.start_time == 0,
    {
        Measure { beats: Vec::new(), start_time: 0 }
    }
}

/// A note-line: its timestamp and, for each column, whether a note is there.
#[derive(Debug, Clone)]
pub struct Beat {
    /// Microseconds from the start of the chart.
    pub time: u64,
    pub notes: Vec<bool>,
}

/// A note-line as a mathematical value.
pub struct BeatView {
    pub time: int,
    pub notes: Seq<bool>,
}

impl View for Beat {
    type V = BeatView;

    open spec fn view(&self) -> BeatView {
        BeatView { time: self.time as int, notes: self.notes@ }
    }
}

impl Beat {
    /// A note-line without columns, at time 0.
    pub fn new() -> (beat: Beat)
        ensures
            beat.time == 0,
            beat.notes@.len() == 0,
    {
        Beat { time: 0, notes: Vec::new() }
    }
}

/// The difficulty settings that a beatmap is written with, in millionths.
pub struct OsuSettings {
    /// Overall difficulty.
    pub od: i64,
    /// Drain rate.
    pub hp: i64,
}

} // verus!
