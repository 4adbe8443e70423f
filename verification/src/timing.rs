//! The tempo timeline and the walk that turns rows into timestamps.
//!
//! Every quantity is an integer. Positions and tempos are stored in millionths
//! (of a row, of a beat per minute); times are whole microseconds. A tempo
//! timeline is a sequence of `(row, bpm)` pairs.
//!
//! Within one tempo segment the time of a row is exact up to rounding down to a
//! whole microsecond, however many steps lead to the row: the walk carries the
//! remainder of its last division along. At a tempo change the remainder is
//! dropped, so each change costs less than one microsecond.

use vstd::prelude::*;

verus! {

/// The rows of one beat.
pub const ROWS_PER_BEAT: i64 = 48;

/// One measure (192 rows), in stored position units.
pub const MEASURE_SPAN: i64 = 192_000_000;

/// Microseconds that one stored position unit lasts at a tempo of one stored
/// unit: a minute has 60 000 000 microseconds and a beat 48 rows.
pub const TICKS_PER_UNIT: u64 = 1_250_000;

/// The tempo that a timeline gets at row 0 when none is declared there
/// (120 beats per minute).
pub const DEFAULT_TEMPO: i64 = 120_000_000;

/// Why a chart cannot be timed.
#[derive(Clone, Copy, Debug, PartialEq, Eq, Structural)]
pub enum TimingError {
    /// The timeline holds a tempo that is zero or negative.
    NonPositiveTempo,
    /// A row or a timestamp of the chart does not fit its integer type.
    Overflow,
    /// The rows of the timeline do not strictly increase, or none of them is
    /// row 0.
    Disordered,
}

impl TimingError {
    /// The error in words.
    pub open spec fn message_spec(&self) -> Seq<char> {
        match self {
            TimingError::NonPositiveTempo => "the tempo timeline holds a tempo that is not positive"@,
            TimingError::Overflow => "the chart is too long to be timed"@,
            TimingError::Disordered => "the tempo timeline is out of order"@,
        }
    }

    /// The error in words.
    pub fn message(&self) -> (text: String)
        ensures
            text@ == self.message_spec(),
    {
        match self {
            TimingError::NonPositiveTempo => "the tempo timeline holds a tempo that is not positive".to_owned(),
            TimingError::Overflow => "the chart is too long to be timed".to_owned(),
            TimingError::Disordered => "the tempo timeline is out of order".to_owned(),
        }
    }
}

/// Rows strictly increase along the timeline.
pub open spec fn rows_increasing(tl: Seq<(i64, i64)>) -> bool {
    forall|i: int, j: int| 0 <= i < j < tl.len() ==> tl[i].0 < tl[j].0
}

/// Some event sits at row 0.
pub open spec fn has_origin(tl: Seq<(i64, i64)>) -> bool {
    exists|i: int| 0 <= i < tl.len() && tl[i].0 == 0
}

/// The invariant of a tempo timeline: strictly increasing rows, one of them 0.
pub open spec fn timeline_wf(tl: Seq<(i64, i64)>) -> bool {
    rows_increasing(tl) && has_origin(tl)
}

/// Every tempo of the timeline is positive.
pub open spec fn tempos_positive(tl: Seq<(i64, i64)>) -> bool {
    forall|i: int| 0 <= i < tl.len() ==> (#[trigger] tl[i]).1 > 0
}

/// The numerator of the time that `rows` position units take: dividing it by
/// the tempo gives microseconds.
pub open spec fn span_ticks(rows: int) -> int {
    rows * 1_250_000
}

/// Whole microseconds that `rows` position units take at tempo `bpm`.
pub open spec fn span_time(rows: int, bpm: int) -> int {
    span_ticks(rows) / bpm
}

/// The time at which event `i` takes effect. Events at or before row 0 are in
/// effect from time 0; a later one starts where the segment before it ends.
pub open spec fn event_time(tl: Seq<(i64, i64)>, i: int) -> int
    decreases i,
{
    if i <= 0 || i >= tl.len() || tl[i - 1].0 < 0 {
        0
    } else {
        event_time(tl, i - 1) + span_time(tl[i].0 - tl[i - 1].0, tl[i - 1].1 as int)
    }
}

/// Among the first `n` events, the index of the last one placed at or before
/// `row` (0 if there is none).
pub open spec fn active_below(tl: Seq<(i64, i64)>, row: int, n: nat) -> int
    decreases n,
{
    if n <= 1 {
        0
    } else if tl[n - 1].0 <= row {
        n - 1
    } else {
        active_below(tl, row, (n - 1) as nat)
    }
}

/// The index of the event in force at `row`.
pub open spec fn active_index(tl: Seq<(i64, i64)>, row: int) -> int {
    active_below(tl, row, tl.len())
}

/// The tempo in force at `row`.
pub open spec fn tempo_at(tl: Seq<(i64, i64)>, row: int) -> int {
    tl[active_index(tl, row)].1 as int
}

/// The timestamp of `row`, in microseconds from row 0: the time at which the
/// event in force took effect, plus the time from that event to `row` at its
/// tempo.
pub open spec fn time_at(tl: Seq<(i64, i64)>, row: int) -> int {
    let j = active_index(tl, row);
    event_time(tl, j) + span_time(row - tl[j].0, tl[j].1 as int)
}

/// What is left over, at `row`, of the division that `time_at` rounds down.
pub open spec fn carry_at(tl: Seq<(i64, i64)>, row: int) -> int {
    let j = active_index(tl, row);
    span_ticks(row - tl[j].0) % (tl[j].1 as int)
}

/// The state of the walk along the timeline.
#[derive(Clone, Copy, Debug, PartialEq, Eq, Structural)]
pub struct TimingState {
    /// Whole microseconds elapsed at `row`.
    pub time: u64,
    /// Remainder of the last division by `bpm`, carried to the next step.
    pub carry: u64,
    /// The row reached.
    pub row: i64,
    /// The tempo in force.
    pub bpm: i64,
    /// The cursor: how many tempo events have taken effect.
    pub index: usize,
}

/// Whether `tl` is a tempo timeline: its rows strictly increase, and one of
/// them is row 0.
pub fn is_timeline(tl: &[(i64, i64)]) -> (b: bool)
    ensures
        b == timeline_wf(tl@),
{
    let mut origin = false;
    let mut i: usize = 0;
    while i < tl.len()
        invariant
            i <= tl@.len(),
            forall|a: int, b: int| 0 <= a < b < i ==> tl@[a].0 < tl@[b].0,
            origin == exists|k: int| 0 <= k < i && tl@[k].0 == 0,
        decreases tl.len() - i,
    {
        if i > 0 && tl[i - 1].0 >= tl[i].0 {
            assert(!(tl@[i - 1].0 < tl@[i as int].0));
            return false;
        }
        proof {
            assert forall|a: int, b: int| 0 <= a < b < i + 1 implies tl@[a].0 < tl@[b].0 by {
                if b == i && a < i - 1 {
                    assert(tl@[a].0 < tl@[i - 1].0);
                }
            }
        }
        if tl[i].0 == 0 {
            origin = true;
        }
        i += 1;
    }
    origin
}

impl TimingState {
    /// The state stands at `self.row` with the first `self.index` events
    /// applied, and its time is the one that the timeline gives to that row.
    pub open spec fn wf(&self, tl: Seq<(i64, i64)>) -> bool {
        let j = self.index - 1;
        &&& 1 <= self.index <= tl.len()
        &&& 0 <= tl[j].0 <= self.row
        &&& self.index < tl.len() ==> self.row <= tl[self.index as int].0
        &&& self.bpm == tl[j].1
        &&& self.time == event_time(tl, j) + span_time(self.row - tl[j].0, self.bpm as int)
        &&& self.carry == span_ticks(self.row - tl[j].0) % (self.bpm as int)
    }

    /// No event at or before the row reached is still waiting.
    pub open spec fn settled(&self, tl: Seq<(i64, i64)>) -> bool {
        self.index < tl.len() ==> self.row < tl[self.index as int].0
    }

    /// The state at the start of a chart: row 0, time 0, the tempo of the
    /// event at row 0 in force.
    pub fn start(tl: &[(i64, i64)]) -> (st: TimingState)
        requires
            timeline_wf(tl@),
            tempos_positive(tl@),
        ensures
            st.wf(tl@),
            st.row == 0,
            st.time == 0,
            st.carry == 0,
            st.index >= 1,
            tl@[st.index - 1].0 == 0,
    {
        let mut i: usize = 0;
        let ghost origin = choose|o: int| 0 <= o < tl@.len() && tl@[o].0 == 0;
        while tl[i].0 < 0
            invariant
                rows_increasing(tl@),
                0 <= origin < tl@.len(),
                tl@[origin].0 == 0,
                i <= origin,
            decreases tl@.len() - i,
        {
            i += 1;
        }
        proof {
            if i < origin {
                assert(tl@[i as int].0 < tl@[origin].0);
            }
            assert(i == origin);
            lemma_event_time_before_origin(tl@, i as int);
            lemma_span_zero(tl@[i as int].1 as int);
        }
        TimingState { time: 0, carry: 0, row: 0, bpm: tl[i].1, index: i + 1 }
    }

    /// Moves to `row` inside the tempo segment in force, adding the time that
    /// the rows in between take at the current tempo.
    pub fn glide(self, tl: &[(i64, i64)], row: i64) -> (res: Result<TimingState, TimingError>)
        requires
            self.wf(tl@),
            self.bpm > 0,
            self.row <= row,
            self.index < tl@.len() ==> row <= tl@[self.index as int].0,
        ensures
            match res {
                Ok(st) => {
                    &&& st.wf(tl@)
                    &&& st.row == row
                    &&& st.index == self.index
                    &&& st.bpm == self.bpm
                    &&& st.time >= self.time
                },
                Err(e) => {
                    &&& e == TimingError::Overflow
                    &&& event_time(tl@, self.index - 1) + span_time(
                        row - tl@[self.index - 1].0,
                        self.bpm as int,
                    ) > u64::MAX
                },
            },
    {
        let delta: i64 = row - self.row;
        let total: u128 = self.carry as u128 + (delta as u128) * (TICKS_PER_UNIT as u128);
        let whole: u128 = total / (self.bpm as u128);
        let rest: u128 = total % (self.bpm as u128);
        proof {
            let anchor = tl@[self.index - 1].0 as int;
            let a = span_ticks(self.row - anchor);
            let d = span_ticks(row - self.row);
            assert(span_ticks(row - anchor) == a + d) by (nonlinear_arith)
                requires
                    a == (self.row - anchor) * 1_250_000,
                    d == (row - self.row) * 1_250_000,
                    span_ticks(row - anchor) == (row - anchor) * 1_250_000,
            ;
            assert(a >= 0 && d >= 0) by (nonlinear_arith)
                requires
                    a == (self.row - anchor) * 1_250_000,
                    d == (row - self.row) * 1_250_000,
                    self.row >= anchor,
                    row >= self.row,
            ;
            lemma_div_mod_step(a, d, self.bpm as int);
            assert(total == a % (self.bpm as int) + d);
        }
        let time: u128 = self.time as u128 + whole;
        if time > u64::MAX as u128 {
            Err(TimingError::Overflow)
        } else {
            Ok(
                TimingState {
                    time: time as u64,
                    carry: rest as u64,
                    row,
                    bpm: self.bpm,
                    index: self.index,
                },
            )
        }
    }

    /// Advances to `target`: every tempo event at or before it takes effect in
    /// turn, the rows up to each event counted at the tempo before it, and the
    /// rest of the way at the last tempo.
    pub fn advance_to(self, tl: &[(i64, i64)], target: i64) -> (res: Result<
        TimingState,
        TimingError,
    >)
        requires
            timeline_wf(tl@),
            tempos_positive(tl@),
            self.wf(tl@),
            self.row <= target,
        ensures
            match res {
                Ok(st) => {
                    &&& st.wf(tl@)
                    &&& st.settled(tl@)
                    &&& st.row == target
                    &&& st.time == time_at(tl@, target as int)
                    &&& st.carry == carry_at(tl@, target as int)
                    &&& st.bpm == tempo_at(tl@, target as int)
                },
                Err(e) => e == TimingError::Overflow && time_at(tl@, target as int) > u64::MAX,
            },
    {
        let mut st = self;
        while st.index < tl.len() && tl[st.index].0 <= target
            invariant
                timeline_wf(tl@),
                tempos_positive(tl@),
                st.wf(tl@),
                st.row <= target,
            decreases tl@.len() - st.index,
        {
            let event = tl[st.index];
            match st.glide(tl, event.0) {
                Ok(at_event) => {
                    proof {
                        lemma_span_zero(event.1 as int);
                    }
                    st =
                    TimingState {
                        time: at_event.time,
                        carry: 0,
                        row: at_event.row,
                        bpm: event.1,
                        index: at_event.index + 1,
                    };
                },
                Err(e) => {
                    proof {
                        lemma_time_at_event(tl@, st.index as int);
                        lemma_time_monotone(tl@, event.0 as int, target as int);
                    }
                    return Err(e);
                },
            }
        }
        let res = st.glide(tl, target);
        proof {
            lemma_active_index(tl@, st.index - 1, target as int);
        }
        res
    }
}

/// Splitting a division: the quotient and the remainder of `a + d` follow from
/// the quotient and the remainder of `a`.
pub proof fn lemma_div_mod_step(a: int, d: int, b: int)
    by (nonlinear_arith)
    requires
        a >= 0,
        d >= 0,
        b > 0,
    ensures
        (a + d) / b == a / b + (a % b + d) / b,
        (a + d) % b == (a % b + d) % b,
{
    let q = a / b;
    let r = a % b;
    assert(a == q * b + r);
    assert(0 <= r < b);
    let q2 = (r + d) / b;
    let r2 = (r + d) % b;
    assert(r + d == q2 * b + r2);
    assert(0 <= r2 < b);
    assert(a + d == (q + q2) * b + r2);
    vstd::arithmetic::div_mod::lemma_fundamental_div_mod_converse(a + d, b, q + q2, r2);
}

/// No rows take no time.
pub proof fn lemma_span_zero(bpm: int)
    requires
        bpm > 0,
    ensures
        span_time(0, bpm) == 0,
        span_ticks(0) % bpm == 0,
{
    assert(span_ticks(0) == 0);
    assert(0int / bpm == 0 && 0int % bpm == 0) by (nonlinear_arith)
        requires
            bpm > 0,
    ;
}

/// Time grows with the rows covered.
pub proof fn lemma_span_monotone(r1: int, r2: int, bpm: int)
    requires
        0 <= r1 <= r2,
        bpm > 0,
    ensures
        0 <= span_time(r1, bpm) <= span_time(r2, bpm),
{
    assert(0 <= span_ticks(r1) <= span_ticks(r2));
    vstd::arithmetic::div_mod::lemma_div_is_ordered(span_ticks(r1), span_ticks(r2), bpm);
    vstd::arithmetic::div_mod::lemma_div_pos_is_pos(span_ticks(r1), bpm);
}

/// An event at or before row 0 is in effect from time 0.
pub proof fn lemma_event_time_before_origin(tl: Seq<(i64, i64)>, i: int)
    requires
        rows_increasing(tl),
        0 <= i < tl.len(),
        tl[i].0 <= 0,
    ensures
        event_time(tl, i) == 0,
{
    if i > 0 {
        assert(tl[i - 1].0 < tl[i].0);
    }
}

/// The event in force at `row` is the last one placed at or before it.
pub proof fn lemma_active_index(tl: Seq<(i64, i64)>, j: int, row: int)
    requires
        rows_increasing(tl),
        0 <= j < tl.len(),
        tl[j].0 <= row,
        j + 1 < tl.len() ==> row < tl[j + 1].0,
    ensures
        active_index(tl, row) == j,
{
    lemma_active_below(tl, j, row, tl.len());
}

/// `lemma_active_index`, among the first `n` events.
proof fn lemma_active_below(tl: Seq<(i64, i64)>, j: int, row: int, n: nat)
    requires
        rows_increasing(tl),
        0 <= j < n <= tl.len(),
        tl[j].0 <= row,
        j + 1 < tl.len() ==> row < tl[j + 1].0,
    ensures
        active_below(tl, row, n) == j,
    decreases n,
{
    if n <= 1 {
    } else if n - 1 == j {
    } else {
        assert(tl[j + 1].0 <= tl[n - 1].0);
        lemma_active_below(tl, j, row, (n - 1) as nat);
    }
}

/// What `active_index` returns: an index of the timeline whose event is the
/// last one at or before `row`, when there is one.
pub proof fn lemma_active_index_bounds(tl: Seq<(i64, i64)>, row: int)
    requires
        rows_increasing(tl),
        tl.len() > 0,
        tl[0].0 <= row,
    ensures
        0 <= active_index(tl, row) < tl.len(),
        tl[active_index(tl, row)].0 <= row,
        active_index(tl, row) + 1 < tl.len() ==> row < tl[active_index(tl, row) + 1].0,
{
    lemma_active_below_bounds(tl, row, tl.len());
}

/// `lemma_active_index_bounds`, among the first `n` events.
proof fn lemma_active_below_bounds(tl: Seq<(i64, i64)>, row: int, n: nat)
    requires
        rows_increasing(tl),
        0 < n <= tl.len(),
        tl[0].0 <= row,
    ensures
        0 <= active_below(tl, row, n) < n,
        tl[active_below(tl, row, n)].0 <= row,
        active_below(tl, row, n) + 1 < n ==> row < tl[active_below(tl, row, n) + 1].0,
    decreases n,
{
    if n <= 1 {
    } else if tl[n - 1].0 <= row {
    } else {
        lemma_active_below_bounds(tl, row, (n - 1) as nat);
    }
}

/// At the row of an event the timestamp is the time at which the event takes
/// effect, which is also where the segment before it ends.
pub proof fn lemma_time_at_event(tl: Seq<(i64, i64)>, i: int)
    requires
        timeline_wf(tl),
        tempos_positive(tl),
        0 <= i < tl.len(),
        0 <= tl[i].0,
    ensures
        time_at(tl, tl[i].0 as int) == event_time(tl, i),
        i > 0 && 0 <= tl[i - 1].0 ==> event_time(tl, i) == event_time(tl, i - 1) + span_time(
            tl[i].0 - tl[i - 1].0,
            tl[i - 1].1 as int,
        ),
{
    lemma_active_index(tl, i, tl[i].0 as int);
    lemma_span_zero(tl[i].1 as int);
}

/// A well-formed state holds the timestamp of its row.
pub proof fn lemma_state_time(tl: Seq<(i64, i64)>, st: TimingState)
    requires
        timeline_wf(tl),
        tempos_positive(tl),
        st.wf(tl),
    ensures
        st.time == time_at(tl, st.row as int),
{
    if st.index < tl.len() && st.row == tl[st.index as int].0 {
        lemma_time_at_event(tl, st.index as int);
    } else {
        lemma_active_index(tl, st.index - 1, st.row as int);
    }
}

/// Events take effect in the order of the timeline.
pub proof fn lemma_event_time_monotone(tl: Seq<(i64, i64)>, i: int, j: int)
    requires
        timeline_wf(tl),
        tempos_positive(tl),
        0 <= i <= j < tl.len(),
    ensures
        0 <= event_time(tl, i) <= event_time(tl, j),
    decreases j,
{
    if j == 0 {
    } else if i == j {
        lemma_event_time_monotone(tl, i - 1, j - 1);
        if tl[j - 1].0 >= 0 {
            lemma_span_monotone(0, tl[j].0 - tl[j - 1].0, tl[j - 1].1 as int);
        }
    } else {
        lemma_event_time_monotone(tl, i, j - 1);
        if tl[j - 1].0 >= 0 {
            lemma_span_monotone(0, tl[j].0 - tl[j - 1].0, tl[j - 1].1 as int);
        } else {
            assert(tl[i].0 <= tl[j - 1].0);
            lemma_event_time_before_origin(tl, i);
        }
    }
}

/// Timestamps never decrease along the rows.
pub proof fn lemma_time_monotone(tl: Seq<(i64, i64)>, r1: int, r2: int)
    requires
        timeline_wf(tl),
        tempos_positive(tl),
        0 <= r1 <= r2,
    ensures
        0 <= time_at(tl, r1) <= time_at(tl, r2),
{
    let origin = choose|o: int| 0 <= o < tl.len() && tl[o].0 == 0;
    assert(tl[0].0 <= tl[origin].0);
    lemma_active_index_bounds(tl, r1);
    lemma_active_index_bounds(tl, r2);
    let j1 = active_index(tl, r1);
    let j2 = active_index(tl, r2);
    assert(origin <= j1) by {
        if j1 < origin {
            assert(tl[j1 + 1].0 <= tl[origin].0);
        }
    }
    assert(j1 <= j2) by {
        if j2 < j1 {
            assert(tl[j2 + 1].0 <= tl[j1].0);
        }
    }
    assert(0 <= tl[origin].0 <= tl[j1].0);
    lemma_event_time_monotone(tl, 0, j1);
    lemma_span_monotone(0, r1 - tl[j1].0, tl[j1].1 as int);
    if j1 == j2 {
        lemma_span_monotone(r1 - tl[j1].0, r2 - tl[j1].0, tl[j1].1 as int);
    } else {
        assert(tl[j1 + 1].0 <= tl[j2].0);
        lemma_span_monotone(r1 - tl[j1].0, tl[j1 + 1].0 - tl[j1].0, tl[j1].1 as int);
        lemma_time_at_event(tl, j1 + 1);
        lemma_event_time_monotone(tl, j1 + 1, j2);
        lemma_span_monotone(0, r2 - tl[j2].0, tl[j2].1 as int);
    }
}

/// Between two rows with no tempo change from the one to the other, time
/// advances by exactly the ticks of the rows in between divided by the tempo:
/// what the two timestamps round away is in their carries. Where the tempo
/// divides the ticks, the two timestamps differ by exactly the quotient.
pub proof fn lemma_elapsed_at_constant_tempo(tl: Seq<(i64, i64)>, start: int, rows: int)
    requires
        timeline_wf(tl),
        tempos_positive(tl),
        0 <= start,
        0 <= rows,
        active_index(tl, start) == active_index(tl, start + rows),
    ensures
        tempo_at(tl, start) > 0,
        time_at(tl, start + rows) * tempo_at(tl, start) + carry_at(tl, start + rows) == time_at(
            tl,
            start,
        ) * tempo_at(tl, start) + carry_at(tl, start) + span_ticks(rows),
        span_ticks(rows) % tempo_at(tl, start) == 0 ==> time_at(tl, start + rows) - time_at(
            tl,
            start,
        ) == span_ticks(rows) / tempo_at(tl, start),
{
    let origin = choose|o: int| 0 <= o < tl.len() && tl[o].0 == 0;
    assert(tl[0].0 <= tl[origin].0);
    lemma_active_index_bounds(tl, start);
    let j = active_index(tl, start);
    let b = tl[j].1 as int;
    let e = event_time(tl, j);
    let a = span_ticks(start - tl[j].0);
    let d = span_ticks(rows);
    assert(span_ticks(start + rows - tl[j].0) == a + d);
    assert(a >= 0 && d >= 0);
    lemma_div_mod_step(a, d, b);
    let q1 = a / b;
    let r1 = a % b;
    let q2 = (a + d) / b;
    let r2 = (a + d) % b;
    assert(a == b * q1 + r1 && a + d == b * q2 + r2) by {
        vstd::arithmetic::div_mod::lemma_fundamental_div_mod(a, b);
        vstd::arithmetic::div_mod::lemma_fundamental_div_mod(a + d, b);
    }
    assert((e + q2) * b + r2 == (e + q1) * b + r1 + d) by (nonlinear_arith)
        requires
            a == b * q1 + r1,
            a + d == b * q2 + r2,
    ;
    if d % b == 0 {
        let q = d / b;
        assert(d == b * q) by {
            vstd::arithmetic::div_mod::lemma_fundamental_div_mod(d, b);
        }
        assert(0 <= r1 < b) by {
            vstd::arithmetic::div_mod::lemma_mod_pos_bound(a, b);
        }
        assert(r1 + d == q * b + r1) by (nonlinear_arith)
            requires
                d == b * q,
        ;
        vstd::arithmetic::div_mod::lemma_fundamental_div_mod_converse(r1 + d, b, q, r1);
    }
}

/// A measure in which the tempo does not change lasts 240 000 000 000 000
/// ticks over the tempo, however many note-lines it holds: with the tempo in
/// beats per minute, that is four times 60 000 milliseconds over the tempo.
pub proof fn lemma_measure_at_constant_tempo(tl: Seq<(i64, i64)>, start: int)
    requires
        timeline_wf(tl),
        tempos_positive(tl),
        0 <= start,
        active_index(tl, start) == active_index(tl, start + 192_000_000),
    ensures
        time_at(tl, start + 192_000_000) * tempo_at(tl, start) + carry_at(tl, start + 192_000_000)
            == time_at(tl, start) * tempo_at(tl, start) + carry_at(tl, start)
            + 240_000_000_000_000,
        240_000_000_000_000int % tempo_at(tl, start) == 0 ==> time_at(tl, start + 192_000_000)
            - time_at(tl, start) == 240_000_000_000_000int / tempo_at(tl, start),
{
    lemma_elapsed_at_constant_tempo(tl, start, 192_000_000);
}

/// On a timeline with one tempo, every measure lasts the same: the tempo in
/// force is that tempo at every row.
pub proof fn lemma_single_tempo(bpm: i64, row: int)
    requires
        bpm > 0,
        0 <= row,
    ensures
        timeline_wf(seq![(0i64, bpm)]),
        tempos_positive(seq![(0i64, bpm)]),
        active_index(seq![(0i64, bpm)], row) == 0,
        tempo_at(seq![(0i64, bpm)], row) == bpm,
        time_at(seq![(0i64, bpm)], row) == (row * 1_250_000) / (bpm as int),
{
    let tl = seq![(0i64, bpm)];
    assert(tl[0].0 == 0);
    assert(has_origin(tl));
}

} // verus!
