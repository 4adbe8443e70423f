use rotterna_lib::decoding::grid::line_offset;
use rotterna_lib::structs::{Measure, SmFile};
use rotterna_lib::timing::{is_timeline, TimingError, TimingState, MEASURE_SPAN};

fn chars(s: &str) -> Vec<char> {
    s.chars().collect()
}

fn note_lines(count: usize) -> Vec<Vec<char>> {
    (0..count).map(|_| chars("1000")).collect()
}

fn beat_times(measure: &Measure) -> Vec<u64> {
    measure.beats.iter().map(|b| b.time).collect()
}

#[test]
fn four_lines_at_constant_tempo() {
    let text = "#BPMS:0.000=120.000;\n#NOTES:\n dance-single:\n :\n Hard:\n 9:\n 0.5,0.5:\n1000\n1000\n1000\n1000\n;\n";
    let sm = SmFile::from_string(text).unwrap();
    assert_eq!(sm.bpms, vec![(0, 120_000_000)]);
    assert_eq!(sm.charts.len(), 1);
    let chart = &sm.charts[0];
    assert_eq!(chart.measures.len(), 1);
    assert_eq!(chart.measures[0].start_time, 0);
    assert_eq!(beat_times(&chart.measures[0]), vec![0, 500_000, 1_000_000, 1_500_000]);
    for beat in &chart.measures[0].beats {
        assert_eq!(beat.notes, vec![true, false, false, false]);
    }
}

#[test]
fn measure_ends_at_row_192_and_two_seconds() {
    let tl = vec![(0i64, 120_000_000i64)];
    let start = TimingState::start(&tl);
    let (measure, next) = Measure::integrate(&note_lines(4), &tl, start).unwrap();
    assert_eq!(beat_times(&measure), vec![0, 500_000, 1_000_000, 1_500_000]);
    assert_eq!(next.row, 192_000_000);
    assert_eq!(next.time, 2_000_000);
    assert_eq!(next.carry, 0);
    assert_eq!(next.bpm, 120_000_000);
}

#[test]
fn tempo_doubles_inside_a_measure() {
    let tl = vec![(0i64, 120_000_000i64), (96_000_000, 240_000_000)];
    let start = TimingState::start(&tl);
    let (measure, next) = Measure::integrate(&note_lines(4), &tl, start).unwrap();
    assert_eq!(beat_times(&measure), vec![0, 500_000, 1_000_000, 1_250_000]);
    assert_eq!(next.row, 192_000_000);
    assert_eq!(next.time, 1_500_000);
    assert_eq!(next.bpm, 240_000_000);
    assert_eq!(next.index, 2);
}

#[test]
fn tempo_doubles_inside_a_measure_from_text() {
    let text = "#BPMS:0=120,2=240;\n#NOTES:\nx:\n:\ny:\n1:\n0:\n0001\n0010\n0100\n1000\n,\n0000\n;";
    let sm = SmFile::from_string(text).unwrap();
    assert_eq!(sm.bpms, vec![(0, 120_000_000), (96_000_000, 240_000_000)]);
    let chart = &sm.charts[0];
    assert_eq!(chart.measures.len(), 2);
    assert_eq!(beat_times(&chart.measures[0]), vec![0, 500_000, 1_000_000, 1_250_000]);
    assert_eq!(chart.measures[1].start_time, 1_500_000);
    assert_eq!(beat_times(&chart.measures[1]), vec![1_500_000]);
}

#[test]
fn tempo_change_between_two_note_rows() {
    // The change at row 72 lies between the lines at rows 48 and 96.
    let tl = vec![(0i64, 120_000_000i64), (72_000_000, 60_000_000)];
    let start = TimingState::start(&tl);
    let (measure, next) = Measure::integrate(&note_lines(4), &tl, start).unwrap();
    // 72 rows at 120: 750 ms; 24 rows at 60: 500 ms; 48 rows at 60: 1000 ms.
    assert_eq!(beat_times(&measure), vec![0, 500_000, 1_250_000, 2_250_000]);
    assert_eq!(next.time, 3_250_000);
}

#[test]
fn tempo_change_in_a_measure_without_lines() {
    let tl = vec![(0i64, 120_000_000i64), (96_000_000, 240_000_000)];
    let start = TimingState::start(&tl);
    let (measure, next) = Measure::integrate(&Vec::new(), &tl, start).unwrap();
    assert_eq!(measure.start_time, 0);
    assert!(measure.beats.is_empty());
    assert_eq!(next.row, 192_000_000);
    assert_eq!(next.time, 1_500_000);
}

#[test]
fn tempo_change_on_a_measure_boundary() {
    let tl = vec![(0i64, 120_000_000i64), (192_000_000, 240_000_000)];
    let start = TimingState::start(&tl);
    let (_, first) = Measure::integrate(&note_lines(1), &tl, start).unwrap();
    assert_eq!(first.time, 2_000_000);
    assert_eq!(first.bpm, 240_000_000);
    let (second, end) = Measure::integrate(&note_lines(2), &tl, first).unwrap();
    assert_eq!(second.start_time, 2_000_000);
    assert_eq!(beat_times(&second), vec![2_000_000, 2_500_000]);
    assert_eq!(end.time, 3_000_000);
}

#[test]
fn every_measure_spans_192_rows() {
    let tl = vec![(0i64, 120_000_000i64)];
    for count in [0usize, 1, 4, 8, 16, 24, 32, 48, 64, 96, 192, 200] {
        let start = TimingState::start(&tl);
        let (measure, next) = Measure::integrate(&note_lines(count), &tl, start).unwrap();
        assert_eq!(measure.beats.len(), count);
        assert_eq!(next.row - start.row, 192_000_000);
        assert_eq!(next.row - start.row, MEASURE_SPAN);
        let (_, after) = Measure::integrate(&note_lines(count), &tl, next).unwrap();
        assert_eq!(after.row - next.row, 192_000_000);
    }
}

#[test]
fn measure_duration_does_not_depend_on_line_count() {
    for bpm in [120_000_000i64, 130_000_000, 87_654_321, 1] {
        let tl = vec![(0i64, bpm)];
        let expected = 240_000_000_000_000u64 / (bpm as u64);
        let carry = 240_000_000_000_000u64 % (bpm as u64);
        for count in [0usize, 1, 3, 4, 7, 192, 200] {
            let start = TimingState::start(&tl);
            let (_, next) = Measure::integrate(&note_lines(count), &tl, start).unwrap();
            assert_eq!(next.time, expected);
            assert_eq!(next.carry, carry);
        }
    }
}

#[test]
fn measure_at_120_lasts_two_seconds_exactly() {
    let tl = vec![(0i64, 120_000_000i64)];
    let mut state = TimingState::start(&tl);
    for k in 0..10u64 {
        assert_eq!(state.time, k * 2_000_000);
        let (measure, next) = Measure::integrate(&note_lines(7), &tl, state).unwrap();
        assert_eq!(measure.start_time, k * 2_000_000);
        state = next;
    }
}

#[test]
fn carry_keeps_later_measures_exact() {
    // At 130 beats per minute a measure lasts 1846153.846... microseconds.
    let tl = vec![(0i64, 130_000_000i64)];
    let mut state = TimingState::start(&tl);
    let mut starts = Vec::new();
    for _ in 0..4 {
        starts.push(state.time);
        let (_, next) = Measure::integrate(&note_lines(5), &tl, state).unwrap();
        state = next;
    }
    assert_eq!(starts, vec![0, 1_846_153, 3_692_307, 5_538_461]);
    assert_eq!(state.time, 7_384_615);
}

#[test]
fn full_grid_measure_uses_one_row_per_line() {
    let mut lines: Vec<Vec<char>> = (0..192).map(|_| chars("0000")).collect();
    lines[0] = chars("1000");
    lines[191] = chars("0001");
    let tl = vec![(0i64, 120_000_000i64), (96_000_000, 240_000_000)];
    let start = TimingState::start(&tl);
    let (measure, next) = Measure::integrate(&lines, &tl, start).unwrap();
    assert_eq!(measure.beats.len(), 192);
    assert_eq!(measure.beats[0].time, 0);
    assert_eq!(measure.beats[0].notes, vec![true, false, false, false]);
    // Row 48 at 120: 500 ms. Row 96: 1000 ms. Row 191: 1000 ms + 95 rows at 240.
    assert_eq!(measure.beats[48].time, 500_000);
    assert_eq!(measure.beats[96].time, 1_000_000);
    assert_eq!(measure.beats[191].time, 1_000_000 + 95 * 1_250_000 / 240);
    assert_eq!(measure.beats[191].notes, vec![false, false, false, true]);
    assert_eq!(next.time, 1_500_000);
}

#[test]
fn timestamps_never_decrease() {
    let text = "#BPMS:0=100,1.5=333.333,3=50,4.25=999,9=12.5;\n#NOTES:\na:\n:\nb:\n1:\n0:\n1000\n0100\n0010\n,\n1111\n0000\n1111\n0000\n1111\n,\n,\n1000\n0100\n0010\n0001\n1000\n0100\n0010\n;";
    let sm = SmFile::from_string(text).unwrap();
    let chart = &sm.charts[0];
    assert_eq!(chart.measures.len(), 4);
    let mut last = 0u64;
    for measure in &chart.measures {
        assert!(measure.start_time >= last);
        last = measure.start_time;
        for beat in &measure.beats {
            assert!(beat.time >= last);
            last = beat.time;
        }
    }
    assert!(last > 0);
}

#[test]
fn timing_twice_gives_the_same_timestamps() {
    let text = "#BPMS:0=100,1.5=333.333,3=50;\n#NOTES:\na:\n:\nb:\n1:\n0:\n1000\n0100\n0010\n,\n1111\n0000\n;";
    let a = SmFile::from_string(text).unwrap();
    let b = SmFile::from_string(text).unwrap();
    assert_eq!(a.bpms, b.bpms);
    assert_eq!(a.charts.len(), b.charts.len());
    for (x, y) in a.charts[0].measures.iter().zip(b.charts[0].measures.iter()) {
        assert_eq!(x.start_time, y.start_time);
        assert_eq!(beat_times(x), beat_times(y));
    }
    let tl = vec![(0i64, 100_000_000i64), (72_000_000, 333_333_000)];
    let first = Measure::integrate(&note_lines(5), &tl, TimingState::start(&tl)).unwrap();
    let second = Measure::integrate(&note_lines(5), &tl, TimingState::start(&tl)).unwrap();
    assert_eq!(beat_times(&first.0), beat_times(&second.0));
    assert_eq!(first.1, second.1);
}

#[test]
fn start_state_stands_at_the_event_at_row_zero() {
    let tl = vec![(-96_000_000i64, 50_000_000i64), (-48_000_000, 60_000_000), (0, 150_000_000), (48_000_000, 75_000_000)];
    let start = TimingState::start(&tl);
    assert_eq!(start, TimingState { time: 0, carry: 0, row: 0, bpm: 150_000_000, index: 3 });
}

#[test]
fn events_before_row_zero_take_no_time() {
    let tl = vec![(-48_000_000i64, 60_000_000i64), (0, 120_000_000)];
    let start = TimingState::start(&tl);
    let (measure, next) = Measure::integrate(&note_lines(2), &tl, start).unwrap();
    assert_eq!(beat_times(&measure), vec![0, 1_000_000]);
    assert_eq!(next.time, 2_000_000);
}

#[test]
fn advance_to_applies_every_event_on_the_way() {
    let tl = vec![(0i64, 120_000_000i64), (48_000_000, 60_000_000), (96_000_000, 240_000_000)];
    let start = TimingState::start(&tl);
    let reached = start.advance_to(&tl, 144_000_000).unwrap();
    // 48 rows at 120: 500 ms; 48 rows at 60: 1000 ms; 48 rows at 240: 250 ms.
    assert_eq!(reached.time, 1_750_000);
    assert_eq!(reached.row, 144_000_000);
    assert_eq!(reached.bpm, 240_000_000);
    assert_eq!(reached.index, 3);
    let same = reached.advance_to(&tl, 144_000_000).unwrap();
    assert_eq!(same, reached);
}

#[test]
fn advance_to_an_event_row_switches_the_tempo() {
    let tl = vec![(0i64, 120_000_000i64), (48_000_000, 60_000_000)];
    let reached = TimingState::start(&tl).advance_to(&tl, 48_000_000).unwrap();
    assert_eq!(reached.time, 500_000);
    assert_eq!(reached.bpm, 60_000_000);
    assert_eq!(reached.carry, 0);
}

#[test]
fn glide_carries_the_remainder() {
    let tl = vec![(0i64, 7i64)];
    let start = TimingState::start(&tl);
    let a = start.glide(&tl, 1).unwrap();
    assert_eq!(a.time, 1_250_000 / 7);
    assert_eq!(a.carry, 1_250_000 % 7);
    let b = a.glide(&tl, 3).unwrap();
    assert_eq!(b.time, 3 * 1_250_000 / 7);
    assert_eq!(b.carry, 3 * 1_250_000 % 7);
    let direct = start.glide(&tl, 3).unwrap();
    assert_eq!(direct, b);
}

#[test]
fn time_overflow_is_an_error() {
    let tl = vec![(0i64, 1i64)];
    let start = TimingState::start(&tl);
    assert_eq!(start.advance_to(&tl, i64::MAX), Err(TimingError::Overflow));
    // The largest row whose time still fits.
    let row = (u64::MAX / 1_250_000) as i64;
    let reached = start.advance_to(&tl, row).unwrap();
    assert_eq!(reached.time, (row as u64) * 1_250_000);
    assert_eq!(start.advance_to(&tl, row + 1), Err(TimingError::Overflow));
}

#[test]
fn row_overflow_is_an_error() {
    let tl = vec![(0i64, i64::MAX)];
    let start = TimingState::start(&tl);
    let far = start.advance_to(&tl, i64::MAX - 100).unwrap();
    assert_eq!(Measure::integrate(&Vec::new(), &tl, far).err(), Some(TimingError::Overflow));
}

#[test]
fn line_offsets_on_the_grid() {
    assert_eq!(line_offset(1, 0), 0);
    assert_eq!(line_offset(4, 0), 0);
    assert_eq!(line_offset(4, 1), 48_000_000);
    assert_eq!(line_offset(4, 3), 144_000_000);
    assert_eq!(line_offset(8, 5), 120_000_000);
    assert_eq!(line_offset(192, 191), 191_000_000);
    assert_eq!(line_offset(96, 95), 190_000_000);
    for count in [1usize, 2, 3, 4, 6, 8, 12, 16, 24, 32, 48, 64, 96, 192] {
        for index in 0..count {
            assert_eq!(line_offset(count, index), (index * (192 / count)) as i64 * 1_000_000);
        }
    }
}

#[test]
fn line_offsets_off_the_grid() {
    assert_eq!(line_offset(200, 1), 960_000);
    assert_eq!(line_offset(200, 199), 191_040_000);
    assert_eq!(line_offset(7, 3), 82_285_714);
    assert_eq!(line_offset(5, 1), 38_400_000);
    for count in [5usize, 7, 200, 1000] {
        let mut last = 0i64;
        for index in 0..count {
            let offset = line_offset(count, index);
            assert!(offset >= last);
            assert!(offset < 192_000_000);
            last = offset;
        }
    }
}

#[test]
fn is_timeline_wants_order_and_row_zero() {
    assert!(is_timeline(&[(0, 1)]));
    assert!(is_timeline(&[(-5, 1), (0, 2), (7, 3)]));
    assert!(!is_timeline(&[]));
    assert!(!is_timeline(&[(1, 1)]));
    assert!(!is_timeline(&[(0, 1), (0, 2)]));
    assert!(!is_timeline(&[(0, 1), (5, 2), (4, 3)]));
    assert!(!is_timeline(&[(-1, 1), (1, 2)]));
}

#[test]
fn timing_errors_in_words() {
    assert_eq!(TimingError::NonPositiveTempo.message(), "the tempo timeline holds a tempo that is not positive");
    assert_eq!(TimingError::Overflow.message(), "the chart is too long to be timed");
    assert_eq!(TimingError::Disordered.message(), "the tempo timeline is out of order");
}

#[test]
fn integer_times_agree_with_floating_point() {
    // The same walk in floating point, in milliseconds.
    fn reference(tl: &[(f64, f64)], counts: &[usize]) -> Vec<f64> {
        let mut times = Vec::new();
        let (mut time, mut row, mut bpm, mut index) = (0.0f64, 0.0f64, tl[0].1, 0usize);
        let mut reach = |target: f64, time: &mut f64, row: &mut f64, bpm: &mut f64, index: &mut usize| {
            while *index < tl.len() && tl[*index].0 <= target {
                *time += (tl[*index].0 - *row) / 48.0 * (60000.0 / *bpm);
                *row = tl[*index].0;
                *bpm = tl[*index].1;
                *index += 1;
            }
            *time += (target - *row) / 48.0 * (60000.0 / *bpm);
            *row = target;
        };
        for (k, &count) in counts.iter().enumerate() {
            let start = 192.0 * k as f64;
            times.push(time);
            for i in 0..count {
                reach(start + 192.0 / count as f64 * i as f64, &mut time, &mut row, &mut bpm, &mut index);
                times.push(time);
            }
            reach(start + 192.0, &mut time, &mut row, &mut bpm, &mut index);
        }
        times
    }

    let mut seed = 0x2545_f491_4f6c_dd1du64;
    let mut next = move |bound: u64| {
        seed ^= seed << 13;
        seed ^= seed >> 7;
        seed ^= seed << 17;
        seed % bound
    };
    for _ in 0..200 {
        let mut tl: Vec<(i64, i64)> = vec![(0, 30_000_000 + next(300_000_000) as i64)];
        let events = next(12);
        for _ in 0..events {
            let row = tl.last().unwrap().0 + 1_000_000 + next(400) as i64 * 1_000_000;
            tl.push((row, 30_000_000 + next(300_000_000) as i64));
        }
        let counts: Vec<usize> = (0..1 + next(12)).map(|_| [0usize, 1, 2, 3, 4, 8, 12, 16, 24, 48, 192][next(11) as usize]).collect();
        let float_tl: Vec<(f64, f64)> = tl.iter().map(|&(r, b)| (r as f64 / 1e6, b as f64 / 1e6)).collect();
        let expected = reference(&float_tl, &counts);
        let mut got = Vec::new();
        let mut state = TimingState::start(&tl);
        for &count in &counts {
            let (measure, after) = Measure::integrate(&note_lines(count), &tl, state).unwrap();
            got.push(measure.start_time);
            got.extend(beat_times(&measure));
            state = after;
        }
        assert_eq!(got.len(), expected.len());
        // Each tempo change drops less than a microsecond, and so does the
        // rounding of the timestamp itself.
        let slack = 0.001 * (tl.len() as f64 + 1.0) + 1e-6;
        for (micros, millis) in got.iter().zip(expected.iter()) {
            let ours = *micros as f64 / 1000.0;
            assert!(ours <= millis + 1e-6, "{} > {}", ours, millis);
            assert!(millis - ours <= slack, "{} too far below {}", ours, millis);
        }
    }
}
