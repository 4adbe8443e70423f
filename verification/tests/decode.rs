use rotterna_lib::decoding::decode::{all_tempos_positive, is_note_chars, note_flags_of};
use rotterna_lib::decoding::layout::{
    code_of_line, collect_measure, is_end_code, is_separator_code, read_radar_values,
};
use rotterna_lib::decoding::tempo::{build_timeline, order_on_rows};
use rotterna_lib::structs::{Beat, Chart, Measure, SmFile};
use rotterna_lib::timing::{TimingError, TimingState};

fn line(s: &str) -> Vec<char> {
    s.chars().collect()
}

fn lines_of(all: &[&str]) -> Vec<Vec<char>> {
    all.iter().map(|s| line(s)).collect()
}

fn texts(parts: &[Vec<char>]) -> Vec<String> {
    parts.iter().map(|p| p.iter().collect()).collect()
}

fn shape(chart: &Chart) -> Vec<usize> {
    chart.measures.iter().map(|m| m.beats.len()).collect()
}

const HEADER: &str = " dance-single:\n :\n Hard:\n 9:\n 0.5,0.25,x,1:\n";

#[test]
fn note_lines_are_made_of_note_symbols() {
    assert!(Beat::is_note_line("0000"));
    assert!(Beat::is_note_line("01234M"));
    assert!(Beat::is_note_line(""));
    assert!(!Beat::is_note_line("0005"));
    assert!(!Beat::is_note_line("00 0"));
    assert!(!Beat::is_note_line("m000"));
    assert!(!Beat::is_note_line("0L00"));
    assert!(!Beat::is_note_line(","));
    assert!(is_note_chars(&line("M1")));
    assert!(!is_note_chars(&line("M1;")));
}

#[test]
fn every_symbol_but_zero_is_a_note() {
    let beat = Beat::parse("01234M0");
    assert_eq!(beat.time, 0);
    assert_eq!(beat.notes, vec![false, true, true, true, true, true, false]);
    assert_eq!(Beat::parse("").notes, Vec::<bool>::new());
    assert_eq!(note_flags_of(&line("1001")), vec![true, false, false, true]);
}

#[test]
fn new_values_are_empty() {
    let beat = Beat::new();
    assert_eq!(beat.time, 0);
    assert!(beat.notes.is_empty());
    let measure = Measure::new();
    assert_eq!(measure.start_time, 0);
    assert!(measure.beats.is_empty());
    let chart = Chart::new();
    assert_eq!(chart.stepstype, "");
    assert_eq!(chart.description, "");
    assert_eq!(chart.difficulty, "");
    assert_eq!(chart.meter, 0);
    assert!(chart.radar_values.is_empty());
    assert_eq!(chart.column_count, 0);
    assert!(chart.measures.is_empty());
    let sm = SmFile::new();
    assert_eq!(sm.offset, 0);
    assert!(sm.bpms.is_empty());
    assert!(sm.stops.is_empty());
    assert!(sm.charts.is_empty());
    assert_eq!(sm.metadata.title, "");
}

#[test]
fn comments_are_cut_off() {
    assert_eq!(code_of_line(&line("1000 // first")).iter().collect::<String>(), "1000");
    assert_eq!(code_of_line(&line("// only a comment")).iter().collect::<String>(), "");
    assert_eq!(code_of_line(&line(",  // measure 2")).iter().collect::<String>(), ",");
    assert_eq!(code_of_line(&line("10/0")).iter().collect::<String>(), "10/0");
    assert_eq!(code_of_line(&line("1000/")).iter().collect::<String>(), "1000/");
    assert_eq!(code_of_line(&line("a//b//c")).iter().collect::<String>(), "a");
    assert_eq!(code_of_line(&line("")).iter().collect::<String>(), "");
    assert_eq!(code_of_line(&line("/")).iter().collect::<String>(), "/");
    assert_eq!(code_of_line(&line("//")).iter().collect::<String>(), "");
}

#[test]
fn separators() {
    assert!(is_separator_code(&line(",")));
    assert!(is_separator_code(&line(";")));
    assert!(!is_separator_code(&line("")));
    assert!(!is_separator_code(&line(",,")));
    assert!(!is_separator_code(&line("0")));
    assert!(is_end_code(&line(";")));
    assert!(!is_end_code(&line(",")));
    assert!(!is_end_code(&line(";;")));
}

#[test]
fn measure_lines_are_collected_up_to_the_separator() {
    let lines = lines_of(&["1000", "", "// note", "0100 // x", "junk", "12:4", ",", "0001"]);
    let (found, end) = collect_measure(&lines, 0);
    assert_eq!(texts(&found), vec!["1000", "0100"]);
    assert_eq!(end, 6);
    let (rest, stop) = collect_measure(&lines, 7);
    assert_eq!(texts(&rest), vec!["0001"]);
    assert_eq!(stop, 8);
    let (none, at) = collect_measure(&lines, 8);
    assert!(none.is_empty());
    assert_eq!(at, 8);
    let (empty, here) = collect_measure(&lines, 6);
    assert!(empty.is_empty());
    assert_eq!(here, 6);
}

#[test]
fn radar_values_that_are_decimals() {
    assert_eq!(read_radar_values(&line("0.5,0.25, 1 ,x,2:")), vec![500_000, 250_000, 1_000_000]);
    assert_eq!(read_radar_values(&line("")), Vec::<i64>::new());
    assert_eq!(read_radar_values(&line("0.733,0.772,0.048,0.000,0.000:")), vec![733_000, 772_000, 48_000, 0]);
}

#[test]
fn header_fields_are_read_in_order() {
    let mut chart = Chart::new();
    let lines = lines_of(&["", "dance-single:", "", ":", "Hard:", "", "+12", "", "0.5,1", "0000"]);
    let body = chart.parse_header(&lines);
    assert_eq!(body, 9);
    assert_eq!(chart.stepstype, "dance-single:");
    assert_eq!(chart.difficulty, "Hard:");
    assert_eq!(chart.meter, 12);
    assert_eq!(chart.radar_values, vec![500_000, 1_000_000]);
    assert_eq!(chart.description, "");
    assert_eq!(chart.column_count, 0);
}

#[test]
fn header_meter_that_is_no_number_is_zero() {
    let mut chart = Chart::new();
    chart.meter = 5;
    let body = chart.parse_header(&lines_of(&["a", ":", "b", "9:", "c"]));
    assert_eq!(body, 5);
    assert_eq!(chart.stepstype, "a");
    assert_eq!(chart.difficulty, "b");
    assert_eq!(chart.meter, 0);
    assert_eq!(chart.radar_values, Vec::<i64>::new());
}

#[test]
fn header_that_ends_early_keeps_the_fields() {
    let mut chart = Chart::new();
    chart.meter = 5;
    chart.difficulty = String::from("kept");
    chart.radar_values = vec![1];
    let body = chart.parse_header(&lines_of(&["", "single", "", ":", ""]));
    assert_eq!(body, 5);
    assert_eq!(chart.stepstype, "single");
    assert_eq!(chart.difficulty, "kept");
    assert_eq!(chart.meter, 5);
    assert_eq!(chart.radar_values, vec![1]);
    let mut blank = Chart::new();
    assert_eq!(blank.parse_header(&Vec::new()), 0);
    assert_eq!(blank.stepstype, "");
}

#[test]
fn header_description_is_passed_over_whatever_it_holds() {
    let mut chart = Chart::new();
    let body = chart.parse_header(&lines_of(&["dance-single:", "K. Ward:", "Hard:", "9", "0.5,0:", "1000"]));
    assert_eq!(chart.stepstype, "dance-single:");
    assert_eq!(chart.description, "");
    assert_eq!(chart.difficulty, "Hard:");
    assert_eq!(chart.meter, 9);
    assert_eq!(chart.radar_values, vec![500_000]);
    assert_eq!(body, 5);
    let mut colon = Chart::new();
    assert_eq!(colon.parse_header(&lines_of(&["dance-single:", "", ":", "", "Hard:", "9", "1", "1000"])), 7);
    assert_eq!(colon.difficulty, "Hard:");
    assert_eq!(colon.meter, 9);
    let mut colons = Chart::new();
    assert_eq!(colons.parse_header(&lines_of(&["a", ":", ":", "9", "1", "1000"])), 5);
    assert_eq!(colons.difficulty, ":");
    assert_eq!(colons.meter, 9);
}

#[test]
fn header_has_five_lines_whatever_they_hold() {
    let text = "a\nb\nc\nd\ne\n1000\n0100\n;";
    let chart = Chart::parse(&line(text), &[(0, 120_000_000)]).unwrap();
    assert_eq!(chart.stepstype, "a");
    assert_eq!(chart.difficulty, "c");
    assert_eq!(chart.meter, 0);
    assert_eq!(chart.radar_values, Vec::<i64>::new());
    assert_eq!(shape(&chart), vec![2]);
    let short = Chart::parse(&line("a\nb\n1000\n0100\n1111\n0010\n;"), &[(0, 120_000_000)]).unwrap();
    assert_eq!(short.difficulty, "1000");
    assert_eq!(shape(&short), vec![1]);
}

#[test]
fn column_count_is_the_width_of_the_note_lines() {
    let tl = vec![(0i64, 120_000_000i64)];
    for width in [1usize, 3, 4, 5, 6, 8, 10] {
        let row: String = "1".repeat(width);
        let text = format!("{}{}\n{}\n,\n\n,\n{}\n;", HEADER, row, row, row);
        let chart = Chart::parse(&line(&text), &tl).unwrap();
        assert_eq!(chart.column_count as usize, width);
        assert_eq!(shape(&chart), vec![2, 0, 1]);
        for measure in &chart.measures {
            for beat in &measure.beats {
                assert_eq!(beat.notes.len(), chart.column_count as usize);
            }
        }
    }
}

#[test]
fn column_count_of_a_chart_without_note_lines_is_zero() {
    let tl = vec![(0i64, 120_000_000i64)];
    assert_eq!(Chart::parse(&line(HEADER), &tl).unwrap().column_count, 0);
    let empty_measures = format!("{},\n,\n;", HEADER);
    let chart = Chart::parse(&line(&empty_measures), &tl).unwrap();
    assert_eq!(shape(&chart), vec![0, 0, 0]);
    assert_eq!(chart.column_count, 0);
}

#[test]
fn column_count_of_uneven_note_lines_is_that_of_the_widest() {
    let tl = vec![(0i64, 120_000_000i64)];
    let text = format!("{}1000\n100000\n,\n10\n;", HEADER);
    let chart = Chart::parse(&line(&text), &tl).unwrap();
    assert_eq!(chart.column_count, 6);
    assert_eq!(chart.measures[0].width(), 6);
    assert_eq!(chart.measures[1].width(), 2);
    assert_eq!(Measure::new().width(), 0);
}

#[test]
fn chart_measures_and_densities() {
    let text = format!("{}1000\n0100\n0010\n0001\n,\n1000\n0001\n,\n,\n1111\n;\n", HEADER);
    let tl = vec![(0i64, 120_000_000i64)];
    let chart = Chart::parse(&line(&text), &tl).unwrap();
    assert_eq!(chart.stepstype, "dance-single:");
    assert_eq!(chart.difficulty, "Hard:");
    assert_eq!(chart.meter, 0);
    assert_eq!(chart.radar_values, vec![500_000, 250_000]);
    assert_eq!(shape(&chart), vec![4, 2, 0, 1]);
    let starts: Vec<u64> = chart.measures.iter().map(|m| m.start_time).collect();
    assert_eq!(starts, vec![0, 2_000_000, 4_000_000, 6_000_000]);
    assert_eq!(chart.measures[1].beats[1].time, 3_000_000);
    assert_eq!(chart.measures[3].beats[0].notes, vec![true, true, true, true]);
}

#[test]
fn chart_without_end_token_keeps_its_last_measure() {
    let text = format!("{}1000\n,\n0100\n0010", HEADER);
    let chart = Chart::parse(&line(&text), &[(0, 120_000_000)]).unwrap();
    assert_eq!(shape(&chart), vec![1, 2]);
    assert_eq!(chart.measures[1].beats[1].time, 3_000_000);
}

#[test]
fn chart_lines_after_the_last_comma_make_a_measure() {
    let with_blank = format!("{}1000\n,\n\n", HEADER);
    assert_eq!(shape(&Chart::parse(&line(&with_blank), &[(0, 120_000_000)]).unwrap()), vec![1, 0]);
    let without = format!("{}1000\n,", HEADER);
    assert_eq!(shape(&Chart::parse(&line(&without), &[(0, 120_000_000)]).unwrap()), vec![1]);
}

#[test]
fn chart_stops_at_the_semicolon() {
    let text = format!("{}1000\n; // end\n0100\n,\n0010\n", HEADER);
    let chart = Chart::parse(&line(&text), &[(0, 120_000_000)]).unwrap();
    assert_eq!(shape(&chart), vec![1]);
}

#[test]
fn chart_separator_may_carry_a_comment() {
    let text = format!("{}1000\n, // measure 2\n0100\n0010\n;", HEADER);
    let chart = Chart::parse(&line(&text), &[(0, 120_000_000)]).unwrap();
    assert_eq!(shape(&chart), vec![1, 2]);
}

#[test]
fn chart_lines_that_are_no_note_lines_do_not_count() {
    let text = format!("{}  // measure 1\n1000\nhello\n\n0100 // tap\n10x0\n0010\n0001\n;", HEADER);
    let chart = Chart::parse(&line(&text), &[(0, 120_000_000)]).unwrap();
    assert_eq!(shape(&chart), vec![4]);
    let times: Vec<u64> = chart.measures[0].beats.iter().map(|b| b.time).collect();
    assert_eq!(times, vec![0, 500_000, 1_000_000, 1_500_000]);
}

#[test]
fn chart_with_header_only_has_no_measure() {
    let chart = Chart::parse(&line(HEADER), &[(0, 120_000_000)]).unwrap();
    assert!(chart.measures.is_empty());
    let empty = Chart::parse(&[], &[(0, 120_000_000)]).unwrap();
    assert!(empty.measures.is_empty());
    assert_eq!(empty.stepstype, "");
}

#[test]
fn chart_with_a_tempo_that_is_not_positive_is_refused() {
    let text = format!("{}1000\n;", HEADER);
    assert_eq!(Chart::parse(&line(&text), &[(0, 0)]).err(), Some(TimingError::NonPositiveTempo));
    assert_eq!(Chart::parse(&line(&text), &[(0, 120_000_000), (48_000_000, -1)]).err(), Some(TimingError::NonPositiveTempo));
    assert_eq!(Chart::parse(&[], &[(0, -5)]).err(), Some(TimingError::NonPositiveTempo));
    assert!(all_tempos_positive(&[(0, 1), (5, 2)]));
    assert!(!all_tempos_positive(&[(0, 1), (5, 0)]));
    assert!(all_tempos_positive(&[]));
}

#[test]
fn chart_along_a_timeline_out_of_order_is_refused() {
    let text = format!("{}1000\n;", HEADER);
    assert_eq!(Chart::parse(&line(&text), &[]).err(), Some(TimingError::Disordered));
    assert_eq!(Chart::parse(&line(&text), &[(48_000_000, 120_000_000)]).err(), Some(TimingError::Disordered));
    assert_eq!(Chart::parse(&line(&text), &[(0, 120_000_000), (0, 100_000_000)]).err(), Some(TimingError::Disordered));
    assert_eq!(Chart::parse(&line(&text), &[(0, 0), (0, 100_000_000)]).err(), Some(TimingError::Disordered));
}

#[test]
fn chart_that_is_too_long_is_refused() {
    // At one millionth of a beat per minute a measure lasts 240 000 000 000 000
    // microseconds: 76 861 of them fit, one more does not.
    let tl = vec![(0i64, 1i64)];
    let mut text = String::from(HEADER);
    for _ in 0..76_861 {
        text.push_str(",\n");
    }
    let chart = Chart::parse(&line(&text), &tl).unwrap();
    assert_eq!(chart.measures.len(), 76_861);
    assert_eq!(chart.measures[76_860].start_time, 76_860 * 240_000_000_000_000);
    text.push_str(",\n");
    assert_eq!(Chart::parse(&line(&text), &tl).err(), Some(TimingError::Overflow));
}

#[test]
fn measure_is_read_and_timed() {
    let lines = lines_of(&["1000", "0100", ",", "0010", ";"]);
    let tl = vec![(0i64, 60_000_000i64)];
    let (first, next_index, state) = Measure::parse(&lines, 0, &tl, TimingState::start(&tl)).unwrap();
    assert_eq!(first.beats.len(), 2);
    assert_eq!(first.beats[1].time, 2_000_000);
    assert_eq!(next_index, 3);
    assert_eq!(state.time, 4_000_000);
    let (second, after, end) = Measure::parse(&lines, next_index, &tl, state).unwrap();
    assert_eq!(second.start_time, 4_000_000);
    assert_eq!(second.beats.len(), 1);
    assert_eq!(after, 5);
    assert_eq!(end.row, 384_000_000);
}

#[test]
fn timeline_is_sorted_and_starts_at_row_zero() {
    assert_eq!(build_timeline(&vec![(4_000_000, 180_000_000), (0, 90_000_000), (2_000_000, 100_000_000)]),
        vec![(0, 90_000_000), (96_000_000, 100_000_000), (192_000_000, 180_000_000)]);
}

#[test]
fn timeline_without_beat_zero_gets_120() {
    assert_eq!(build_timeline(&Vec::new()), vec![(0, 120_000_000)]);
    assert_eq!(build_timeline(&vec![(4_000_000, 180_000_000)]), vec![(0, 120_000_000), (192_000_000, 180_000_000)]);
}

#[test]
fn timeline_keeps_the_last_tempo_declared_at_a_beat() {
    assert_eq!(build_timeline(&vec![(1_000_000, 100_000_000), (0, 50_000_000), (1_000_000, 200_000_000), (0, 60_000_000)]),
        vec![(0, 60_000_000), (48_000_000, 200_000_000)]);
}

#[test]
fn timeline_with_a_beat_before_zero_does_not_start_at_row_zero() {
    assert_eq!(build_timeline(&vec![(-1_000_000, 100_000_000)]), vec![(-48_000_000, 100_000_000), (0, 120_000_000)]);
    assert_eq!(build_timeline(&vec![(-1_000_000, 100_000_000), (0, 80_000_000)]), vec![(-48_000_000, 100_000_000), (0, 80_000_000)]);
}

#[test]
fn timeline_rows_strictly_increase() {
    let pairs: Vec<(i64, i64)> = (0..200).map(|i| (((i * 7919) % 31 - 10) * 250_000, 1 + i)).collect();
    let tl = build_timeline(&pairs);
    assert!(tl.iter().any(|e| e.0 == 0));
    for w in tl.windows(2) {
        assert!(w[0].0 < w[1].0);
    }
    for (beat, _) in &pairs {
        let last = pairs.iter().rev().find(|p| p.0 == *beat).unwrap();
        assert!(tl.contains(&(beat * 48, last.1)));
    }
}

#[test]
fn pauses_are_put_in_the_order_of_their_rows() {
    assert_eq!(order_on_rows(&vec![(2_000_000, 1), (1_000_000, 2), (2_000_000, 3), (0, 4), (1_000_000, 5)]),
        vec![(0, 4), (48_000_000, 2), (48_000_000, 5), (96_000_000, 1), (96_000_000, 3)]);
    assert_eq!(order_on_rows(&Vec::new()), Vec::new());
}

#[test]
fn file_without_declarations() {
    let sm = SmFile::from_string("").unwrap();
    assert_eq!(sm.bpms, vec![(0, 120_000_000)]);
    assert!(sm.stops.is_empty());
    assert!(sm.charts.is_empty());
    assert_eq!(sm.offset, 0);
    assert_eq!(sm.metadata.title, "");
}

#[test]
fn file_with_everything() {
    let text = "#TITLE:Song;\n#SUBTITLE:Sub;\n#ARTIST:Me;\n#CREDIT:Cr;\n#MUSIC:a.ogg;\n#BANNER:bn.png;\n#BACKGROUND:bg.png;\n#OFFSET:-0.012;\n#BPMS:0.000=120.000,\n4.000=60.000;\n#STOPS:8=0.5,2=0.25;\n#NOTES:\n dance-single:\n :\n Easy:\n 3:\n 0.1,0.2:\n1000\n0100\n,\n0010\n;\n#NOTES:\n dance-double:\n :\n Hard:\n 9:\n 0.3:\n10000000\n;\n";
    let sm = SmFile::from_string(text).unwrap();
    assert_eq!(sm.metadata.title, "Song");
    assert_eq!(sm.metadata.subtitle, "Sub");
    assert_eq!(sm.metadata.artist, "Me");
    assert_eq!(sm.metadata.credit, "Cr");
    assert_eq!(sm.metadata.music, "a.ogg");
    assert_eq!(sm.metadata.banner, "bn.png");
    assert_eq!(sm.metadata.background, "bg.png");
    assert_eq!(sm.offset, 12_000);
    assert_eq!(sm.bpms, vec![(0, 120_000_000), (192_000_000, 60_000_000)]);
    assert_eq!(sm.stops, vec![(96_000_000, 250_000), (384_000_000, 500_000)]);
    assert_eq!(sm.charts.len(), 2);
    assert_eq!(sm.charts[0].stepstype, "dance-single:");
    assert_eq!(sm.charts[0].column_count, 4);
    assert_eq!(sm.charts[1].column_count, 8);
    assert_eq!(sm.charts[0].difficulty, "Easy:");
    assert_eq!(sm.charts[0].radar_values, vec![100_000]);
    assert_eq!(shape(&sm.charts[0]), vec![2, 1]);
    assert_eq!(sm.charts[0].measures[1].start_time, 2_000_000);
    assert_eq!(sm.charts[0].measures[1].beats[0].time, 2_000_000);
    assert_eq!(sm.charts[1].stepstype, "dance-double:");
    assert_eq!(sm.charts[1].difficulty, "Hard:");
    assert_eq!(shape(&sm.charts[1]), vec![1]);
    assert_eq!(sm.charts[1].measures[0].beats[0].notes.len(), 8);
}

#[test]
fn file_offset_loses_its_sign() {
    assert_eq!(SmFile::from_string("#OFFSET:0.5;").unwrap().offset, 500_000);
    assert_eq!(SmFile::from_string("#OFFSET:-0.5;").unwrap().offset, 500_000);
    assert_eq!(SmFile::from_string("#OFFSET:-;").unwrap().offset, 0);
    assert_eq!(SmFile::from_string("#OFFSET:abc;").unwrap().offset, 0);
}

#[test]
fn file_with_malformed_tempo_pairs_is_still_read() {
    let sm = SmFile::from_string("#BPMS:abc,1=x,2=150,=;\n#NOTES:\na\n:\nb\n1\n0\n1\n;").unwrap();
    assert_eq!(sm.bpms, vec![(0, 120_000_000), (96_000_000, 150_000_000)]);
    assert_eq!(sm.charts.len(), 1);
}

#[test]
fn file_with_a_chart_and_a_tempo_that_is_not_positive_is_refused() {
    let err = SmFile::from_string("#BPMS:0=120,4=0;\n#NOTES:\na\n:\nb\n1\n0\n1\n;").err();
    assert_eq!(err, Some(String::from("the tempo timeline holds a tempo that is not positive")));
    let negative = SmFile::from_string("#BPMS:0=-120;\n#NOTES:\n").err();
    assert_eq!(negative, Some(String::from("the tempo timeline holds a tempo that is not positive")));
    let without_chart = SmFile::from_string("#BPMS:0=120,4=0;").unwrap();
    assert_eq!(without_chart.bpms, vec![(0, 120_000_000), (192_000_000, 0)]);
}

#[test]
fn file_with_a_chart_that_is_too_long_is_refused() {
    let mut text = String::from("#BPMS:0=0.000001;\n#NOTES:\na\n:\nb\n1\n0\n");
    for _ in 0..76_862 {
        text.push_str(",\n");
    }
    assert_eq!(SmFile::from_string(&text).err(), Some(String::from("the chart is too long to be timed")));
}
