use stepchart::decimal::Decimal;
use stepchart::notedata::{NoteData, NoteRow, NoteType};
use stepchart::position::Position;
use stepchart::timingdata::{
    convert, resolve_tempo, row_time_exec, GameplayInfo, Judged, OffsetInfo, Segment, TempoChange, TimingData,
};

fn dec(mantissa: i64, scale: u32) -> Decimal {
    Decimal { mantissa, scale }
}

fn change(time: Decimal, tempo: Decimal) -> TempoChange {
    TempoChange { time, tempo }
}

fn normal_speed() -> Decimal {
    dec(1, 0)
}

fn tap_row(column: usize) -> NoteRow {
    NoteRow { row: vec![(NoteType::Tap, column)] }
}

#[test]
fn tempo_segments_accumulate() {
    let changes = vec![change(dec(0, 0), dec(120, 0)), change(dec(2, 0), dec(240, 0))];
    let segs = resolve_tempo(&changes, (0, 1));
    assert_eq!(segs.len(), 2);
    assert_eq!((segs[0].start_num, segs[0].start_den), (0, 1));
    assert_eq!((segs[1].start_num, segs[1].start_den), (4000, 1));
    assert_eq!(segs[1].measure, 2);
    assert_eq!(segs[1].frac, Position { num: 0, den: 1 });
}

#[test]
fn tempo_segment_inside_a_measure() {
    let changes = vec![change(dec(0, 0), dec(60, 0)), change(dec(15, 1), dec(120, 0))];
    let segs = resolve_tempo(&changes, (100, 1));
    assert_eq!((segs[0].start_num, segs[0].start_den), (100, 1));
    assert_eq!(segs[1].measure, 1);
    assert_eq!(segs[1].frac, Position { num: 1, den: 2 });
    assert_eq!((segs[1].start_num, segs[1].start_den), (100 + 6000, 1));
}

#[test]
fn tempo_start_times_do_not_decrease() {
    let changes = vec![
        change(dec(0, 0), dec(150, 0)),
        change(dec(1, 0), dec(75, 0)),
        change(dec(1, 0), dec(300, 0)),
        change(dec(325, 2), dec(1205, 1)),
    ];
    let segs = resolve_tempo(&changes, (-50, 1));
    assert_eq!(segs.len(), 4);
    for i in 1..segs.len() {
        assert!(segs[i - 1].start_num * segs[i].start_den <= segs[i].start_num * segs[i - 1].start_den);
    }
}

#[test]
fn empty_tempo_map_gives_no_notes() {
    let segs = resolve_tempo(&Vec::new(), (0, 1));
    assert!(segs.is_empty());
    let measures = vec![vec![(Position { num: 0, den: 1 }, tap_row(0))]];
    let timed = convert(&measures, &segs, normal_speed());
    assert!(timed.columns().iter().all(|c| c.is_empty()));
    assert_eq!(timed.columns().len(), 4);
}

fn single_tempo() -> Vec<Segment> {
    resolve_tempo(&vec![change(dec(0, 0), dec(120, 0))], (0, 1))
}

#[test]
fn note_one_measure_later_at_two_seconds() {
    let measures = vec![
        vec![(Position { num: 0, den: 1 }, tap_row(0))],
        vec![(Position { num: 0, den: 1 }, tap_row(1))],
    ];
    let timed = convert(&measures, &single_tempo(), normal_speed());
    let cols = timed.columns();
    assert_eq!(cols[0], vec![GameplayInfo(0, NoteType::Tap, 0, Position { num: 0, den: 1 })]);
    assert_eq!(cols[1], vec![GameplayInfo(2000, NoteType::Tap, 1, Position { num: 0, den: 1 })]);
}

#[test]
fn rate_scales_the_timeline() {
    let measures = vec![
        vec![(Position { num: 0, den: 1 }, tap_row(0))],
        vec![(Position { num: 1, den: 4 }, tap_row(2))],
    ];
    let fast = convert(&measures, &single_tempo(), dec(2, 0));
    assert_eq!(fast.columns()[2][0].0, 1250);
    let slow = convert(&measures, &single_tempo(), dec(5, 1));
    assert_eq!(slow.columns()[2][0].0, 5000);
}

#[test]
fn thirds_are_exact() {
    let measures = vec![vec![
        (Position { num: 0, den: 1 }, tap_row(0)),
        (Position { num: 1, den: 3 }, tap_row(0)),
        (Position { num: 2, den: 3 }, tap_row(0)),
    ]];
    let segs = resolve_tempo(&vec![change(dec(0, 0), dec(180, 0))], (0, 1));
    let timed = convert(&measures, &segs, normal_speed());
    let times: Vec<i64> = timed.columns()[0].iter().map(|n| n.0).collect();
    assert_eq!(times, vec![0, 444, 888]);
}

#[test]
fn cursor_moves_to_next_tempo() {
    let measures = vec![
        vec![(Position { num: 0, den: 1 }, tap_row(0))],
        vec![(Position { num: 0, den: 1 }, tap_row(0))],
        vec![(Position { num: 0, den: 1 }, tap_row(0)), (Position { num: 1, den: 2 }, tap_row(0))],
    ];
    let segs = resolve_tempo(
        &vec![change(dec(0, 0), dec(120, 0)), change(dec(2, 0), dec(240, 0))],
        (0, 1),
    );
    let timed = convert(&measures, &segs, normal_speed());
    let times: Vec<i64> = timed.columns()[0].iter().map(|n| n.0).collect();
    assert_eq!(times, vec![0, 2000, 4000, 4500]);
}

#[test]
fn notes_outside_the_playfield_are_dropped() {
    let row = NoteRow { row: vec![(NoteType::Tap, 1), (NoteType::Mine, 4), (NoteType::Roll, 3)] };
    let measures = vec![vec![(Position { num: 0, den: 1 }, row)]];
    let timed = convert(&measures, &single_tempo(), normal_speed());
    let counts: Vec<usize> = timed.columns().iter().map(|c| c.len()).collect();
    assert_eq!(counts, vec![0, 1, 0, 1]);
    assert_eq!(timed.columns()[3][0].1, NoteType::Roll);
}

#[test]
fn converting_twice_gives_the_same_notes() {
    let chart = NoteData::from_sm(
        "#OFFSET:0.1;#BPMS:0=150,1.5=90;#NOTES:\n\n\n\n\n1000\n0100\n0010\n0001\n,\n1100\n0011\n;",
    );
    let a = TimingData::from_chartdata(&chart, normal_speed());
    let b = TimingData::from_chartdata(&chart, normal_speed());
    assert_eq!(a.columns(), b.columns());
    assert_eq!(a.columns()[0][0].0, -100);
}

#[test]
fn chart_with_offset_shifts_notes_earlier() {
    let chart = NoteData::from_sm("#OFFSET:0.5;#BPMS:0=120;#NOTES:\n\n\n\n\n0000\n,\n1000\n;");
    let timed = TimingData::from_chartdata(&chart, normal_speed());
    assert_eq!(timed.columns()[0][0].0, 2000 - 500);
}

#[test]
fn timing_data_add_and_columns() {
    let mut data: TimingData<OffsetInfo> = TimingData::new();
    assert!(data.columns().iter().all(|c| c.is_empty()));
    data.add(OffsetInfo(Some(3), NoteType::Tap), 2);
    data.add(OffsetInfo(None, NoteType::Mine), 2);
    assert_eq!(data.columns()[2], vec![OffsetInfo(Some(3), NoteType::Tap), OffsetInfo(None, NoteType::Mine)]);
    assert!(data.columns()[0].is_empty());
}

#[test]
fn judging_each_kind() {
    assert_eq!(OffsetInfo(None, NoteType::Tap).judge(), Judged::Points(-8));
    assert_eq!(OffsetInfo(Some(0), NoteType::Tap).judge(), Judged::Curve(0));
    assert_eq!(OffsetInfo(Some(-12), NoteType::Hold).judge(), Judged::Curve(144));
    assert_eq!(OffsetInfo(Some(5), NoteType::Fake).judge(), Judged::Points(0));
    assert_eq!(OffsetInfo(None, NoteType::Fake).judge(), Judged::Points(0));
    assert_eq!(OffsetInfo(Some(5), NoteType::HoldEnd).judge(), Judged::Points(0));
    assert_eq!(OffsetInfo(Some(5), NoteType::Mine).judge(), Judged::Points(-8));
    assert_eq!(OffsetInfo(None, NoteType::Mine).judge(), Judged::Points(0));
}

#[test]
fn judging_is_symmetric() {
    for offset in 0..180 {
        assert_eq!(
            OffsetInfo(Some(-offset), NoteType::Tap).judge(),
            OffsetInfo(Some(offset), NoteType::Tap).judge()
        );
    }
}

#[test]
fn deviation_grows_with_offset() {
    for offset in 0..179 {
        for kind in [NoteType::Tap, NoteType::Hold, NoteType::Roll, NoteType::Lift] {
            match (OffsetInfo(Some(offset), kind).judge(), OffsetInfo(Some(offset + 1), kind).judge()) {
                (Judged::Curve(a), Judged::Curve(b)) => assert!(a < b),
                _ => panic!("not on the curve"),
            }
        }
    }
}

#[test]
fn most_points() {
    assert_eq!(OffsetInfo(None, NoteType::Tap).max_points(), 2);
    assert_eq!(OffsetInfo(None, NoteType::Lift).max_points(), 2);
    assert_eq!(OffsetInfo(None, NoteType::Mine).max_points(), 0);
    assert_eq!(OffsetInfo(None, NoteType::HoldEnd).max_points(), 0);
    let mut data: TimingData<OffsetInfo> = TimingData::new();
    data.add(OffsetInfo(Some(0), NoteType::Tap), 0);
    assert_eq!(data.max_points(), 2);
    data.add(OffsetInfo(Some(0), NoteType::Mine), 1);
    data.add(OffsetInfo(None, NoteType::Roll), 3);
    assert_eq!(data.max_points(), 4);
}

#[test]
fn starts_are_kept_exact() {
    let changes = vec![
        change(dec(0, 0), dec(7, 0)),
        change(dec(1, 0), dec(7, 0)),
        change(dec(2, 0), dec(7, 0)),
    ];
    let segs = resolve_tempo(&changes, (0, 1));
    assert_eq!((segs[1].start_num, segs[1].start_den), (240_000, 7));
    assert_eq!((segs[2].start_num, segs[2].start_den), (480_000, 7));
    let measures: Vec<Vec<(Position, NoteRow)>> =
        (0..3).map(|_| vec![(Position { num: 0, den: 1 }, tap_row(0))]).collect();
    let timed = convert(&measures, &segs, normal_speed());
    let times: Vec<i64> = timed.columns()[0].iter().map(|n| n.0).collect();
    assert_eq!(times, vec![0, 34285, 68571]);
}

#[test]
fn resolution_stops_when_start_times_overflow() {
    let changes = vec![
        change(dec(0, 0), dec(1, 18)),
        change(dec(999_999_999_999_999_999, 0), dec(120, 0)),
        change(dec(999_999_999_999_999_999, 0), dec(60, 0)),
    ];
    let segs = resolve_tempo(&changes, (0, 1));
    assert_eq!(segs.len(), 1);
    assert_eq!((segs[0].start_num, segs[0].start_den), (0, 1));
}

#[test]
fn rows_far_into_the_chart_get_exact_times() {
    let segs = single_tempo();
    assert_eq!(row_time_exec(&segs[0], 1, Position { num: 0, den: 1 }, normal_speed()), Some(2000));
    assert_eq!(row_time_exec(&segs[0], 65_536, Position { num: 0, den: 1 }, normal_speed()), Some(131_072_000));
    assert_eq!(row_time_exec(&segs[0], 0, Position { num: 1, den: 65_536 }, normal_speed()), Some(0));
    assert_eq!(row_time_exec(&segs[0], 100_000, Position { num: 1, den: 3 }, normal_speed()), Some(200_000_666));
}

#[test]
fn times_beyond_64_bits_are_not_given() {
    let segs = resolve_tempo(&vec![change(dec(0, 0), dec(1, 18))], (0, 1));
    assert_eq!(row_time_exec(&segs[0], 1_000_000, Position { num: 0, den: 1 }, normal_speed()), None);
}
