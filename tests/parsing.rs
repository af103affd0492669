use stepchart::decimal::{parse_decimal, Decimal};
use stepchart::notedata::{
    char_to_notetype, field_kind, parse_bpms, parse_line, parse_main_block, parse_measure,
    parse_offset, split_lines, split_on, split_once, Field, NoteData, NoteType,
};
use stepchart::position::Position;
use stepchart::timingdata::TempoChange;

fn chars(s: &str) -> Vec<char> {
    s.chars().collect()
}

fn dec(mantissa: i64, scale: u32) -> Decimal {
    Decimal { mantissa, scale }
}

#[test]
fn note_characters() {
    assert_eq!(char_to_notetype('0'), None);
    assert_eq!(char_to_notetype('1'), Some(NoteType::Tap));
    assert_eq!(char_to_notetype('2'), Some(NoteType::Hold));
    assert_eq!(char_to_notetype('3'), Some(NoteType::HoldEnd));
    assert_eq!(char_to_notetype('4'), Some(NoteType::Roll));
    assert_eq!(char_to_notetype('M'), Some(NoteType::Mine));
    assert_eq!(char_to_notetype('L'), Some(NoteType::Lift));
    assert_eq!(char_to_notetype('F'), Some(NoteType::Fake));
    assert_eq!(char_to_notetype('x'), None);
    assert_eq!(char_to_notetype(';'), None);
}

#[test]
fn line_to_row() {
    let row = parse_line(&chars("1020"));
    assert_eq!(row.row, vec![(NoteType::Tap, 0), (NoteType::Hold, 2)]);
    let row = parse_line(&chars("M?L3"));
    assert_eq!(row.row, vec![(NoteType::Mine, 0), (NoteType::Lift, 2), (NoteType::HoldEnd, 3)]);
    assert!(parse_line(&chars("")).row.is_empty());
}

#[test]
fn four_rows_get_quarter_positions() {
    let lines = vec![chars("1000"), chars("0100"), chars("0010"), chars("0001")];
    let parsed = parse_measure(&lines);
    let positions: Vec<Position> = parsed.iter().map(|r| r.0).collect();
    assert_eq!(
        positions,
        vec![
            Position { num: 0, den: 1 },
            Position { num: 1, den: 4 },
            Position { num: 1, den: 2 },
            Position { num: 3, den: 4 },
        ]
    );
    assert_eq!(parsed[3].1.row, vec![(NoteType::Tap, 3)]);
}

#[test]
fn twelve_rows_are_reduced() {
    let lines: Vec<Vec<char>> = (0..12).map(|_| chars("0000")).collect();
    let parsed = parse_measure(&lines);
    assert_eq!(parsed[4].0, Position { num: 1, den: 3 });
    assert_eq!(parsed[6].0, Position { num: 1, den: 2 });
    assert_eq!(parsed[10].0, Position { num: 5, den: 6 });
    assert_eq!(Position::of_row(2, 4), Position { num: 1, den: 2 });
}

#[test]
fn empty_measure_has_no_rows() {
    let parsed = parse_measure(&Vec::new());
    assert!(parsed.is_empty());
}

#[test]
fn lines_drop_carriage_returns() {
    let lines = split_lines(&chars("ab\r\ncd\n"));
    assert_eq!(lines, vec![chars("ab"), chars("cd"), chars("")]);
}

#[test]
fn splitting() {
    assert_eq!(split_on(&chars("a,b,,c"), ','), vec![chars("a"), chars("b"), chars(""), chars("c")]);
    assert_eq!(split_once(&chars("TITLE:My:Song;"), ':'), (chars("TITLE"), chars("My:Song;")));
    assert_eq!(split_once(&chars("NOCOLON"), ':'), (chars("NOCOLON"), chars("")));
}

#[test]
fn decimals() {
    assert_eq!(parse_decimal(&chars("120.000")), Some(dec(120000, 3)));
    assert_eq!(parse_decimal(&chars("-0.009")), Some(dec(-9, 3)));
    assert_eq!(parse_decimal(&chars("4")), Some(dec(4, 0)));
    assert_eq!(parse_decimal(&chars(".5")), Some(dec(5, 1)));
    assert_eq!(parse_decimal(&chars("")), None);
    assert_eq!(parse_decimal(&chars(".")), None);
    assert_eq!(parse_decimal(&chars("1.2.3")), None);
    assert_eq!(parse_decimal(&chars("12a")), None);
    assert_eq!(parse_decimal(&chars("1234567890")), Some(dec(1_234_567_890, 0)));
    assert_eq!(parse_decimal(&chars("1000.000000")), Some(dec(1_000_000_000, 6)));
    assert_eq!(parse_decimal(&chars("1234567890123456789")), None);
}

#[test]
fn offset_is_negated() {
    assert_eq!(parse_offset(&chars("-0.009;\n")), Some(dec(9, 3)));
    assert_eq!(parse_offset(&chars("1.5;")), Some(dec(-15, 1)));
    assert_eq!(parse_offset(&chars("1.5")), None);
    assert_eq!(parse_offset(&chars("abc;")), None);
    assert_eq!(parse_offset(&chars("1.234567890;")), Some(dec(-1_234_567_890, 9)));
}

#[test]
fn tempo_changes() {
    let cs = parse_bpms(&chars("0.000=120.000,2.000=240.000;\n")).unwrap();
    assert_eq!(
        cs,
        vec![
            TempoChange { time: dec(0, 3), tempo: dec(120000, 3) },
            TempoChange { time: dec(2000, 3), tempo: dec(240000, 3) },
        ]
    );
    assert_eq!(parse_bpms(&chars("0=120")), None);
    assert_eq!(parse_bpms(&chars("0=120,x=3;")), None);
    assert_eq!(parse_bpms(&chars("0=0;")), None);
    assert_eq!(
        parse_bpms(&chars("0.000000=1000.000000;")),
        Some(vec![TempoChange { time: dec(0, 6), tempo: dec(1_000_000_000, 6) }])
    );
}

#[test]
fn field_names() {
    assert_eq!(field_kind(&chars("TITLE")), Field::Title);
    assert_eq!(field_kind(&chars("OFFSET")), Field::Offset);
    assert_eq!(field_kind(&chars("BPMS")), Field::Bpms);
    assert_eq!(field_kind(&chars("NOTES")), Field::Notes);
    assert_eq!(field_kind(&chars("ARTIST")), Field::Other);
    assert_eq!(field_kind(&chars("title")), Field::Other);
}

#[test]
fn main_block_skips_header_and_splits_measures() {
    let body = "\n     dance-single:\n     :\n     Beginner:\n     1:\n1000\n0100\n\n0010\n0001\n,\n2000\n0000\n,\n,\n3000\n";
    let notes = parse_main_block(&chars(body));
    assert_eq!(notes.len(), 4);
    assert_eq!(notes[0].len(), 4);
    assert_eq!(notes[0][2].0, Position { num: 1, den: 2 });
    assert_eq!(notes[0][2].1.row, vec![(NoteType::Tap, 2)]);
    assert_eq!(notes[1].len(), 2);
    assert_eq!(notes[1][1].0, Position { num: 1, den: 2 });
    assert!(notes[2].is_empty());
    assert_eq!(notes[3][0].1.row, vec![(NoteType::HoldEnd, 0)]);
}

fn sample_chart() -> String {
    let mut s = String::new();
    s.push_str("#TITLE:Sample Song;\n#ARTIST:Someone;\n#OFFSET:-0.250;\n");
    s.push_str("#BPMS:0.000=120.000,2.000=240.000;\n");
    s.push_str("#NOTES:\n     dance-single:\n     :\n     Beginner:\n     1:\n");
    s.push_str("1000\n0000\n0100\n0000\n,\n0010\n0000\n,\n0001\n;\n");
    s
}

#[test]
fn whole_chart() {
    let chart = NoteData::from_sm(&sample_chart());
    assert_eq!(chart.data.title, Some("Sample Song;\n".to_string()));
    assert_eq!(chart.data.offset, Some(dec(250, 3)));
    assert_eq!(chart.data.bpm, Some(dec(240000, 3)));
    assert_eq!(chart.data.bpms.len(), 2);
    let measures = chart.columns();
    assert_eq!(measures.len(), 3);
    assert_eq!(measures[0].len(), 4);
    assert_eq!(measures[0][2].1.row, vec![(NoteType::Tap, 1)]);
    assert_eq!(measures[2].len(), 2);
    assert_eq!(measures[2][1].0, Position { num: 1, den: 2 });
}

#[test]
fn malformed_fields_are_left_unset() {
    let chart = NoteData::from_sm("#OFFSET:soon;#BPMS:fast;#TITLE:T;");
    assert_eq!(chart.data.offset, None);
    assert!(chart.data.bpms.is_empty());
    assert_eq!(chart.data.bpm, None);
    assert_eq!(chart.data.title, Some("T;".to_string()));
    assert!(chart.columns().is_empty());
}

#[test]
fn last_field_of_a_kind_counts() {
    let chart = NoteData::from_sm("#TITLE:A;#TITLE:B;");
    assert_eq!(chart.data.title, Some("B;".to_string()));
}
