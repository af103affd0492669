//! Chart text: note kinds, rows, measures and the tagged fields around them.
use vstd::prelude::*;
use crate::position::Position;
use crate::decimal::{Decimal, decimal_of, parse_decimal, pow10};
use crate::timingdata::TempoChange;

verus! {

/// What a single cell of the note grid holds.
#[derive(Clone, Copy, Debug, PartialEq, Eq, Structural)]
pub enum NoteType {
    Tap,
    Hold,
    HoldEnd,
    Roll,
    Mine,
    Lift,
    Fake,
}

/// The note that a grid character stands for; unknown characters stand for none.
pub open spec fn note_of(c: char) -> Option<NoteType> {
    if c == '1' {
        Some(NoteType::Tap)
    } else if c == '2' {
        Some(NoteType::Hold)
    } else if c == '3' {
        Some(NoteType::HoldEnd)
    } else if c == '4' {
        Some(NoteType::Roll)
    } else if c == 'M' {
        Some(NoteType::Mine)
    } else if c == 'L' {
        Some(NoteType::Lift)
    } else if c == 'F' {
        Some(NoteType::Fake)
    } else {
        None
    }
}

pub fn char_to_notetype(character: char) -> (r: Option<NoteType>)
    ensures
        r == note_of(character),
{
    match character {
        '1' => Some(NoteType::Tap),
        '2' => Some(NoteType::Hold),
        '3' => Some(NoteType::HoldEnd),
        '4' => Some(NoteType::Roll),
        'M' => Some(NoteType::Mine),
        'L' => Some(NoteType::Lift),
        'F' => Some(NoteType::Fake),
        _ => None,
    }
}

/// The notes of one grid line, as (kind, column) in column order.
pub open spec fn row_of(s: Seq<char>) -> Seq<(NoteType, usize)>
    decreases s.len(),
{
    if s.len() == 0 {
        seq![]
    } else {
        let front = row_of(s.drop_last());
        match note_of(s.last()) {
            Some(t) => front.push((t, (s.len() - 1) as usize)),
            None => front,
        }
    }
}

/// The notes that share one position of a measure.
#[derive(Debug)]
pub struct NoteRow {
    pub row: Vec<(NoteType, usize)>,
}

pub fn parse_line(contents: &[char]) -> (r: NoteRow)
    ensures
        r.row@ == row_of(contents@),
{
    let mut row: Vec<(NoteType, usize)> = Vec::new();
    let mut i: usize = 0;
    while i < contents.len()
        invariant
            i <= contents@.len(),
            row@ == row_of(contents@.subrange(0, i as int)),
        decreases contents@.len() - i,
    {
        assert(contents@.subrange(0, i + 1).drop_last() =~= contents@.subrange(0, i as int));
        if let Some(note) = char_to_notetype(contents[i]) {
            row.push((note, i));
        }
        i = i + 1;
    }
    assert(contents@.subrange(0, i as int) =~= contents@);
    NoteRow { row }
}

/// `rows` are the parsed lines `lines` of one measure, row `n` of `k` standing
/// at `n / k`.
pub open spec fn measure_parsed(rows: Seq<(Position, NoteRow)>, lines: Seq<Seq<char>>) -> bool {
    &&& rows.len() == lines.len()
    &&& forall|n: int| #![trigger rows[n]] 0 <= n < rows.len() ==> {
        &&& rows[n].0.wf()
        &&& rows[n].0.is_fraction(n, lines.len() as int)
        &&& rows[n].1.row@ == row_of(lines[n])
    }
}

pub fn parse_measure(measure: &Vec<Vec<char>>) -> (r: Vec<(Position, NoteRow)>)
    ensures
        measure_parsed(r@, measure@.map_values(|l: Vec<char>| l@)),
{
    let ghost lines = measure@.map_values(|l: Vec<char>| l@);
    let mut output: Vec<(Position, NoteRow)> = Vec::new();
    let division = measure.len();
    let mut n: usize = 0;
    while n < division
        invariant
            n <= division == measure@.len() == lines.len(),
            lines == measure@.map_values(|l: Vec<char>| l@),
            output@.len() == n,
            forall|j: int| #![trigger output@[j]] 0 <= j < n ==> {
                &&& output@[j].0.wf()
                &&& output@[j].0.is_fraction(j, division as int)
                &&& output@[j].1.row@ == row_of(lines[j])
            },
        decreases division - n,
    {
        let p = Position::of_row(n as u64, division as u64);
        let row = parse_line(measure[n].as_slice());
        output.push((p, row));
        n = n + 1;
    }
    output
}

/// The stretches of `s` between occurrences of `sep`, in order.
pub open spec fn pieces(s: Seq<char>, sep: char) -> Seq<Seq<char>>
    decreases s.len(),
{
    if s.len() == 0 {
        seq![seq![]]
    } else {
        let p = pieces(s.drop_last(), sep);
        if s.last() == sep {
            p.push(seq![])
        } else {
            p.update(p.len() - 1, p.last().push(s.last()))
        }
    }
}

proof fn lemma_pieces_nonempty(s: Seq<char>, sep: char)
    ensures
        pieces(s, sep).len() >= 1,
    decreases s.len(),
{
    if s.len() > 0 {
        lemma_pieces_nonempty(s.drop_last(), sep);
    }
}

/// A line without the carriage return that ends it, if any.
pub open spec fn trim_cr(l: Seq<char>) -> Seq<char> {
    if l.len() > 0 && l.last() == '\r' {
        l.drop_last()
    } else {
        l
    }
}

/// The lines of a text.
pub open spec fn text_lines(s: Seq<char>) -> Seq<Seq<char>> {
    pieces(s, '\n').map_values(|l: Seq<char>| trim_cr(l))
}

fn copy_chars(v: &[char], from: usize, to: usize) -> (r: Vec<char>)
    requires
        from <= to <= v@.len(),
    ensures
        r@ == v@.subrange(from as int, to as int),
{
    let mut r: Vec<char> = Vec::new();
    let mut i: usize = from;
    while i < to
        invariant
            from <= i <= to <= v@.len(),
            r@ == v@.subrange(from as int, i as int),
        decreases to - i,
    {
        r.push(v[i]);
        i = i + 1;
        assert(r@ =~= v@.subrange(from as int, i as int));
    }
    r
}

fn trim_line(line: &mut Vec<char>)
    ensures
        final(line)@ == trim_cr(old(line)@),
{
    let n = line.len();
    if n > 0 && line[n - 1] == '\r' {
        line.pop();
        assert(line@ =~= old(line)@.drop_last());
    }
}

pub fn split_lines(text: &[char]) -> (r: Vec<Vec<char>>)
    ensures
        r@.map_values(|l: Vec<char>| l@) == text_lines(text@),
{
    let mut out: Vec<Vec<char>> = Vec::new();
    let mut cur: Vec<char> = Vec::new();
    let mut i: usize = 0;
    while i < text.len()
        invariant
            i <= text@.len(),
            pieces(text@.subrange(0, i as int), '\n').len() == out@.len() + 1,
            cur@ == pieces(text@.subrange(0, i as int), '\n').last(),
            forall|j: int| #![trigger out@[j]] 0 <= j < out@.len()
                ==> out@[j]@ == trim_cr(pieces(text@.subrange(0, i as int), '\n')[j]),
        decreases text@.len() - i,
    {
        let ghost before = text@.subrange(0, i as int);
        proof {
            lemma_pieces_nonempty(before, '\n');
            assert(text@.subrange(0, i + 1).drop_last() =~= before);
        }
        let c = text[i];
        if c == '\n' {
            let mut line = cur;
            trim_line(&mut line);
            out.push(line);
            cur = Vec::new();
        } else {
            cur.push(c);
        }
        i = i + 1;
    }
    assert(text@.subrange(0, i as int) =~= text@);
    trim_line(&mut cur);
    out.push(cur);
    assert(out@.map_values(|l: Vec<char>| l@) =~= text_lines(text@));
    out
}

/// Lines grouped into measures: a line that is one comma closes a measure,
/// blank lines are left out.
pub open spec fn group_measures(ls: Seq<Seq<char>>) -> Seq<Seq<Seq<char>>>
    decreases ls.len(),
{
    if ls.len() == 0 {
        seq![seq![]]
    } else {
        let g = group_measures(ls.drop_last());
        let l = ls.last();
        if l == seq![','] {
            g.push(seq![])
        } else if l.len() == 0 {
            g
        } else {
            g.update(g.len() - 1, g.last().push(l))
        }
    }
}

proof fn lemma_group_nonempty(ls: Seq<Seq<char>>)
    ensures
        group_measures(ls).len() >= 1,
    decreases ls.len(),
{
    if ls.len() > 0 {
        lemma_group_nonempty(ls.drop_last());
    }
}

/// Number of header lines in front of the note grid.
pub const HEADER_LINES: usize = 5;

/// The measures of a note-grid body: its lines after the header, grouped.
pub open spec fn measures_of(body: Seq<char>) -> Seq<Seq<Seq<char>>> {
    let ls = text_lines(body);
    if ls.len() <= HEADER_LINES {
        group_measures(seq![])
    } else {
        group_measures(ls.subrange(HEADER_LINES as int, ls.len() as int))
    }
}

/// `notes` are the parsed measures `ms`, in order.
pub open spec fn chart_parsed(notes: Seq<Vec<(Position, NoteRow)>>, ms: Seq<Seq<Seq<char>>>) -> bool {
    &&& notes.len() == ms.len()
    &&& forall|i: int| #![trigger notes[i]] 0 <= i < notes.len() ==> measure_parsed(notes[i]@, ms[i])
}

pub fn parse_main_block(contents: &[char]) -> (r: Vec<Vec<(Position, NoteRow)>>)
    ensures
        chart_parsed(r@, measures_of(contents@)),
{
    let lines = split_lines(contents);
    let ghost ls = lines@.map_values(|l: Vec<char>| l@);
    let mut notes: Vec<Vec<(Position, NoteRow)>> = Vec::new();
    let mut measure: Vec<Vec<char>> = Vec::new();
    let mut j: usize = HEADER_LINES;
    if lines.len() < HEADER_LINES {
        j = lines.len();
    }
    let start = j;
    assert(ls.subrange(start as int, start as int) =~= seq![]);
    while j < lines.len()
        invariant
            start <= j <= lines@.len(),
            ls == lines@.map_values(|l: Vec<char>| l@),
            group_measures(ls.subrange(start as int, j as int)).len() == notes@.len() + 1,
            measure@.map_values(|l: Vec<char>| l@)
                == group_measures(ls.subrange(start as int, j as int)).last(),
            forall|i: int| #![trigger notes@[i]] 0 <= i < notes@.len()
                ==> measure_parsed(notes@[i]@, group_measures(ls.subrange(start as int, j as int))[i]),
        decreases lines@.len() - j,
    {
        let ghost before = ls.subrange(start as int, j as int);
        proof {
            lemma_group_nonempty(before);
            assert(ls.subrange(start as int, j + 1).drop_last() =~= before);
        }
        let line = &lines[j];
        let ghost l = ls[j as int];
        assert(line@ == l);
        if line.len() == 1 && line[0] == ',' {
            assert(l =~= seq![',']);
            let parsed = parse_measure(&measure);
            notes.push(parsed);
            measure = Vec::new();
            assert(measure@.map_values(|l: Vec<char>| l@) =~= seq![]);
        } else if line.len() == 0 {
        } else {
            assert(l != seq![',']) by {
                if l == seq![','] {
                    assert(l[0] == ',');
                }
            }
            let ghost m0 = measure@.map_values(|l: Vec<char>| l@);
            measure.push(copy_chars(line.as_slice(), 0, line.len()));
            assert(line@.subrange(0, line@.len() as int) =~= line@);
            assert(measure@.map_values(|l: Vec<char>| l@) =~= m0.push(l));
        }
        j = j + 1;
    }
    let parsed = parse_measure(&measure);
    notes.push(parsed);
    proof {
        let tl = text_lines(contents@);
        assert(ls == tl);
        if tl.len() > HEADER_LINES {
            assert(ls.subrange(start as int, j as int) =~= tl.subrange(HEADER_LINES as int, tl.len() as int));
        } else {
            assert(ls.subrange(start as int, j as int) =~= seq![]);
        }
    }
    notes
}

pub open spec fn lines_view(v: Seq<Vec<char>>) -> Seq<Seq<char>> {
    v.map_values(|l: Vec<char>| l@)
}

/// Splits `text` at every `sep`.
pub fn split_on(text: &[char], sep: char) -> (r: Vec<Vec<char>>)
    ensures
        lines_view(r@) == pieces(text@, sep),
{
    let mut out: Vec<Vec<char>> = Vec::new();
    let mut cur: Vec<char> = Vec::new();
    let mut i: usize = 0;
    while i < text.len()
        invariant
            i <= text@.len(),
            pieces(text@.subrange(0, i as int), sep).len() == out@.len() + 1,
            cur@ == pieces(text@.subrange(0, i as int), sep).last(),
            forall|j: int| #![trigger out@[j]] 0 <= j < out@.len()
                ==> out@[j]@ == pieces(text@.subrange(0, i as int), sep)[j],
        decreases text@.len() - i,
    {
        let ghost before = text@.subrange(0, i as int);
        proof {
            lemma_pieces_nonempty(before, sep);
            assert(text@.subrange(0, i + 1).drop_last() =~= before);
        }
        let c = text[i];
        if c == sep {
            out.push(cur);
            cur = Vec::new();
        } else {
            cur.push(c);
        }
        i = i + 1;
    }
    assert(text@.subrange(0, i as int) =~= text@);
    out.push(cur);
    assert(lines_view(out@) =~= pieces(text@, sep));
    out
}

/// What comes before the first `letter` of `s` (all of `s` if there is
/// none), and what comes after it (nothing if there is none).
pub open spec fn split_once_of(s: Seq<char>, letter: char) -> (Seq<char>, Seq<char>) {
    let head = pieces(s, letter)[0];
    if head.len() < s.len() {
        (head, s.subrange(head.len() + 1int, s.len() as int))
    } else {
        (head, seq![])
    }
}

proof fn lemma_first_piece(s: Seq<char>, sep: char)
    ensures
        pieces(s, sep)[0].len() <= s.len(),
    decreases s.len(),
{
    lemma_pieces_nonempty(s, sep);
    if s.len() > 0 {
        lemma_first_piece(s.drop_last(), sep);
        lemma_pieces_nonempty(s.drop_last(), sep);
    }
}

pub fn split_once(contents: &[char], letter: char) -> (r: (Vec<char>, Vec<char>))
    ensures
        (r.0@, r.1@) == split_once_of(contents@, letter),
{
    let mut parts = split_on(contents, letter);
    proof {
        lemma_pieces_nonempty(contents@, letter);
        lemma_first_piece(contents@, letter);
    }
    let first = parts.swap_remove(0);
    assert(first@ == pieces(contents@, letter)[0]);
    if first.len() < contents.len() {
        let second = copy_chars(contents, first.len() + 1, contents.len());
        (first, second)
    } else {
        (first, Vec::new())
    }
}

/// The value of an `OFFSET` field: a decimal ended by `;`, negated so that it
/// says how much earlier the notes fall.
pub open spec fn offset_of(v: Seq<char>) -> Option<Decimal> {
    let p = pieces(v, ';');
    if p.len() >= 2 {
        match decimal_of(p[0]) {
            Some(d) => Some(Decimal { mantissa: (-d.mantissa) as i64, scale: d.scale }),
            None => None,
        }
    } else {
        None
    }
}

/// One `time=tempo` pair, with a time that is not negative and a positive tempo.
pub open spec fn tempo_change_of(item: Seq<char>) -> Option<TempoChange> {
    let q = pieces(item, '=');
    if q.len() == 2 {
        match (decimal_of(q[0]), decimal_of(q[1])) {
            (Some(time), Some(tempo)) => if time.mantissa >= 0 && tempo.mantissa > 0 {
                Some(TempoChange { time, tempo })
            } else {
                None
            },
            _ => None,
        }
    } else {
        None
    }
}

/// Every item a tempo change, or `None`.
pub open spec fn changes_of(items: Seq<Seq<char>>) -> Option<Seq<TempoChange>>
    decreases items.len(),
{
    if items.len() == 0 {
        Some(seq![])
    } else {
        match (changes_of(items.drop_last()), tempo_change_of(items.last())) {
            (Some(cs), Some(c)) => Some(cs.push(c)),
            _ => None,
        }
    }
}

/// The value of a `BPMS` field: `time=tempo` pairs separated by `,` and ended by `;`.
pub open spec fn bpms_of(v: Seq<char>) -> Option<Seq<TempoChange>> {
    let p = pieces(v, ';');
    if p.len() >= 2 {
        changes_of(pieces(p[0], ','))
    } else {
        None
    }
}

pub fn parse_offset(v: &[char]) -> (r: Option<Decimal>)
    ensures
        r == offset_of(v@),
        r matches Some(d) ==> d.wf(),
{
    let p = split_on(v, ';');
    if p.len() >= 2 {
        assert(p@[0]@ == pieces(v@, ';')[0]);
        proof {
            reveal_with_fuel(pow10, 19);
        }
        match parse_decimal(p[0].as_slice()) {
            Some(d) => Some(Decimal { mantissa: -d.mantissa, scale: d.scale }),
            None => None,
        }
    } else {
        None
    }
}

fn parse_tempo_change(item: &[char]) -> (r: Option<TempoChange>)
    ensures
        r == tempo_change_of(item@),
        r matches Some(c) ==> c.wf(),
{
    let q = split_on(item, '=');
    if q.len() == 2 {
        assert(q@[0]@ == pieces(item@, '=')[0]);
        assert(q@[1]@ == pieces(item@, '=')[1]);
        match (parse_decimal(q[0].as_slice()), parse_decimal(q[1].as_slice())) {
            (Some(time), Some(tempo)) => if time.mantissa >= 0 && tempo.mantissa > 0 {
                Some(TempoChange { time, tempo })
            } else {
                None
            },
            _ => None,
        }
    } else {
        None
    }
}

pub fn parse_bpms(v: &[char]) -> (r: Option<Vec<TempoChange>>)
    ensures
        match r {
            Some(cs) => bpms_of(v@) == Some(cs@),
            None => bpms_of(v@).is_none(),
        },
        r matches Some(cs) ==> forall|i: int| 0 <= i < cs@.len() ==> (#[trigger] cs@[i]).wf(),
{
    let p = split_on(v, ';');
    if p.len() < 2 {
        return None;
    }
    assert(p@[0]@ == pieces(v@, ';')[0]);
    let items = split_on(p[0].as_slice(), ',');
    let ghost its = lines_view(items@);
    assert(bpms_of(v@) == changes_of(its));
    assert(its.subrange(0, 0) =~= seq![]);
    let mut cs: Vec<TempoChange> = Vec::new();
    let mut i: usize = 0;
    while i < items.len()
        invariant
            i <= items@.len(),
            its == lines_view(items@),
            bpms_of(v@) == changes_of(its),
            changes_of(its.subrange(0, i as int)) == Some(cs@),
            forall|k: int| 0 <= k < cs@.len() ==> (#[trigger] cs@[k]).wf(),
        decreases items@.len() - i,
    {
        assert(its.subrange(0, i + 1).drop_last() =~= its.subrange(0, i as int));
        assert(items@[i as int]@ == its[i as int]);
        match parse_tempo_change(items[i].as_slice()) {
            Some(c) => cs.push(c),
            None => {
                proof {
                    assert(its.subrange(0, i + 1).last() == its[i as int]);
                    lemma_changes_fail(its, i + 1);
                }
                return None;
            },
        }
        i = i + 1;
    }
    assert(its.subrange(0, i as int) =~= its);
    Some(cs)
}

proof fn lemma_changes_fail(items: Seq<Seq<char>>, k: int)
    requires
        0 <= k <= items.len(),
        changes_of(items.subrange(0, k)).is_none(),
    ensures
        changes_of(items).is_none(),
    decreases items.len() - k,
{
    if k < items.len() {
        assert(items.subrange(0, k + 1).drop_last() =~= items.subrange(0, k));
        lemma_changes_fail(items, k + 1);
    } else {
        assert(items.subrange(0, k) =~= items);
    }
}

/// The fields of a chart that are read; any other is passed over.
#[derive(Clone, Copy, Debug, PartialEq, Eq, Structural)]
pub enum Field {
    Title,
    Offset,
    Bpms,
    Notes,
    Other,
}

pub open spec fn field_of(name: Seq<char>) -> Field {
    if name == seq!['T', 'I', 'T', 'L', 'E'] {
        Field::Title
    } else if name == seq!['O', 'F', 'F', 'S', 'E', 'T'] {
        Field::Offset
    } else if name == seq!['B', 'P', 'M', 'S'] {
        Field::Bpms
    } else if name == seq!['N', 'O', 'T', 'E', 'S'] {
        Field::Notes
    } else {
        Field::Other
    }
}

pub fn field_kind(name: &[char]) -> (r: Field)
    ensures
        r == field_of(name@),
{
    let n = name.len();
    if n == 5 && name[0] == 'T' && name[1] == 'I' && name[2] == 'T' && name[3] == 'L' && name[4] == 'E' {
        assert(name@ =~= seq!['T', 'I', 'T', 'L', 'E']);
        Field::Title
    } else if n == 6 && name[0] == 'O' && name[1] == 'F' && name[2] == 'F' && name[3] == 'S' && name[4]
        == 'E' && name[5] == 'T' {
        assert(name@ =~= seq!['O', 'F', 'F', 'S', 'E', 'T']);
        assert(name@ != seq!['T', 'I', 'T', 'L', 'E']);
        Field::Offset
    } else if n == 4 && name[0] == 'B' && name[1] == 'P' && name[2] == 'M' && name[3] == 'S' {
        assert(name@ =~= seq!['B', 'P', 'M', 'S']);
        assert(name@ != seq!['T', 'I', 'T', 'L', 'E']);
        assert(name@ != seq!['O', 'F', 'F', 'S', 'E', 'T']);
        Field::Bpms
    } else if n == 5 && name[0] == 'N' && name[1] == 'O' && name[2] == 'T' && name[3] == 'E' && name[4]
        == 'S' {
        assert(name@ =~= seq!['N', 'O', 'T', 'E', 'S']);
        assert(name@ != seq!['T', 'I', 'T', 'L', 'E']) by {
            assert(seq!['T', 'I', 'T', 'L', 'E'][0] == 'T');
        }
        assert(name@ != seq!['O', 'F', 'F', 'S', 'E', 'T']);
        assert(name@ != seq!['B', 'P', 'M', 'S']);
        Field::Notes
    } else {
        proof {
            if name@ == seq!['T', 'I', 'T', 'L', 'E'] {
                assert(name@[0] == 'T' && name@[1] == 'I' && name@[2] == 'T' && name@[3] == 'L' && name@[4] == 'E');
            }
            if name@ == seq!['O', 'F', 'F', 'S', 'E', 'T'] {
                assert(name@[0] == 'O' && name@[1] == 'F' && name@[2] == 'F' && name@[3] == 'S' && name@[4] == 'E' && name@[5] == 'T');
            }
            if name@ == seq!['B', 'P', 'M', 'S'] {
                assert(name@[0] == 'B' && name@[1] == 'P' && name@[2] == 'M' && name@[3] == 'S');
            }
            if name@ == seq!['N', 'O', 'T', 'E', 'S'] {
                assert(name@[0] == 'N' && name@[1] == 'O' && name@[2] == 'T' && name@[3] == 'E' && name@[4] == 'S');
            }
        }
        Field::Other
    }
}

/// Relies on `str::chars`: the characters of `s` in order.
#[verifier::external_body]
fn chars_of(s: &str) -> (r: Vec<char>)
    ensures
        r@ == s@,
{
    s.chars().collect()
}

/// Relies on `String::from_iter` over characters: a string of exactly these
/// characters.
#[verifier::external_body]
fn string_of(v: &[char]) -> (r: String)
    ensures
        r@ == v@,
{
    String::from_iter(v.iter())
}

/// What a chart says about itself.
#[derive(Debug)]
pub struct ChartMetadata {
    pub title: Option<String>,
    /// Seconds by which the notes are shifted earlier.
    pub offset: Option<Decimal>,
    /// The tempo of the last tempo change, for display.
    pub bpm: Option<Decimal>,
    pub bpms: Vec<TempoChange>,
}

impl ChartMetadata {
    pub fn new() -> (r: Self)
        ensures
            r.title.is_none(),
            r.offset.is_none(),
            r.bpm.is_none(),
            r.bpms@.len() == 0,
    {
        ChartMetadata { title: None, offset: None, bpm: None, bpms: Vec::new() }
    }
}

/// A parsed chart: its measures and its metadata.
#[derive(Debug)]
pub struct NoteData {
    pub notes: Vec<Vec<(Position, NoteRow)>>,
    pub data: ChartMetadata,
}

/// The value of the last field of kind `f` among the pieces `ps` of a chart.
pub open spec fn last_field(ps: Seq<Seq<char>>, f: Field) -> Option<Seq<char>>
    decreases ps.len(),
{
    if ps.len() == 0 {
        None
    } else {
        let (name, value) = split_once_of(ps.last(), ':');
        if field_of(name) == f {
            Some(value)
        } else {
            last_field(ps.drop_last(), f)
        }
    }
}

pub open spec fn title_matches(title: Option<String>, v: Option<Seq<char>>) -> bool {
    match v {
        None => title.is_none(),
        Some(v) => title matches Some(t) && t@ == v,
    }
}

pub open spec fn offset_matches(offset: Option<Decimal>, v: Option<Seq<char>>) -> bool {
    match v {
        None => offset.is_none(),
        Some(v) => offset == offset_of(v),
    }
}

/// The tempo changes of a `BPMS` value, none where it does not parse, and the
/// tempo of the last of them.
pub open spec fn bpms_match(bpms: Seq<TempoChange>, bpm: Option<Decimal>, v: Option<Seq<char>>) -> bool {
    let cs = match v {
        None => seq![],
        Some(v) => match bpms_of(v) {
            Some(cs) => cs,
            None => seq![],
        },
    };
    &&& bpms == cs
    &&& bpm == (if cs.len() > 0 { Some(cs.last().tempo) } else { None })
}

pub open spec fn notes_match(notes: Seq<Vec<(Position, NoteRow)>>, v: Option<Seq<char>>) -> bool {
    match v {
        None => notes.len() == 0,
        Some(v) => chart_parsed(notes, measures_of(v)),
    }
}

/// Reads field `tag` with value `contents` into `data`: a field that is read
/// replaces what an earlier one of its kind left; any other changes nothing.
pub fn parse_tag(tag: &[char], contents: &[char], data: &mut NoteData)
    requires
        old(data).parts_wf(),
    ensures
        final(data).parts_wf(),
        field_of(tag@) == Field::Title ==> title_matches(final(data).data.title, Some(contents@)),
        field_of(tag@) != Field::Title ==> final(data).data.title == old(data).data.title,
        field_of(tag@) == Field::Offset ==> offset_matches(final(data).data.offset, Some(contents@)),
        field_of(tag@) != Field::Offset ==> final(data).data.offset == old(data).data.offset,
        field_of(tag@) == Field::Bpms ==> bpms_match(
            final(data).data.bpms@,
            final(data).data.bpm,
            Some(contents@),
        ),
        field_of(tag@) != Field::Bpms ==> final(data).data.bpms@ == old(data).data.bpms@
            && final(data).data.bpm == old(data).data.bpm,
        field_of(tag@) == Field::Notes ==> notes_match(final(data).notes@, Some(contents@)),
        field_of(tag@) != Field::Notes ==> final(data).notes@ == old(data).notes@,
{
    match field_kind(tag) {
        Field::Title => {
            data.data.title = Some(string_of(contents));
            assert(data.measures() == old(data).measures());
            assert(data.data.bpms@ == old(data).data.bpms@);
        },
        Field::Offset => {
            data.data.offset = parse_offset(contents);
            assert(data.measures() == old(data).measures());
            assert(data.data.bpms@ == old(data).data.bpms@);
        },
        Field::Bpms => {
            match parse_bpms(contents) {
                Some(cs) => {
                    let n = cs.len();
                    data.data.bpm = if n > 0 { Some(cs[n - 1].tempo) } else { None };
                    data.data.bpms = cs;
                    assert(data.measures() == old(data).measures());
                },
                None => {
                    data.data.bpm = None;
                    data.data.bpms = Vec::new();
                    assert(data.data.bpms@ =~= seq![]);
                    assert(data.measures() == old(data).measures());
                },
            }
        },
        Field::Notes => {
            data.notes = parse_main_block(contents);
            assert(data.data.bpms@ == old(data).data.bpms@);
            proof {
                assert forall|i: int, n: int|
                    0 <= i < data.measures().len() && 0 <= n < data.measures()[i]@.len()
                        implies (#[trigger] data.measures()[i]@[n]).0.wf() by {
                    assert(measure_parsed(data.notes@[i]@, measures_of(contents@)[i]));
                }
            }
        },
        Field::Other => {},
    }
}

impl NoteData {
    /// The measures, in order.
    pub open spec fn measures(&self) -> Seq<Vec<(Position, NoteRow)>> {
        self.notes@
    }

    /// Each field read from the last of its kind among the pieces `ps`.
    pub open spec fn fields_match(&self, ps: Seq<Seq<char>>) -> bool {
        &&& title_matches(self.data.title, last_field(ps, Field::Title))
        &&& offset_matches(self.data.offset, last_field(ps, Field::Offset))
        &&& bpms_match(self.data.bpms@, self.data.bpm, last_field(ps, Field::Bpms))
        &&& notes_match(self.measures(), last_field(ps, Field::Notes))
    }

    /// Parses chart text: fields `#NAME:VALUE` separated by `#`; of each kind
    /// that is read, the last one counts.
    pub fn from_sm(simfile: &str) -> (r: Self)
        ensures
            r.fields_match(pieces(simfile@, '#')),
            r.parts_wf(),
    {
        let text = chars_of(simfile);
        let parts = split_on(text.as_slice(), '#');
        let ghost ps = lines_view(parts@);
        let mut chart = NoteData { notes: Vec::new(), data: ChartMetadata::new() };
        let mut i: usize = 0;
        assert(ps.subrange(0, 0) =~= seq![]);
        assert(chart.data.bpms@ =~= seq![]);
        assert(chart.notes@ =~= seq![]);
        while i < parts.len()
            invariant
                i <= parts@.len(),
                ps == lines_view(parts@),
                ps == pieces(simfile@, '#'),
                chart.fields_match(ps.subrange(0, i as int)),
                chart.parts_wf(),
            decreases parts@.len() - i,
        {
            assert(ps.subrange(0, i + 1).drop_last() =~= ps.subrange(0, i as int));
            assert(ps.subrange(0, i + 1).last() == parts@[i as int]@);
            let (tag, contents) = split_once(parts[i].as_slice(), ':');
            parse_tag(tag.as_slice(), contents.as_slice(), &mut chart);
            i = i + 1;
        }
        assert(ps.subrange(0, i as int) =~= ps);
        chart
    }

    /// Every row position, tempo change and offset is well formed.
    pub open spec fn parts_wf(&self) -> bool {
        &&& forall|i: int, n: int|
            0 <= i < self.measures().len() && 0 <= n < self.measures()[i]@.len()
                ==> (#[trigger] self.measures()[i]@[n]).0.wf()
        &&& forall|i: int| 0 <= i < self.data.bpms@.len() ==> (#[trigger] self.data.bpms@[i]).wf()
        &&& self.data.offset matches Some(d) ==> d.wf()
    }

    /// The measures, in order.
    pub fn columns(&self) -> (r: &[Vec<(Position, NoteRow)>])
        ensures
            r@ == self.measures(),
    {
        self.notes.as_slice()
    }
}

} // verus!
