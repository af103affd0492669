//! From measures and tempo changes to absolute note times, and the integer
//! side of scoring.
use vstd::prelude::*;
use crate::exact::{abs, coprime, fits, gcd, lemma_trunc_equal, lemma_add_nonneg, lemma_lowest, lemma_q_make_pos, lowest, q_add, q_add_exec, q_div, q_div_exec, q_le, q_mul, q_mul_exec, q_neg, q_neg_exec, q_opt_view, q_view, q_wf};
use crate::decimal::{Decimal, pow10, pow10_exec, lemma_pow10_le};
use crate::notedata::{NoteData, NoteRow, NoteType};
use crate::position::Position;

verus! {

/// Milliseconds that one whole measure of four beats lasts at one beat per minute.
pub const MS_PER_MEASURE: i128 = 240_000;

/// A tempo change as a chart writes it: from `time` measures on, `tempo`
/// beats per minute.
#[derive(Clone, Copy, Debug, PartialEq, Eq, Structural)]
pub struct TempoChange {
    pub time: Decimal,
    pub tempo: Decimal,
}

impl TempoChange {
    pub open spec fn wf(self) -> bool {
        &&& self.time.wf()
        &&& self.tempo.wf()
        &&& self.time.mantissa >= 0
        &&& self.tempo.mantissa > 0
    }
}

/// Integer quotient rounded toward zero.
pub open spec fn trunc_div(n: int, d: int) -> int {
    if n >= 0 {
        n / d
    } else {
        -((-n) / d)
    }
}

fn trunc_div_exec(n: i128, d: i128) -> (q: i128)
    requires
        d > 0,
        n > i128::MIN,
    ensures
        q == trunc_div(n as int, d as int),
{
    if n >= 0 {
        n / d
    } else {
        -((-n) / d)
    }
}

pub open spec fn fits_i64(x: int) -> bool {
    i64::MIN <= x <= i64::MAX
}

/// A decimal as an exact fraction.
pub open spec fn dec_q(d: Decimal) -> (int, int) {
    (d.mantissa as int, pow10(d.scale as nat))
}

fn dec_q_exec(d: Decimal) -> (r: (i128, i128))
    requires
        d.wf(),
    ensures
        q_view(r) == dec_q(d),
        q_wf(q_view(r)),
{
    (d.mantissa as i128, pow10_exec(d.scale))
}

pub open spec fn whole_measure() -> (int, int) {
    (MS_PER_MEASURE as int, 1)
}

/// Milliseconds, exactly, from tempo change `prev` to tempo change `cur` at
/// the tempo of `prev`.
pub open spec fn elapsed_q(prev: TempoChange, cur: TempoChange) -> Option<(int, int)> {
    match q_add(dec_q(cur.time), q_neg(dec_q(prev.time))) {
        Some(delta) => match q_mul(whole_measure(), delta) {
            Some(x) => q_div(x, dec_q(prev.tempo)),
            None => None,
        },
        None => None,
    }
}

/// When the segment that tempo change `i` opens starts, exactly, in
/// milliseconds: the first at `offset`, each later one where the one before
/// started plus what lies between them at the tempo before.  `None` once a
/// value no longer fits in 128 bits.
pub open spec fn start_q(changes: Seq<TempoChange>, offset: Option<(int, int)>, i: nat) -> Option<(int, int)>
    decreases i,
{
    if i == 0 {
        offset
    } else {
        match start_q(changes, offset, (i - 1) as nat) {
            Some(s) => match elapsed_q(changes[i - 1], changes[i as int]) {
                Some(e) => q_add(s, e),
                None => None,
            },
            None => None,
        }
    }
}

/// A tempo change resolved to absolute time.
#[derive(Clone, Copy, Debug, PartialEq, Eq, Structural)]
pub struct Segment {
    /// Whole measures before the change.
    pub measure: u64,
    /// Where inside that measure it falls.
    pub frac: Position,
    pub change: TempoChange,
    /// The start in milliseconds, `start_num / start_den`, in lowest terms.
    pub start_num: i128,
    pub start_den: i128,
}

impl Segment {
    pub open spec fn wf(self) -> bool {
        &&& self.change.wf()
        &&& self.frac.wf()
        &&& q_wf((self.start_num as int, self.start_den as int))
    }
}

/// Tempo change `c`, starting at `start`.
pub open spec fn segment_of(c: TempoChange, start: (int, int)) -> Segment {
    let one = pow10(c.time.scale as nat);
    let f = lowest((c.time.mantissa as int) % one, one);
    Segment {
        measure: ((c.time.mantissa as int) / one) as u64,
        frac: Position { num: f.0 as u64, den: f.1 as u64 },
        change: c,
        start_num: start.0 as i128,
        start_den: start.1 as i128,
    }
}

/// The segments of the first `k` tempo changes whose start is known.
pub open spec fn resolve_upto(changes: Seq<TempoChange>, offset: Option<(int, int)>, k: nat) -> Seq<Segment>
    decreases k,
{
    if k == 0 {
        seq![]
    } else {
        let prev = resolve_upto(changes, offset, (k - 1) as nat);
        match start_q(changes, offset, (k - 1) as nat) {
            Some(s) => prev.push(segment_of(changes[k - 1], s)),
            None => prev,
        }
    }
}

/// The tempo map of `changes` with the first segment starting at `offset`.
pub open spec fn resolve_spec(changes: Seq<TempoChange>, offset: Option<(int, int)>) -> Seq<Segment> {
    resolve_upto(changes, offset, changes.len())
}

proof fn lemma_start_none_stays(changes: Seq<TempoChange>, offset: Option<(int, int)>, i: nat, k: nat)
    requires
        i <= k,
        start_q(changes, offset, i) is None,
    ensures
        start_q(changes, offset, k) is None,
    decreases k - i,
{
    if i < k {
        lemma_start_none_stays(changes, offset, i, (k - 1) as nat);
    }
}

proof fn lemma_upto_stops(changes: Seq<TempoChange>, offset: Option<(int, int)>, i: nat, k: nat)
    requires
        i <= k,
        start_q(changes, offset, i) is None,
    ensures
        resolve_upto(changes, offset, k) == resolve_upto(changes, offset, i),
    decreases k - i,
{
    if i < k {
        lemma_upto_stops(changes, offset, i, (k - 1) as nat);
        lemma_start_none_stays(changes, offset, i, (k - 1) as nat);
    }
}

fn elapsed_exec(prev: &TempoChange, cur: &TempoChange) -> (r: Option<(i128, i128)>)
    requires
        prev.wf(),
        cur.wf(),
    ensures
        q_opt_view(r) == elapsed_q(*prev, *cur),
        r matches Some(q) ==> q_wf(q_view(q)),
{
    match q_add_exec(dec_q_exec(cur.time), q_neg_exec(dec_q_exec(prev.time))) {
        Some(delta) => match q_mul_exec((MS_PER_MEASURE, 1), delta) {
            Some(x) => q_div_exec(x, dec_q_exec(prev.tempo)),
            None => None,
        },
        None => None,
    }
}

fn make_segment(c: &TempoChange, start: (i128, i128)) -> (seg: Segment)
    requires
        c.wf(),
        q_wf(q_view(start)),
    ensures
        seg == segment_of(*c, q_view(start)),
        seg.wf(),
{
    let one = pow10_exec(c.time.scale);
    let m = c.time.mantissa as i128;
    let measure = m / one;
    let rem = m % one;
    let frac = Position::of_row(rem as u64, one as u64);
    Segment { measure: measure as u64, frac, change: *c, start_num: start.0, start_den: start.1 }
}

/// Resolves a tempo map: each change gets the exact time at which it starts,
/// the first one `offset`, each later one the time of the one before plus
/// what lies between them at the tempo before.  Resolution stops at the first
/// start that cannot be held in 128 bits.
pub fn resolve_tempo(changes: &Vec<TempoChange>, offset: (i128, i128)) -> (segs: Vec<Segment>)
    requires
        forall|i: int| 0 <= i < changes@.len() ==> (#[trigger] changes@[i]).wf(),
        q_wf(q_view(offset)),
    ensures
        segs@ == resolve_spec(changes@, Some(q_view(offset))),
        segments_wf(segs@),
{
    let ghost off = Some(q_view(offset));
    let mut segs: Vec<Segment> = Vec::new();
    let mut start = offset;
    let mut i: usize = 0;
    while i < changes.len()
        invariant
            i <= changes@.len(),
            forall|i: int| 0 <= i < changes@.len() ==> (#[trigger] changes@[i]).wf(),
            off == Some(q_view(offset)),
            q_wf(q_view(start)),
            i < changes@.len() ==> start_q(changes@, off, i as nat) == Some(q_view(start)),
            segs@ == resolve_upto(changes@, off, i as nat),
            segments_wf(segs@),
        decreases changes@.len() - i,
    {
        let seg = make_segment(&changes[i], start);
        segs.push(seg);
        if i + 1 < changes.len() {
            let next = match elapsed_exec(&changes[i], &changes[i + 1]) {
                Some(e) => q_add_exec(start, e),
                None => None,
            };
            match next {
                Some(s) => {
                    start = s;
                },
                None => {
                    proof {
                        lemma_upto_stops(changes@, off, (i + 1) as nat, changes@.len());
                    }
                    return segs;
                },
            }
        }
        i = i + 1;
    }
    segs
}

/// The exact time in milliseconds of the row at position `p` of measure `m`
/// in segment `seg`; `None` where a value no longer fits in 128 bits.
pub open spec fn row_q(seg: Segment, m: int, p: Position) -> Option<(int, int)> {
    match q_add((m, 1), (p.num as int, p.den as int)) {
        Some(pos) => match q_add(pos, q_neg(dec_q(seg.change.time))) {
            Some(delta) => match q_mul(whole_measure(), delta) {
                Some(x) => match q_div(x, dec_q(seg.change.tempo)) {
                    Some(e) => q_add((seg.start_num as int, seg.start_den as int), e),
                    None => None,
                },
                None => None,
            },
            None => None,
        },
        None => None,
    }
}

/// The time of the row at position `p` of measure `m` in segment `seg`, played
/// at `rate` times normal speed and rounded toward zero once; `None` where it
/// does not fit in 64 bits or a value on the way does not fit in 128.
pub open spec fn row_time(seg: Segment, m: int, p: Position, rate: Decimal) -> Option<i64> {
    match row_q(seg, m, p) {
        Some(t) => match q_div(t, dec_q(rate)) {
            Some(v) => if fits_i64(trunc_div(v.0, v.1)) {
                Some(trunc_div(v.0, v.1) as i64)
            } else {
                None
            },
            None => None,
        },
        None => None,
    }
}

/// A playback rate: a positive decimal.
pub open spec fn rate_wf(rate: Decimal) -> bool {
    rate.wf() && rate.mantissa > 0
}

pub fn row_time_exec(seg: &Segment, m: usize, p: Position, rate: Decimal) -> (r: Option<i64>)
    requires
        seg.wf(),
        p.wf(),
        rate_wf(rate),
    ensures
        r == row_time(*seg, m as int, p, rate),
{
    let pos = q_add_exec((m as i128, 1), (p.num as i128, p.den as i128));
    let total = match pos {
        Some(pos) => match q_add_exec(pos, q_neg_exec(dec_q_exec(seg.change.time))) {
            Some(delta) => match q_mul_exec((MS_PER_MEASURE, 1), delta) {
                Some(x) => match q_div_exec(x, dec_q_exec(seg.change.tempo)) {
                    Some(e) => q_add_exec((seg.start_num, seg.start_den), e),
                    None => None,
                },
                None => None,
            },
            None => None,
        },
        None => None,
    };
    match total {
        Some(t) => match q_div_exec(t, dec_q_exec(rate)) {
            Some(v) => {
                let x = trunc_div_exec(v.0, v.1);
                if x < i64::MIN as i128 || x > i64::MAX as i128 {
                    None
                } else {
                    Some(x as i64)
                }
            },
            None => None,
        },
        None => None,
    }
}

/// What a column of a `TimingData` can hold.
pub trait TimingInfo {
}

/// A note placed in time: its time in milliseconds, its kind, and the measure
/// and position it was written at.
#[derive(Clone, Copy, Debug, PartialEq, Eq, Structural)]
pub struct GameplayInfo(pub i64, pub NoteType, pub usize, pub Position);

impl TimingInfo for GameplayInfo {
}

/// How far from its time a note was hit, in milliseconds, or `None` when it
/// was never hit; and its kind.
#[derive(Clone, Copy, Debug, PartialEq, Eq, Structural)]
pub struct OffsetInfo(pub Option<i64>, pub NoteType);

impl TimingInfo for OffsetInfo {
}

/// Number of columns of the playfield.
pub const COLUMNS: usize = 4;

/// Four columns of notes.
pub struct TimingData<T: TimingInfo> {
    notes: Vec<Vec<T>>,
}

pub open spec fn columns_view<T>(cols: Seq<Vec<T>>) -> Seq<Seq<T>> {
    cols.map_values(|c: Vec<T>| c@)
}

pub open spec fn empty_columns<T>() -> Seq<Seq<T>> {
    seq![seq![], seq![], seq![], seq![]]
}

impl<T: TimingInfo> View for TimingData<T> {
    type V = Seq<Seq<T>>;

    closed spec fn view(&self) -> Seq<Seq<T>> {
        columns_view(self.notes@)
    }
}

impl<T: TimingInfo> TimingData<T> {
    /// Four empty columns.
    pub fn new() -> (r: Self)
        ensures
            r@ == empty_columns::<T>(),
    {
        let notes: Vec<Vec<T>> = vec![Vec::new(), Vec::new(), Vec::new(), Vec::new()];
        let r = TimingData { notes };
        assert(r@ =~= empty_columns::<T>());
        r
    }

    /// Puts `offset` at the end of column `column`.
    pub fn add(&mut self, offset: T, column: usize)
        requires
            column < old(self)@.len(),
        ensures
            final(self)@ == old(self)@.update(column as int, old(self)@[column as int].push(offset)),
    {
        push_to_column(&mut self.notes, column, offset);
    }

    /// The four columns, in order.
    pub fn columns(&self) -> (r: &[Vec<T>])
        ensures
            columns_view(r@) == self@,
    {
        self.notes.as_slice()
    }
}

fn push_to_column<T>(cols: &mut Vec<Vec<T>>, column: usize, x: T)
    requires
        column < old(cols)@.len(),
    ensures
        final(cols)@.len() == old(cols)@.len(),
        columns_view(final(cols)@) == columns_view(old(cols)@).update(
            column as int,
            old(cols)@[column as int]@.push(x),
        ),
{
    let ghost before = columns_view(cols@);
    let mut c = cols.remove(column);
    c.push(x);
    cols.insert(column, c);
    assert(columns_view(cols@) =~= before.update(column as int, before[column as int].push(x)));
}

/// The cursor of the converter, on segment `c`, reaching the row at position
/// `p` of measure `m`: it moves on by one segment when the next segment
/// starts at or before that row.
pub open spec fn advance(segs: Seq<Segment>, c: int, m: int, p: Position) -> int {
    if c + 1 < segs.len() && (m > segs[c + 1].measure || (m == segs[c + 1].measure
        && segs[c + 1].frac.num * p.den <= p.num * segs[c + 1].frac.den)) {
        c + 1
    } else {
        c
    }
}

/// `cols` with each note of `notes` whose column is on the playfield placed at
/// the end of its column, at time `t`.
pub open spec fn place(
    cols: Seq<Seq<GameplayInfo>>,
    notes: Seq<(NoteType, usize)>,
    t: i64,
    m: usize,
    p: Position,
) -> Seq<Seq<GameplayInfo>>
    decreases notes.len(),
{
    if notes.len() == 0 {
        cols
    } else {
        let before = place(cols, notes.drop_last(), t, m, p);
        let (kind, col) = notes.last();
        if col < COLUMNS {
            before.update(col as int, before[col as int].push(GameplayInfo(t, kind, m, p)))
        } else {
            before
        }
    }
}

/// Cursor and columns after the rows `rows` of measure `m`, from cursor `c`
/// and columns `cols`.  A row whose time does not fit in 64 bits, or needs a
/// value on the way beyond 128, places nothing.
pub open spec fn convert_rows(
    c: int,
    cols: Seq<Seq<GameplayInfo>>,
    segs: Seq<Segment>,
    m: usize,
    rows: Seq<(Position, NoteRow)>,
    rate: Decimal,
) -> (int, Seq<Seq<GameplayInfo>>)
    decreases rows.len(),
{
    if rows.len() == 0 {
        (c, cols)
    } else {
        let (c0, cols0) = convert_rows(c, cols, segs, m, rows.drop_last(), rate);
        let p = rows.last().0;
        let c1 = advance(segs, c0, m as int, p);
        match row_time(segs[c1], m as int, p, rate) {
            Some(t) => (c1, place(cols0, rows.last().1.row@, t, m, p)),
            None => (c1, cols0),
        }
    }
}

/// Cursor and columns after the measures `ms`, walked in order from the
/// first segment and four empty columns.
pub open spec fn convert_measures(
    segs: Seq<Segment>,
    ms: Seq<Vec<(Position, NoteRow)>>,
    rate: Decimal,
) -> (int, Seq<Seq<GameplayInfo>>)
    decreases ms.len(),
{
    if ms.len() == 0 {
        (0, empty_columns())
    } else {
        let (c, cols) = convert_measures(segs, ms.drop_last(), rate);
        convert_rows(c, cols, segs, (ms.len() - 1) as usize, ms.last()@, rate)
    }
}

/// The timed notes of a chart: none for an empty tempo map.
pub open spec fn converted(
    segs: Seq<Segment>,
    ms: Seq<Vec<(Position, NoteRow)>>,
    rate: Decimal,
) -> Seq<Seq<GameplayInfo>> {
    if segs.len() == 0 {
        empty_columns()
    } else {
        convert_measures(segs, ms, rate).1
    }
}

/// Every row position is a well-formed fraction.
pub open spec fn chart_wf(ms: Seq<Vec<(Position, NoteRow)>>) -> bool {
    forall|i: int, n: int|
        0 <= i < ms.len() && 0 <= n < ms[i]@.len() ==> (#[trigger] ms[i]@[n]).0.wf()
}

pub open spec fn segments_wf(segs: Seq<Segment>) -> bool {
    forall|i: int| 0 <= i < segs.len() ==> (#[trigger] segs[i]).wf()
}

proof fn lemma_convert_rows_cursor(
    c: int,
    cols: Seq<Seq<GameplayInfo>>,
    segs: Seq<Segment>,
    m: usize,
    rows: Seq<(Position, NoteRow)>,
    rate: Decimal,
)
    requires
        0 <= c < segs.len(),
        cols.len() == COLUMNS,
    ensures
        0 <= convert_rows(c, cols, segs, m, rows, rate).0 < segs.len(),
        convert_rows(c, cols, segs, m, rows, rate).1.len() == COLUMNS,
    decreases rows.len(),
{
    if rows.len() > 0 {
        lemma_convert_rows_cursor(c, cols, segs, m, rows.drop_last(), rate);
        let (c0, cols0) = convert_rows(c, cols, segs, m, rows.drop_last(), rate);
        let p = rows.last().0;
        let c1 = advance(segs, c0, m as int, p);
        match row_time(segs[c1], m as int, p, rate) {
            Some(t) => lemma_place_len(cols0, rows.last().1.row@, t, m, p),
            None => {},
        }
    }
}

proof fn lemma_place_len(
    cols: Seq<Seq<GameplayInfo>>,
    notes: Seq<(NoteType, usize)>,
    t: i64,
    m: usize,
    p: Position,
)
    requires
        cols.len() == COLUMNS,
    ensures
        place(cols, notes, t, m, p).len() == cols.len(),
    decreases notes.len(),
{
    if notes.len() > 0 {
        lemma_place_len(cols, notes.drop_last(), t, m, p);
    }
}

proof fn lemma_convert_measures_cursor(
    segs: Seq<Segment>,
    ms: Seq<Vec<(Position, NoteRow)>>,
    rate: Decimal,
)
    requires
        segs.len() > 0,
    ensures
        0 <= convert_measures(segs, ms, rate).0 < segs.len(),
        convert_measures(segs, ms, rate).1.len() == COLUMNS,
    decreases ms.len(),
{
    if ms.len() > 0 {
        lemma_convert_measures_cursor(segs, ms.drop_last(), rate);
        let (c, cols) = convert_measures(segs, ms.drop_last(), rate);
        lemma_convert_rows_cursor(c, cols, segs, (ms.len() - 1) as usize, ms.last()@, rate);
    }
}

fn place_row(
    cols: &mut Vec<Vec<GameplayInfo>>,
    row: &NoteRow,
    t: i64,
    m: usize,
    p: Position,
)
    requires
        old(cols)@.len() == COLUMNS,
    ensures
        final(cols)@.len() == COLUMNS,
        columns_view(final(cols)@) == place(columns_view(old(cols)@), row.row@, t, m, p),
{
    let ghost start = columns_view(cols@);
    let mut j: usize = 0;
    while j < row.row.len()
        invariant
            j <= row.row@.len(),
            cols@.len() == COLUMNS,
            start.len() == COLUMNS,
            columns_view(cols@) == place(start, row.row@.subrange(0, j as int), t, m, p),
        decreases row.row@.len() - j,
    {
        assert(row.row@.subrange(0, j + 1).drop_last() =~= row.row@.subrange(0, j as int));
        let (kind, col) = row.row[j];
        if col < COLUMNS {
            proof {
                lemma_place_len(start, row.row@.subrange(0, j as int), t, m, p);
            }
            push_to_column(cols, col, GameplayInfo(t, kind, m, p));
        }
        j = j + 1;
    }
    assert(row.row@.subrange(0, j as int) =~= row.row@);
}

/// Places every note of the measures `ms` in time along the tempo map `segs`
/// at `rate` times normal speed, into the column it is written in.
pub fn convert(ms: &Vec<Vec<(Position, NoteRow)>>, segs: &Vec<Segment>, rate: Decimal) -> (r: TimingData<GameplayInfo>)
    requires
        chart_wf(ms@),
        segments_wf(segs@),
        rate_wf(rate),
    ensures
        r@ == converted(segs@, ms@, rate),
        r@.len() == COLUMNS,
{
    let mut cols: Vec<Vec<GameplayInfo>> = vec![Vec::new(), Vec::new(), Vec::new(), Vec::new()];
    assert(columns_view(cols@) =~= empty_columns::<GameplayInfo>());
    if segs.len() == 0 {
        return TimingData { notes: cols };
    }
    let mut cursor: usize = 0;
    let mut mi: usize = 0;
    while mi < ms.len()
        invariant
            mi <= ms@.len(),
            segs@.len() > 0,
            chart_wf(ms@),
            segments_wf(segs@),
            rate_wf(rate),
            cols@.len() == COLUMNS,
            (cursor as int, columns_view(cols@)) == convert_measures(segs@, ms@.subrange(0, mi as int), rate),
        decreases ms@.len() - mi,
    {
        proof {
            lemma_convert_measures_cursor(segs@, ms@.subrange(0, mi as int), rate);
            assert(ms@.subrange(0, mi + 1).drop_last() =~= ms@.subrange(0, mi as int));
        }
        let measure = &ms[mi];
        let ghost c_start = cursor as int;
        let ghost cols_start = columns_view(cols@);
        let mut ri: usize = 0;
        while ri < measure.len()
            invariant
                ri <= measure@.len(),
                mi < ms@.len(),
                measure == ms@[mi as int],
                segs@.len() > 0,
                0 <= c_start < segs@.len(),
                cols_start.len() == COLUMNS,
                chart_wf(ms@),
                segments_wf(segs@),
                rate_wf(rate),
                cols@.len() == COLUMNS,
                (cursor as int, columns_view(cols@)) == convert_rows(
                    c_start,
                    cols_start,
                    segs@,
                    mi,
                    measure@.subrange(0, ri as int),
                    rate,
                ),
            decreases measure@.len() - ri,
        {
            proof {
                lemma_convert_rows_cursor(c_start, cols_start, segs@, mi, measure@.subrange(0, ri as int), rate);
                assert(measure@.subrange(0, ri + 1).drop_last() =~= measure@.subrange(0, ri as int));
                assert(ms@[mi as int]@[ri as int] == measure@[ri as int]);
            }
            let p = measure[ri].0;
            if cursor < segs.len() - 1 {
                let next = &segs[cursor + 1];
                let (a, b, c, d) = (next.frac.num as u128, p.den as u128, p.num as u128, next.frac.den as u128);
                assert(a * b <= u128::MAX && c * d <= u128::MAX) by (nonlinear_arith)
                    requires
                        a <= u64::MAX,
                        b <= u64::MAX,
                        c <= u64::MAX,
                        d <= u64::MAX,
                ;
                if mi as u64 > next.measure || (mi as u64 == next.measure && a * b <= c * d) {
                    cursor = cursor + 1;
                }
            }
            match row_time_exec(&segs[cursor], mi, p, rate) {
                Some(t) => place_row(&mut cols, &measure[ri].1, t, mi, p),
                None => {},
            }
            ri = ri + 1;
        }
        assert(measure@.subrange(0, ri as int) =~= measure@);
        mi = mi + 1;
    }
    assert(ms@.subrange(0, mi as int) =~= ms@);
    TimingData { notes: cols }
}

/// The chart offset in milliseconds, exactly; none counts as zero.
pub open spec fn offset_q(offset: Option<Decimal>) -> Option<(int, int)> {
    match offset {
        None => Some((0, 1)),
        Some(d) => q_mul(dec_q(d), (1000, 1)),
    }
}

/// The timed notes of a parsed chart at `rate` times normal speed.
pub open spec fn chart_times(data: &NoteData, rate: Decimal) -> Seq<Seq<GameplayInfo>> {
    converted(resolve_spec(data.data.bpms@, offset_q(data.data.offset)), data.notes@, rate)
}

proof fn lemma_no_offset(changes: Seq<TempoChange>, k: nat)
    ensures
        start_q(changes, None, k) is None,
        resolve_upto(changes, None, k) == Seq::<Segment>::empty(),
    decreases k,
{
    if k > 0 {
        lemma_no_offset(changes, (k - 1) as nat);
    }
}

impl TimingData<GameplayInfo> {
    /// Resolves the tempo map of `data` from its offset and places every note
    /// in time at `rate` times normal speed.
    pub fn from_chartdata(data: &NoteData, rate: Decimal) -> (r: Self)
        requires
            data.parts_wf(),
            rate_wf(rate),
        ensures
            r@ == chart_times(data, rate),
            r@.len() == COLUMNS,
    {
        let offset = match data.data.offset {
            None => Some((0i128, 1i128)),
            Some(d) => q_mul_exec(dec_q_exec(d), (1000, 1)),
        };
        let segs = match offset {
            Some(o) => resolve_tempo(&data.data.bpms, o),
            None => {
                proof {
                    lemma_no_offset(data.data.bpms@, data.data.bpms@.len());
                }
                let v: Vec<Segment> = Vec::new();
                assert(v@ =~= resolve_spec(data.data.bpms@, offset_q(data.data.offset)));
                v
            },
        };
        proof {
            assert forall|i: int, n: int|
                0 <= i < data.notes@.len() && 0 <= n < data.notes@[i]@.len()
                    implies (#[trigger] data.notes@[i]@[n]).0.wf() by {
                assert(data.measures()[i]@[n] == data.notes@[i]@[n]);
            }
        }
        convert(&data.notes, &segs, rate)
    }
}

/// Converting the same parsed chart at the same rate always gives the same
/// timed notes.
pub proof fn lemma_chart_times_deterministic(
    a: Seq<Seq<GameplayInfo>>,
    b: Seq<Seq<GameplayInfo>>,
    data: &NoteData,
    rate: Decimal,
)
    requires
        a == chart_times(data, rate),
        b == chart_times(data, rate),
    ensures
        a == b,
{
}

/// The most points a note of kind `t` can earn.
pub open spec fn max_points_of(t: NoteType) -> int {
    match t {
        NoteType::Tap | NoteType::Hold | NoteType::Roll | NoteType::Lift => 2,
        NoteType::Fake | NoteType::Mine | NoteType::HoldEnd => 0,
    }
}

/// How a judged note scores: a fixed number of points, or a point on the
/// decay curve for a hit whose squared offset in milliseconds is given.
#[derive(Clone, Copy, Debug, PartialEq, Eq, Structural)]
pub enum Judged {
    Points(i32),
    Curve(u128),
}

pub open spec fn judged_of(o: OffsetInfo) -> Judged {
    match o.1 {
        NoteType::Tap | NoteType::Hold | NoteType::Roll | NoteType::Lift => match o.0 {
            Some(x) => Judged::Curve((x * x) as u128),
            None => Judged::Points(-8i32),
        },
        NoteType::Fake | NoteType::HoldEnd => Judged::Points(0i32),
        NoteType::Mine => match o.0 {
            Some(_) => Judged::Points(-8i32),
            None => Judged::Points(0i32),
        },
    }
}

impl OffsetInfo {
    pub fn max_points(self) -> (r: u32)
        ensures
            r == max_points_of(self.1),
    {
        match self.1 {
            NoteType::Tap | NoteType::Hold | NoteType::Roll | NoteType::Lift => 2,
            NoteType::Fake | NoteType::Mine | NoteType::HoldEnd => 0,
        }
    }

    /// How this note scores.
    pub fn judge(self) -> (r: Judged)
        ensures
            r == judged_of(self),
    {
        match self.1 {
            NoteType::Tap | NoteType::Hold | NoteType::Roll | NoteType::Lift => match self.0 {
                Some(x) => {
                    let a = if x < 0 { (0i128 - x as i128) as u128 } else { x as u128 };
                    assert(a * a <= u128::MAX) by (nonlinear_arith)
                        requires
                            a <= 9_223_372_036_854_775_808,
                    ;
                    assert(a * a == x * x) by (nonlinear_arith)
                        requires
                            a == x || a == -x,
                    ;
                    Judged::Curve(a * a)
                },
                None => Judged::Points(-8),
            },
            NoteType::Fake | NoteType::HoldEnd => Judged::Points(0),
            NoteType::Mine => match self.0 {
                Some(_) => Judged::Points(-8),
                None => Judged::Points(0),
            },
        }
    }
}

/// An early hit and a late hit by the same amount score alike.
pub proof fn lemma_judge_symmetric(o: i64, t: NoteType)
    requires
        o > i64::MIN,
    ensures
        judged_of(OffsetInfo(Some(o), t)) == judged_of(OffsetInfo(Some((-o) as i64), t)),
{
    assert((-o) * (-o) == o * o) by (nonlinear_arith);
}

/// For the kinds scored on the curve, a hit further from its time lies
/// strictly further along the curve.
pub proof fn lemma_judge_deviation_increasing(o1: i64, o2: i64, t: NoteType)
    requires
        0 <= o1 < o2,
        max_points_of(t) > 0,
    ensures
        judged_of(OffsetInfo(Some(o1), t)) matches Judged::Curve(a1)
            && judged_of(OffsetInfo(Some(o2), t)) matches Judged::Curve(a2)
            && a1 < a2,
{
    assert(o1 * o1 < o2 * o2) by (nonlinear_arith)
        requires
            0 <= o1 < o2,
    ;
    assert(o2 * o2 <= u128::MAX) by (nonlinear_arith)
        requires
            0 <= o2 <= i64::MAX,
    ;
}

/// Sum of the most points of the notes of `cols`, column by column.
pub open spec fn total_max_points(cols: Seq<Seq<OffsetInfo>>) -> int
    decreases cols.len(),
{
    if cols.len() == 0 {
        0
    } else {
        total_max_points(cols.drop_last()) + column_max_points(cols.last())
    }
}

pub open spec fn column_max_points(col: Seq<OffsetInfo>) -> int
    decreases col.len(),
{
    if col.len() == 0 {
        0
    } else {
        column_max_points(col.drop_last()) + max_points_of(col.last().1)
    }
}

proof fn lemma_column_max_points_bound(col: Seq<OffsetInfo>)
    ensures
        0 <= column_max_points(col) <= 2 * col.len(),
    decreases col.len(),
{
    if col.len() > 0 {
        lemma_column_max_points_bound(col.drop_last());
    }
}

impl TimingData<OffsetInfo> {
    /// The most points that the recorded notes can earn together: the
    /// denominator of the score.
    pub fn max_points(&self) -> (r: u128)
        requires
            self@.len() == COLUMNS,
        ensures
            r == total_max_points(self@),
    {
        let cols = self.columns();
        let mut total: u128 = 0;
        let mut i: usize = 0;
        while i < cols.len()
            invariant
                i <= cols@.len(),
                columns_view(cols@) == self@,
                total == total_max_points(columns_view(cols@).subrange(0, i as int)),
                total <= 2 * (usize::MAX as int) * i,
                cols@.len() == COLUMNS,
            decreases cols@.len() - i,
        {
            let col = &cols[i];
            let mut sub: u128 = 0;
            let mut j: usize = 0;
            while j < col.len()
                invariant
                    j <= col@.len(),
                    sub == column_max_points(col@.subrange(0, j as int)),
                    sub <= 2 * j,
                decreases col@.len() - j,
            {
                assert(col@.subrange(0, j + 1).drop_last() =~= col@.subrange(0, j as int));
                sub = sub + col[j].max_points() as u128;
                j = j + 1;
            }
            assert(col@.subrange(0, j as int) =~= col@);
            let ghost v = columns_view(cols@);
            assert(v.subrange(0, i + 1).drop_last() =~= v.subrange(0, i as int));
            assert(v.subrange(0, i + 1).last() == col@);
            assert(total + sub <= 2 * (usize::MAX as int) * (i + 1)) by (nonlinear_arith)
                requires
                    total <= 2 * (usize::MAX as int) * i,
                    sub <= 2 * j,
                    j <= usize::MAX,
            ;
            assert(2 * (usize::MAX as int) * (i + 1) <= u128::MAX) by (nonlinear_arith)
                requires
                    i < 4,
                    usize::MAX <= u64::MAX,
            ;
            total = total + sub;
            i = i + 1;
        }
        assert(columns_view(cols@).subrange(0, i as int) =~= columns_view(cols@));
        total
    }
}

/// `a` comes no later than `b` in the chart.
pub open spec fn time_le(a: Decimal, b: Decimal) -> bool {
    (a.mantissa as int) * pow10(b.scale as nat) <= (b.mantissa as int) * pow10(a.scale as nat)
}

/// A list of tempo changes in ascending order.
pub open spec fn ascending(changes: Seq<TempoChange>) -> bool {
    forall|k: int| 0 < k < changes.len() ==> time_le(#[trigger] changes[k - 1].time, changes[k].time)
}

proof fn lemma_elapsed_nonneg(prev: TempoChange, cur: TempoChange)
    requires
        prev.wf(),
        cur.wf(),
        time_le(prev.time, cur.time),
        elapsed_q(prev, cur) is Some,
    ensures
        elapsed_q(prev, cur)->Some_0.0 >= 0,
        elapsed_q(prev, cur)->Some_0.1 > 0,
{
    let p = dec_q(prev.time);
    let c = dec_q(cur.time);
    lemma_pow10_le(0, prev.time.scale as nat);
    lemma_pow10_le(0, cur.time.scale as nat);
    lemma_pow10_le(0, prev.tempo.scale as nat);
    let n = c.0 * p.1 + (-p.0) * c.1;
    let d = c.1 * p.1;
    assert(d > 0 && n >= 0) by (nonlinear_arith)
        requires
            c.1 >= 1,
            p.1 >= 1,
            d == c.1 * p.1,
            n == c.0 * p.1 + (-p.0) * c.1,
            p.0 * c.1 <= c.0 * p.1,
    ;
    lemma_lowest(n, d);
    let delta = lowest(n, d);
    let xn = MS_PER_MEASURE * delta.0;
    assert(xn >= 0) by (nonlinear_arith)
        requires
            delta.0 >= 0,
            xn == MS_PER_MEASURE * delta.0,
            MS_PER_MEASURE == 240_000,
    ;
    assert(1 * delta.1 > 0);
    lemma_lowest(xn, 1 * delta.1);
    let x = lowest(xn, 1 * delta.1);
    let t = dec_q(prev.tempo);
    assert(x.0 * t.1 >= 0 && x.1 * t.0 > 0) by (nonlinear_arith)
        requires
            x.0 >= 0,
            x.1 > 0,
            t.0 > 0,
            t.1 >= 1,
    ;
    lemma_lowest(x.0 * t.1, x.1 * t.0);
}

/// For tempo changes in ascending order, each segment starts no earlier than
/// the one before it.
pub proof fn lemma_start_times_monotone(changes: Seq<TempoChange>, offset: Option<(int, int)>, i: nat)
    requires
        forall|k: int| 0 <= k < changes.len() ==> (#[trigger] changes[k]).wf(),
        ascending(changes),
        i + 1 < changes.len(),
        start_q(changes, offset, i + 1) is Some,
        offset matches Some(o) ==> o.1 > 0,
    ensures
        start_q(changes, offset, i) is Some,
        q_le(start_q(changes, offset, i)->Some_0, start_q(changes, offset, i + 1)->Some_0),
{
    let s = start_q(changes, offset, i);
    if s is None {
        lemma_start_none_stays(changes, offset, i, i + 1);
    }
    assert(time_le(changes[(i + 1) - 1].time, changes[i + 1int].time));
    lemma_elapsed_nonneg(changes[i as int], changes[i + 1int]);
    lemma_start_den_positive(changes, offset, i);
    lemma_add_nonneg(s->Some_0, elapsed_q(changes[i as int], changes[i + 1int])->Some_0);
}

proof fn lemma_start_den_positive(changes: Seq<TempoChange>, offset: Option<(int, int)>, i: nat)
    requires
        offset matches Some(o) ==> o.1 > 0,
    ensures
        start_q(changes, offset, i) matches Some(s) ==> s.1 > 0,
    decreases i,
{
    if i > 0 {
        lemma_start_den_positive(changes, offset, (i - 1) as nat);
        match start_q(changes, offset, (i - 1) as nat) {
            Some(s) => match elapsed_q(changes[i - 1], changes[i as int]) {
                Some(e) => {
                    lemma_elapsed_den(changes[i - 1], changes[i as int]);
                    if q_add(s, e) is Some {
                        let d = s.1 * e.1;
                        assert(d > 0) by (nonlinear_arith)
                            requires
                                s.1 > 0,
                                e.1 > 0,
                                d == s.1 * e.1,
                        ;
                        lemma_lowest(s.0 * e.1 + e.0 * s.1, d);
                    }
                },
                None => {},
            },
            None => {},
        }
    }
}

proof fn lemma_elapsed_den(prev: TempoChange, cur: TempoChange)
    ensures
        elapsed_q(prev, cur) matches Some(e) ==> e.1 > 0,
{
    match q_add(dec_q(cur.time), q_neg(dec_q(prev.time))) {
        Some(delta) => match q_mul(whole_measure(), delta) {
            Some(x) => {
                let t = dec_q(prev.tempo);
                lemma_q_make_pos(x.0 * t.1, x.1 * t.0);
            },
            None => {},
        },
        None => {},
    }
}

/// Segment `i` of the first `k` resolved is tempo change `i` at its start.
proof fn lemma_resolve_index(changes: Seq<TempoChange>, offset: Option<(int, int)>, k: nat, i: int)
    requires
        k <= changes.len(),
        0 <= i < resolve_upto(changes, offset, k).len(),
    ensures
        resolve_upto(changes, offset, k).len() <= k,
        start_q(changes, offset, i as nat) is Some,
        resolve_upto(changes, offset, k)[i] == segment_of(
            changes[i],
            start_q(changes, offset, i as nat)->Some_0,
        ),
    decreases k,
{
    lemma_resolve_len(changes, offset, k);
    let prev = resolve_upto(changes, offset, (k - 1) as nat);
    lemma_resolve_len(changes, offset, (k - 1) as nat);
    if i < prev.len() {
        lemma_resolve_index(changes, offset, (k - 1) as nat, i);
    }
}

proof fn lemma_resolve_len(changes: Seq<TempoChange>, offset: Option<(int, int)>, k: nat)
    ensures
        resolve_upto(changes, offset, k).len() <= k,
        forall|i: nat| i < resolve_upto(changes, offset, k).len() ==> (#[trigger] start_q(changes, offset, i)) is Some,
        resolve_upto(changes, offset, k).len() < k ==> start_q(changes, offset, resolve_upto(changes, offset, k).len()) is None,
    decreases k,
{
    if k > 0 {
        lemma_resolve_len(changes, offset, (k - 1) as nat);
        let prev = resolve_upto(changes, offset, (k - 1) as nat);
        if prev.len() < k - 1 {
            lemma_start_none_stays(changes, offset, prev.len(), (k - 1) as nat);
        }
    }
}

/// In a resolved tempo map of ascending tempo changes, consecutive segments
/// are built from exact starts that never decrease.
pub proof fn lemma_resolved_monotone(changes: Seq<TempoChange>, offset: (int, int), i: int)
    requires
        forall|k: int| 0 <= k < changes.len() ==> (#[trigger] changes[k]).wf(),
        ascending(changes),
        offset.1 > 0,
        0 <= i && i + 1 < resolve_spec(changes, Some(offset)).len(),
    ensures
        start_q(changes, Some(offset), i as nat) is Some,
        start_q(changes, Some(offset), (i + 1) as nat) is Some,
        resolve_spec(changes, Some(offset))[i] == segment_of(
            changes[i],
            start_q(changes, Some(offset), i as nat)->Some_0,
        ),
        resolve_spec(changes, Some(offset))[i + 1] == segment_of(
            changes[i + 1],
            start_q(changes, Some(offset), (i + 1) as nat)->Some_0,
        ),
        q_le(
            start_q(changes, Some(offset), i as nat)->Some_0,
            start_q(changes, Some(offset), (i + 1) as nat)->Some_0,
        ),
{
    lemma_resolve_index(changes, Some(offset), changes.len(), i);
    lemma_resolve_index(changes, Some(offset), changes.len(), i + 1);
    lemma_start_times_monotone(changes, Some(offset), i as nat);
}

/// In a segment at a steady 120 beats per minute that opens the chart, at
/// normal speed, a row at the start of the second measure falls exactly
/// 2000 ms after the segment starts, rounded toward zero.
pub proof fn lemma_one_measure_at_120(seg: Segment)
    requires
        seg.wf(),
        seg.change.time.mantissa == 0,
        seg.change.tempo.mantissa == 120 * pow10(seg.change.tempo.scale as nat),
        fits(seg.start_num + 2000 * seg.start_den),
        fits(2000 * seg.start_den),
        fits_i64(trunc_div(seg.start_num + 2000 * seg.start_den, seg.start_den as int)),
    ensures
        row_time(seg, 1, Position { num: 0, den: 1 }, Decimal { mantissa: 1, scale: 0 }) == Some(
            trunc_div(seg.start_num + 2000 * seg.start_den, seg.start_den as int) as i64,
        ),
{
    let p = pow10(seg.change.time.scale as nat);
    let t = pow10(seg.change.tempo.scale as nat);
    lemma_pow10_le(0, seg.change.time.scale as nat);
    lemma_pow10_le(0, seg.change.tempo.scale as nat);
    lemma_pow10_le(seg.change.tempo.scale as nat, 18);
    reveal_with_fuel(pow10, 19);
    reveal_with_fuel(gcd, 3);
    assert(gcd(1, 1) == 1);
    assert(q_add((1, 1), (0, 1)) == Some((1int, 1int)));
    vstd::arithmetic::div_mod::lemma_fundamental_div_mod_converse(p, p, 1, 0);
    assert(gcd(p as nat, p as nat) == p);
    assert(q_add((1, 1), q_neg(dec_q(seg.change.time))) == Some((1int, 1int)));
    assert(gcd(240_000, 1) == 1);
    assert(q_mul(whole_measure(), (1, 1)) == Some((240_000int, 1int)));
    let big = 240_000 * t;
    let ten = 120 * t;
    assert(big == ten * 2000 + 0) by (nonlinear_arith)
        requires
            big == 240_000 * t,
            ten == 120 * t,
    ;
    vstd::arithmetic::div_mod::lemma_fundamental_div_mod_converse(big, ten, 2000, 0);
    vstd::arithmetic::div_mod::lemma_fundamental_div_mod_converse(ten, ten, 1, 0);
    assert(gcd(big as nat, ten as nat) == gcd(ten as nat, 0));
    assert(240_000 * t == big && 1 * ten == ten);
    assert(q_div((240_000, 1), dec_q(seg.change.tempo)) == Some((2000int, 1int)));
    let a = seg.start_num as int;
    let b = seg.start_den as int;
    let n = a * 1 + 2000 * b;
    crate::exact::lemma_lowest(n, b * 1);
    let r = lowest(n, b * 1);
    assert(fits(a * 1) && fits(2000 * b) && fits(n) && fits(b * 1));
    assert(q_add((a, b), (2000, 1)) == Some(r));
    assert(row_q(seg, 1, Position { num: 0, den: 1 }) == Some(r));
    assert(dec_q(Decimal { mantissa: 1, scale: 0 }) == (1int, 1int));
    assert(fits(r.0 * 1) && fits(r.1 * 1));
    crate::exact::lemma_lowest(r.0 * 1, r.1 * 1);
    let v = lowest(r.0 * 1, r.1 * 1);
    assert(v.0 * b == n * v.1) by (nonlinear_arith)
        requires
            v.0 * (r.1 * 1) == (r.0 * 1) * v.1,
            r.0 * (b * 1) == n * r.1,
            r.1 > 0,
            v.1 > 0,
            b > 0,
    ;
    lemma_trunc_equal(v.0, v.1, n, b);
}

/// A chart at a steady 120 beats per minute with one tap at the start of its
/// second measure: at normal speed the tap falls exactly 2000 ms after the
/// offset-adjusted start, rounded toward zero, and nothing else is placed.
pub proof fn lemma_chart_one_measure_at_120(data: &NoteData, s: (int, int))
    requires
        data.data.bpms@ == seq![TempoChange {
            time: Decimal { mantissa: 0, scale: 0 },
            tempo: Decimal { mantissa: 120, scale: 0 },
        }],
        offset_q(data.data.offset) == Some(s),
        s.1 > 0,
        fits(s.0),
        fits(s.1),
        fits(s.0 + 2000 * s.1),
        fits(2000 * s.1),
        fits_i64(trunc_div(s.0 + 2000 * s.1, s.1)),
        data.notes@.len() == 2,
        data.notes@[0]@.len() == 0,
        data.notes@[1]@.len() == 1,
        data.notes@[1]@[0].0 == (Position { num: 0, den: 1 }),
        data.notes@[1]@[0].1.row@ == seq![(NoteType::Tap, 0usize)],
    ensures
        chart_times(data, Decimal { mantissa: 1, scale: 0 }) == seq![
            seq![GameplayInfo(trunc_div(s.0 + 2000 * s.1, s.1) as i64, NoteType::Tap, 1, Position { num: 0, den: 1 })],
            seq![],
            seq![],
            seq![],
        ],
{
    let rate = Decimal { mantissa: 1, scale: 0 };
    let c = data.data.bpms@[0];
    let p = Position { num: 0, den: 1 };
    reveal_with_fuel(pow10, 19);
    reveal_with_fuel(gcd, 3);
    assert(abs(0) == 0);
    assert(gcd(0, 1) == 1);
    assert(lowest(0, 1) == (0int, 1int));
    let seg = segment_of(c, s);
    assert(seg.frac == p);
    assert(coprime(0, 1)) by {
        assert forall|g: int| 1 < g implies !(#[trigger] (0int % g) == 0 && #[trigger] (1int % g) == 0) by {
            vstd::arithmetic::div_mod::lemma_fundamental_div_mod_converse(1, g, 0, 1);
        }
    }
    assert(seg.wf());
    let segs = resolve_spec(data.data.bpms@, Some(s));
    assert(data.data.bpms@.len() == 1);
    assert(start_q(data.data.bpms@, Some(s), 0) == Some(s));
    assert(resolve_upto(data.data.bpms@, Some(s), 0) == Seq::<Segment>::empty());
    assert(segs =~= seq![seg]);
    lemma_one_measure_at_120(seg);
    let t = trunc_div(s.0 + 2000 * s.1, s.1) as i64;
    let ms = data.notes@;
    assert(ms.drop_last().drop_last() =~= Seq::<Vec<(Position, NoteRow)>>::empty());
    assert(convert_measures(segs, ms.drop_last().drop_last(), rate) == (0int, empty_columns::<GameplayInfo>()));
    assert(ms.drop_last().last() == ms[0]);
    assert(ms[0]@.len() == 0);
    assert(convert_rows(0, empty_columns::<GameplayInfo>(), segs, 0, ms[0]@, rate) == (0int, empty_columns::<GameplayInfo>()));
    assert(convert_measures(segs, ms.drop_last(), rate) == (0int, empty_columns::<GameplayInfo>()));
    let rows = ms[1]@;
    assert(rows.drop_last() =~= Seq::<(Position, NoteRow)>::empty());
    assert(advance(segs, 0, 1, p) == 0);
    let notes = rows.last().1.row@;
    assert(notes.drop_last() =~= Seq::<(NoteType, usize)>::empty());
    assert(notes.last() == (NoteType::Tap, 0usize));
    assert(place(empty_columns(), notes.drop_last(), t, 1, p) == empty_columns::<GameplayInfo>());
    let cols = seq![seq![GameplayInfo(t, NoteType::Tap, 1, p)], seq![], seq![], seq![]];
    assert(place(empty_columns(), notes, t, 1, p) =~= cols);
    assert(ms.last() == ms[1]);
    assert(rows.last().0 == p);
    assert(convert_rows(0, empty_columns::<GameplayInfo>(), segs, 1, rows.drop_last(), rate) == (0int, empty_columns::<GameplayInfo>()));
    assert(segs[0] == seg);
    assert(row_time(segs[0], 1, p, rate) == Some(t));
    assert(convert_rows(0, empty_columns::<GameplayInfo>(), segs, 1, rows, rate) == (0int, cols));
    assert(convert_measures(segs, ms, rate) == (0int, cols));
    assert(resolve_spec(data.data.bpms@, offset_q(data.data.offset)) == segs);
}

} // verus!
