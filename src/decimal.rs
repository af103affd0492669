//! Decimal numbers as they are written in chart fields, held exactly.
use vstd::prelude::*;

verus! {

/// Ten to the power `n`.
pub open spec fn pow10(n: nat) -> int
    decreases n,
{
    if n == 0 {
        1
    } else {
        10 * pow10((n - 1) as nat)
    }
}

/// The value `mantissa / 10^scale`.
#[derive(Clone, Copy, Debug, PartialEq, Eq, Structural)]
pub struct Decimal {
    pub mantissa: i64,
    pub scale: u32,
}

impl Decimal {
    /// At most `MAX_DIGITS` digits.
    pub open spec fn wf(self) -> bool {
        &&& self.scale <= MAX_DIGITS
        &&& -pow10(MAX_DIGITS as nat) < self.mantissa < pow10(MAX_DIGITS as nat)
    }
}

/// Most digits a decimal may have: its mantissa then fits in an `i64`.
pub const MAX_DIGITS: u32 = 18;

pub open spec fn is_digit(c: char) -> bool {
    '0' <= c <= '9'
}

/// Reading the unsigned part of a decimal from left to right: whether it is
/// well formed so far (digits and at most one point), whether the point was
/// seen, the digits read as an integer, how many digits follow the point, and
/// how many digits there are.
pub open spec fn scan(b: Seq<char>) -> (bool, bool, int, nat, nat)
    decreases b.len(),
{
    if b.len() == 0 {
        (true, false, 0, 0, 0)
    } else {
        let (ok, dot, v, sc, nd) = scan(b.drop_last());
        let c = b.last();
        if is_digit(c) {
            (ok, dot, v * 10 + (c as int - '0' as int), if dot { sc + 1 } else { sc }, nd + 1)
        } else if c == '.' && !dot {
            (ok, true, v, sc, nd)
        } else {
            (false, dot, v, sc, nd)
        }
    }
}

/// The decimal that `s` spells: an optional minus sign, then digits with at
/// most one point among them, at least one digit and at most `MAX_DIGITS`.
pub open spec fn decimal_of(s: Seq<char>) -> Option<Decimal> {
    let neg = s.len() > 0 && s[0] == '-';
    let b = if neg { s.drop_first() } else { s };
    let (ok, dot, v, sc, nd) = scan(b);
    if ok && 1 <= nd <= MAX_DIGITS {
        Some(Decimal { mantissa: (if neg { -v } else { v }) as i64, scale: sc as u32 })
    } else {
        None
    }
}

proof fn lemma_scan_bounds(b: Seq<char>)
    ensures
        0 <= scan(b).2 < pow10(scan(b).4),
        scan(b).3 <= scan(b).4,
    decreases b.len(),
{
    if b.len() > 0 {
        lemma_scan_bounds(b.drop_last());
        let (ok, dot, v, sc, nd) = scan(b.drop_last());
        let c = b.last();
        if is_digit(c) {
            let d = c as int - '0' as int;
            assert(0 <= v * 10 + d < pow10(nd + 1)) by (nonlinear_arith)
                requires
                    0 <= v < pow10(nd),
                    0 <= d <= 9,
                    pow10(nd + 1) == 10 * pow10(nd),
            ;
        }
    }
}

pub proof fn lemma_pow10_le(n: nat, m: nat)
    requires
        n <= m,
    ensures
        1 <= pow10(n) <= pow10(m),
    decreases m,
{
    if m > n {
        lemma_pow10_le(n, (m - 1) as nat);
    } else if n > 0 {
        lemma_pow10_le(0, (n - 1) as nat);
    }
}

pub fn parse_decimal(s: &[char]) -> (r: Option<Decimal>)
    ensures
        r == decimal_of(s@),
        r matches Some(d) ==> d.wf(),
{
    let neg = s.len() > 0 && s[0] == '-';
    let mut i: usize = if neg { 1 } else { 0 };
    let ghost b = if neg { s@.drop_first() } else { s@ };
    assert(b =~= s@.subrange(i as int, s@.len() as int));
    let mut ok = true;
    let mut dot = false;
    let mut v: i64 = 0;
    let mut sc: u32 = 0;
    let mut nd: u32 = 0;
    while i < s.len()
        invariant
            (if neg { 1usize } else { 0usize }) <= i <= s@.len(),
            b == s@.subrange(if neg { 1 } else { 0 }, s@.len() as int),
            nd <= MAX_DIGITS + 1,
            ok ==> nd <= MAX_DIGITS,
            ok ==> scan(b.subrange(0, i - (if neg { 1int } else { 0int }))) == (
                true,
                dot,
                v as int,
                sc as nat,
                nd as nat,
            ),
            !ok ==> !scan(b).0 || scan(b).4 > MAX_DIGITS,
        decreases s@.len() - i,
    {
        let ghost k = i - (if neg { 1int } else { 0int });
        proof {
            assert(b.subrange(0, k + 1).drop_last() =~= b.subrange(0, k));
            assert(b.subrange(0, k + 1).last() == s@[i as int]);
        }
        if !ok {
            i = i + 1;
            continue;
        }
        let c = s[i];
        if '0' <= c && c <= '9' {
            if nd == MAX_DIGITS {
                proof {
                    lemma_scan_monotone(b, k + 1);
                }
                ok = false;
            } else {
                proof {
                    lemma_scan_bounds(b.subrange(0, k));
                    lemma_pow10_le(nd as nat, 17);
                    reveal_with_fuel(pow10, 18);
                    assert(pow10(17) == 100_000_000_000_000_000);
                }
                v = v * 10 + (c as u32 - '0' as u32) as i64;
                if dot {
                    sc = sc + 1;
                }
                nd = nd + 1;
            }
        } else if c == '.' && !dot {
            dot = true;
        } else {
            proof {
                lemma_scan_fails(b, k + 1);
            }
            ok = false;
        }
        i = i + 1;
    }
    let ghost k = i - (if neg { 1int } else { 0int });
    assert(b.subrange(0, k) =~= b);
    if ok && nd >= 1 {
        proof {
            lemma_scan_bounds(b);
            lemma_pow10_le(nd as nat, MAX_DIGITS as nat);
            reveal_with_fuel(pow10, 19);
            assert(pow10(MAX_DIGITS as nat) == 1_000_000_000_000_000_000);
        }
        let m = if neg { -v } else { v };
        Some(Decimal { mantissa: m, scale: sc })
    } else {
        None
    }
}

/// Once a prefix is malformed, so is the whole.
proof fn lemma_scan_fails(b: Seq<char>, k: int)
    requires
        0 <= k <= b.len(),
        !scan(b.subrange(0, k)).0,
    ensures
        !scan(b).0,
    decreases b.len() - k,
{
    if k < b.len() {
        assert(b.subrange(0, k + 1).drop_last() =~= b.subrange(0, k));
        lemma_scan_fails(b, k + 1);
    } else {
        assert(b.subrange(0, k) =~= b);
    }
}

/// The digit count never shrinks as more is read.
proof fn lemma_scan_monotone(b: Seq<char>, k: int)
    requires
        0 <= k <= b.len(),
    ensures
        scan(b).4 >= scan(b.subrange(0, k)).4,
        !scan(b.subrange(0, k)).0 ==> !scan(b).0,
    decreases b.len() - k,
{
    if k < b.len() {
        assert(b.subrange(0, k + 1).drop_last() =~= b.subrange(0, k));
        lemma_scan_monotone(b, k + 1);
    } else {
        assert(b.subrange(0, k) =~= b);
    }
}

pub fn pow10_exec(n: u32) -> (r: i128)
    requires
        n <= MAX_DIGITS,
    ensures
        r == pow10(n as nat),
        1 <= r <= 1_000_000_000_000_000_000,
{
    let mut r: i128 = 1;
    let mut i: u32 = 0;
    while i < n
        invariant
            i <= n <= MAX_DIGITS,
            r == pow10(i as nat),
        decreases n - i,
    {
        proof {
            lemma_pow10_le(i as nat, 17);
            reveal_with_fuel(pow10, 18);
            assert(pow10(17) == 100_000_000_000_000_000);
        }
        r = r * 10;
        i = i + 1;
    }
    proof {
        lemma_pow10_le(n as nat, 18);
        reveal_with_fuel(pow10, 19);
        assert(pow10(18) == 1_000_000_000_000_000_000);
    }
    r
}

} // verus!
