//! Exact fractions of 128-bit integers, kept in lowest terms, with every
//! operation checked against overflow.
use vstd::prelude::*;
use num_rational::Ratio;
use vstd::arithmetic::div_mod::{lemma_fundamental_div_mod, lemma_fundamental_div_mod_converse};

verus! {

/// Greatest common divisor.
pub open spec fn gcd(a: nat, b: nat) -> nat
    decreases b,
{
    if b == 0 {
        a
    } else {
        gcd(b, a % b)
    }
}

pub open spec fn abs(x: int) -> nat {
    if x < 0 {
        (-x) as nat
    } else {
        x as nat
    }
}

/// Two integers share no factor above one.
pub open spec fn coprime(a: int, b: int) -> bool {
    forall|g: int| #![trigger a % g, b % g] 1 < g ==> !(a % g == 0 && b % g == 0)
}

/// A 128-bit integer whose negation is one as well.
pub open spec fn fits(x: int) -> bool {
    -i128::MAX <= x <= i128::MAX
}

/// `n / d` in lowest terms, for a positive `d`.
pub open spec fn lowest(n: int, d: int) -> (int, int) {
    let g = gcd(abs(n), d as nat) as int;
    (n / g, d / g)
}

/// Relies on `num_rational::Ratio::new`, which divides numerator and
/// denominator by their greatest common divisor; with a positive denominator
/// no sign changes hands.  It panics only on a zero denominator.
#[verifier::external_body]
pub(crate) fn ratio_lowest_terms(numer: i128, denom: i128) -> (r: (i128, i128))
    requires
        denom > 0,
        fits(numer as int),
    ensures
        (r.0 as int, r.1 as int) == lowest(numer as int, denom as int),
        0 < r.1 <= denom,
        abs(r.0 as int) <= abs(numer as int),
        r.0 * denom == numer * r.1,
        coprime(r.0 as int, r.1 as int),
{
    let q = Ratio::<i128>::new(numer, denom);
    (*q.numer(), *q.denom())
}

/// A fraction as numerator and positive denominator.
pub open spec fn q_wf(q: (int, int)) -> bool {
    q.1 > 0 && fits(q.0) && fits(q.1)
}

pub open spec fn q_view(q: (i128, i128)) -> (int, int) {
    (q.0 as int, q.1 as int)
}

pub open spec fn q_opt_view(q: Option<(i128, i128)>) -> Option<(int, int)> {
    match q {
        Some(q) => Some(q_view(q)),
        None => None,
    }
}

/// `n / d` in lowest terms, where both fit.
pub open spec fn q_make(n: int, d: int) -> Option<(int, int)> {
    if fits(n) && fits(d) && d > 0 {
        Some(lowest(n, d))
    } else {
        None
    }
}

pub open spec fn q_neg(a: (int, int)) -> (int, int) {
    (-a.0, a.1)
}

pub open spec fn q_add(a: (int, int), b: (int, int)) -> Option<(int, int)> {
    if fits(a.0 * b.1) && fits(b.0 * a.1) {
        q_make(a.0 * b.1 + b.0 * a.1, a.1 * b.1)
    } else {
        None
    }
}

pub open spec fn q_mul(a: (int, int), b: (int, int)) -> Option<(int, int)> {
    q_make(a.0 * b.0, a.1 * b.1)
}

/// `a / b`, for a positive `b`.
pub open spec fn q_div(a: (int, int), b: (int, int)) -> Option<(int, int)> {
    if b.0 > 0 {
        q_make(a.0 * b.1, a.1 * b.0)
    } else {
        None
    }
}

/// `a` is no greater than `b`.
pub open spec fn q_le(a: (int, int), b: (int, int)) -> bool {
    a.0 * b.1 <= b.0 * a.1
}

fn mul_checked(a: i128, b: i128) -> (r: Option<i128>)
    ensures
        r matches Some(x) ==> x == a * b && fits(a * b),
        r is None ==> !fits(a * b),
{
    match a.checked_mul(b) {
        Some(x) => if x == i128::MIN {
            None
        } else {
            Some(x)
        },
        None => None,
    }
}

fn add_checked(a: i128, b: i128) -> (r: Option<i128>)
    ensures
        r matches Some(x) ==> x == a + b && fits(a + b),
        r is None ==> !fits(a + b),
{
    match a.checked_add(b) {
        Some(x) => if x == i128::MIN {
            None
        } else {
            Some(x)
        },
        None => None,
    }
}

pub fn q_make_exec(n: Option<i128>, d: Option<i128>) -> (r: Option<(i128, i128)>)
    ensures
        match (n, d) {
            (Some(n), Some(d)) => q_opt_view(r) == q_make(n as int, d as int),
            _ => r is None,
        },
        r matches Some(q) ==> q_wf(q_view(q)),
{
    match (n, d) {
        (Some(n), Some(d)) => if n != i128::MIN && d > 0 {
            let q = ratio_lowest_terms(n, d);
            Some(q)
        } else {
            None
        },
        _ => None,
    }
}

pub fn q_neg_exec(a: (i128, i128)) -> (r: (i128, i128))
    requires
        q_wf(q_view(a)),
    ensures
        q_view(r) == q_neg(q_view(a)),
        q_wf(q_view(r)),
{
    (-a.0, a.1)
}

pub fn q_add_exec(a: (i128, i128), b: (i128, i128)) -> (r: Option<(i128, i128)>)
    requires
        q_wf(q_view(a)),
        q_wf(q_view(b)),
    ensures
        q_opt_view(r) == q_add(q_view(a), q_view(b)),
        r matches Some(q) ==> q_wf(q_view(q)),
{
    match (mul_checked(a.0, b.1), mul_checked(b.0, a.1)) {
        (Some(x), Some(y)) => q_make_exec(add_checked(x, y), mul_checked(a.1, b.1)),
        _ => None,
    }
}

pub fn q_mul_exec(a: (i128, i128), b: (i128, i128)) -> (r: Option<(i128, i128)>)
    requires
        q_wf(q_view(a)),
        q_wf(q_view(b)),
    ensures
        q_opt_view(r) == q_mul(q_view(a), q_view(b)),
        r matches Some(q) ==> q_wf(q_view(q)),
{
    q_make_exec(mul_checked(a.0, b.0), mul_checked(a.1, b.1))
}

pub fn q_div_exec(a: (i128, i128), b: (i128, i128)) -> (r: Option<(i128, i128)>)
    requires
        q_wf(q_view(a)),
        q_wf(q_view(b)),
    ensures
        q_opt_view(r) == q_div(q_view(a), q_view(b)),
        r matches Some(q) ==> q_wf(q_view(q)),
{
    if b.0 > 0 {
        q_make_exec(mul_checked(a.0, b.1), mul_checked(a.1, b.0))
    } else {
        None
    }
}

proof fn lemma_gcd_divides(a: nat, b: nat)
    requires
        a > 0 || b > 0,
    ensures
        gcd(a, b) > 0,
        (a as int) % (gcd(a, b) as int) == 0,
        (b as int) % (gcd(a, b) as int) == 0,
    decreases b,
{
    if b == 0 {
        lemma_fundamental_div_mod_converse(a as int, a as int, 1, 0);
        lemma_fundamental_div_mod_converse(0, a as int, 0, 0);
    } else {
        let r = a % b;
        lemma_gcd_divides(b, r as nat);
        let g = gcd(b, r as nat) as int;
        lemma_fundamental_div_mod(a as int, b as int);
        lemma_fundamental_div_mod(b as int, g);
        lemma_fundamental_div_mod(r as int, g);
        let qa = (a as int) / (b as int);
        let kb = (b as int) / g;
        let kr = (r as int) / g;
        assert(a == g * (qa * kb + kr) + 0) by (nonlinear_arith)
            requires
                a == b * qa + r,
                b == g * kb + 0,
                r == g * kr + 0,
        ;
        lemma_fundamental_div_mod_converse(a as int, g, qa * kb + kr, 0);
    }
}

/// Lowest terms keep the value and the sign.
pub proof fn lemma_lowest(n: int, d: int)
    requires
        d > 0,
    ensures
        lowest(n, d).1 > 0,
        lowest(n, d).0 * d == n * lowest(n, d).1,
        n >= 0 ==> lowest(n, d).0 >= 0,
        lowest(n, d).1 <= d,
        abs(lowest(n, d).0) <= abs(n),
{
    lemma_gcd_divides(abs(n), d as nat);
    let g = gcd(abs(n), d as nat) as int;
    lemma_fundamental_div_mod(n, g);
    lemma_fundamental_div_mod(d, g);
    if n < 0 {
        let k = (-n) / g;
        lemma_fundamental_div_mod(-n, g);
        assert(n == g * (-k) + 0) by (nonlinear_arith)
            requires
                -n == g * k + 0,
        ;
        lemma_fundamental_div_mod_converse(n, g, -k, 0);
    }
    let (a, b) = (n / g, d / g);
    assert(b > 0 && a * d == n * b && (n >= 0 ==> a >= 0) && b <= d) by (nonlinear_arith)
        requires
            g > 0,
            n == g * a,
            d == g * b,
            d > 0,
    ;
    assert(abs(a) <= abs(n)) by (nonlinear_arith)
        requires
            g >= 1,
            n == g * a,
            abs(a) == (if a < 0 { -a } else { a }),
            abs(n) == (if n < 0 { -n } else { n }),
    ;
}

/// Adding a fraction that is not negative gives no smaller a value.
pub proof fn lemma_add_nonneg(a: (int, int), b: (int, int))
    requires
        a.1 > 0,
        b.1 > 0,
        b.0 >= 0,
        q_add(a, b) is Some,
    ensures
        q_le(a, q_add(a, b)->Some_0),
{
    let n = a.0 * b.1 + b.0 * a.1;
    let d = a.1 * b.1;
    assert(d > 0) by (nonlinear_arith)
        requires
            a.1 > 0,
            b.1 > 0,
            d == a.1 * b.1,
    ;
    lemma_lowest(n, d);
    let r = lowest(n, d);
    assert(a.0 * r.1 <= r.0 * a.1) by (nonlinear_arith)
        requires
            r.0 * d == n * r.1,
            r.1 > 0,
            d == a.1 * b.1,
            n == a.0 * b.1 + b.0 * a.1,
            a.1 > 0,
            b.1 > 0,
            b.0 >= 0,
    ;
}

pub proof fn lemma_q_make_pos(n: int, d: int)
    ensures
        q_make(n, d) matches Some(r) ==> r.1 > 0,
{
    if d > 0 {
        lemma_lowest(n, d);
    }
}

/// Fractions of equal value, rounded toward zero, agree.
pub proof fn lemma_trunc_equal(x: int, y: int, n: int, d: int)
    requires
        y > 0,
        d > 0,
        x * d == n * y,
    ensures
        (if x >= 0 { x / y } else { -((-x) / y) }) == (if n >= 0 { n / d } else { -((-n) / d) }),
{
    assert((x >= 0) == (n >= 0)) by (nonlinear_arith)
        requires
            y > 0,
            d > 0,
            x * d == n * y,
    ;
    let (xx, nn) = if n >= 0 { (x, n) } else { (-x, -n) };
    assert(xx * d == nn * y) by (nonlinear_arith)
        requires
            x * d == n * y,
            (xx == x && nn == n) || (xx == -x && nn == -n),
    ;
    lemma_fundamental_div_mod(nn, d);
    let q = nn / d;
    let r = nn % d;
    assert(0 <= xx - q * y < y) by (nonlinear_arith)
        requires
            nn == d * q + r,
            0 <= r < d,
            xx * d == nn * y,
            y > 0,
            d > 0,
    ;
    lemma_fundamental_div_mod_converse(xx, y, q, xx - q * y);
}

} // verus!
