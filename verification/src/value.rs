//! Values read from attribute texts: calendar dates and fixed-point
//! decimal amounts.
use chrono::Datelike;
use std::str::FromStr;
use vstd::prelude::*;
use vstd::std_specs::cmp::PartialEqSpecImpl;

verus! {

/// A calendar date.
#[derive(Clone, Copy, Debug, PartialEq, Eq, Structural)]
pub struct Date {
    pub year: i32,
    pub month: u32,
    pub day: u32,
}

/// Chronological order of dates: by year, then month, then day.
pub open spec fn date_lt(a: Date, b: Date) -> bool {
    ||| a.year < b.year
    ||| a.year == b.year && a.month < b.month
    ||| a.year == b.year && a.month == b.month && a.day < b.day
}

impl Date {
    /// Whether `self` comes strictly before `other`.
    pub fn before(&self, other: &Date) -> (r: bool)
        ensures
            r == date_lt(*self, *other),
    {
        self.year < other.year || (self.year == other.year && self.month < other.month) || (
        self.year == other.year && self.month == other.month && self.day < other.day)
    }
}

/// What `chrono::NaiveDate::parse_from_str` gives for a text and a format:
/// the year, month and day of the date, or the text that the `Display` of
/// its `ParseError` writes. It stands for the two functions together; both
/// depend on their arguments alone.
pub uninterp spec fn chrono_parse_date(s: Seq<char>, fmt: Seq<char>) -> Result<(i32, u32, u32), Seq<char>>;

/// Calls `chrono::NaiveDate::parse_from_str(s, fmt)`. Claimed: the result is
/// `chrono_parse_date` of the two texts, the date given by its year, month
/// and day, an error by the text that its `Display` writes.
#[verifier::external_body]
pub(crate) fn chrono_parse(s: &str, fmt: &str) -> (r: Result<Date, String>)
    ensures
        match chrono_parse_date(s@, fmt@) {
            Ok((y, m, d)) => r == Ok::<Date, String>(Date { year: y, month: m, day: d }),
            Err(e) => r matches Err(t) && t@ == e,
        },
{
    match chrono::NaiveDate::parse_from_str(s, fmt) {
        Ok(d) => Ok(Date { year: d.year(), month: d.month(), day: d.day() }),
        Err(e) => Err(e.to_string()),
    }
}

/// A fixed-point decimal number: `mantissa / 10^scale`.
#[derive(Clone, Copy, Debug)]
pub struct Decimal {
    pub mantissa: i128,
    pub scale: u32,
}

pub open spec fn pow10(n: nat) -> int
    decreases n,
{
    if n == 0 {
        1
    } else {
        10 * pow10((n - 1) as nat)
    }
}

/// Two decimals stand for the same number (`1.0` and `1.00` do).
pub open spec fn same_value(a: Decimal, b: Decimal) -> bool {
    a.mantissa * pow10(b.scale as nat) == b.mantissa * pow10(a.scale as nat)
}

/// What `rust_decimal::Decimal::from_str` gives for a text: the mantissa and
/// scale of the number, or `None` for an error.
pub uninterp spec fn decimal_from_str(s: Seq<char>) -> Option<(i128, u32)>;

/// What `rust_decimal::Decimal::from_scientific` gives for a text: the
/// mantissa and scale of the number, or `None` for an error.
pub uninterp spec fn decimal_from_scientific(s: Seq<char>) -> Option<(i128, u32)>;

/// Calls `rust_decimal::Decimal::from_str`. Claimed: the result is
/// `decimal_from_str` of the text, a number given by `mantissa()` and `scale()`.
#[verifier::external_body]
pub(crate) fn parse_decimal(s: &str) -> (r: Option<Decimal>)
    ensures
        match decimal_from_str(s@) {
            Some((m, sc)) => r == Some(Decimal { mantissa: m, scale: sc }),
            None => r is None,
        },
{
    match rust_decimal::Decimal::from_str(s) {
        Ok(d) => Some(Decimal { mantissa: d.mantissa(), scale: d.scale() }),
        Err(_) => None,
    }
}

/// Calls `rust_decimal::Decimal::from_scientific`. Claimed: the result is
/// `decimal_from_scientific` of the text, a number given by `mantissa()` and
/// `scale()`.
#[verifier::external_body]
pub(crate) fn parse_decimal_scientific(s: &str) -> (r: Option<Decimal>)
    ensures
        match decimal_from_scientific(s@) {
            Some((m, sc)) => r == Some(Decimal { mantissa: m, scale: sc }),
            None => r is None,
        },
{
    match rust_decimal::Decimal::from_scientific(s) {
        Ok(d) => Some(Decimal { mantissa: d.mantissa(), scale: d.scale() }),
        Err(_) => None,
    }
}

/// A decimal text as read from a statement: plain notation first, then
/// scientific notation.
pub open spec fn decimal_text(s: Seq<char>) -> Option<Decimal> {
    match decimal_from_str(s) {
        Some((m, sc)) => Some(Decimal { mantissa: m, scale: sc }),
        None => match decimal_from_scientific(s) {
            Some((m, sc)) => Some(Decimal { mantissa: m, scale: sc }),
            None => None,
        },
    }
}

/// Reads a decimal text: plain notation first, then scientific notation.
pub fn read_decimal(s: &str) -> (r: Option<Decimal>)
    ensures
        r == decimal_text(s@),
{
    match parse_decimal(s) {
        Some(d) => Some(d),
        None => parse_decimal_scientific(s),
    }
}

/// Removes trailing decimal zeros while the scale allows.
pub open spec fn norm(m: nat, s: nat) -> (nat, nat)
    decreases s,
{
    if s > 0 && m % 10 == 0 {
        norm(m / 10, (s - 1) as nat)
    } else {
        (m, s)
    }
}

proof fn lemma_pow10_pos(n: nat)
    ensures
        pow10(n) > 0,
    decreases n,
{
    if n > 0 {
        lemma_pow10_pos((n - 1) as nat);
    }
}

proof fn lemma_pow10_add(a: nat, b: nat)
    ensures
        pow10(a + b) == pow10(a) * pow10(b),
    decreases a,
{
    if a > 0 {
        lemma_pow10_add((a - 1) as nat, b);
        assert((a + b - 1) as nat == ((a - 1) as nat + b));
        let x = pow10((a - 1) as nat);
        let y = pow10(b);
        assert(10 * (x * y) == (10 * x) * y) by (nonlinear_arith);
    }
}

proof fn lemma_norm(m: nat, s: nat)
    ensures
        norm(m, s).1 <= s,
        m == norm(m, s).0 * pow10((s - norm(m, s).1) as nat),
        norm(m, s).1 == 0 || norm(m, s).0 % 10 != 0,
    decreases s,
{
    if s > 0 && m % 10 == 0 {
        let q = m / 10;
        lemma_norm(q, (s - 1) as nat);
        let (n, t) = norm(q, (s - 1) as nat);
        assert(((s - 1) as nat - t) as nat + 1 == (s - t) as nat);
        let p = pow10(((s - 1) as nat - t) as nat);
        assert(pow10((s - t) as nat) == 10 * p);
        assert(m == 10 * q);
        assert(10 * (n * p) == n * (10 * p)) by (nonlinear_arith);
    }
}

proof fn lemma_cancel(a: int, b: int, c: int)
    requires
        c > 0,
        a * c == b * c,
    ensures
        a == b,
{
    assert(a * c == b * c && c > 0 ==> a == b) by (nonlinear_arith);
}

/// Equal numbers have equal normal forms, and conversely.
proof fn lemma_norm_eq(m1: nat, s1: nat, m2: nat, s2: nat)
    ensures
        (m1 * pow10(s2) == m2 * pow10(s1)) <==> norm(m1, s1) == norm(m2, s2),
{
    lemma_norm(m1, s1);
    lemma_norm(m2, s2);
    let (n1, t1) = norm(m1, s1);
    let (n2, t2) = norm(m2, s2);
    let d1 = (s1 - t1) as nat;
    let d2 = (s2 - t2) as nat;
    lemma_pow10_add(d1, s2);
    lemma_pow10_add(d2, s1);
    let k1 = d1 + s2;
    let k2 = d2 + s1;
    assert(m1 * pow10(s2) == n1 * pow10(k1)) by {
        assert((n1 * pow10(d1)) * pow10(s2) == n1 * (pow10(d1) * pow10(s2))) by (nonlinear_arith);
    }
    assert(m2 * pow10(s1) == n2 * pow10(k2)) by {
        assert((n2 * pow10(d2)) * pow10(s1) == n2 * (pow10(d2) * pow10(s1))) by (nonlinear_arith);
    }
    if norm(m1, s1) == norm(m2, s2) {
        assert(k1 == k2);
    }
    if t1 <= t2 {
        let g = (t2 - t1) as nat;
        assert(k1 == g + k2);
        lemma_pow10_add(g, k2);
        lemma_pow10_pos(k2);
        lemma_pow10_pos(g);
        if m1 * pow10(s2) == m2 * pow10(s1) {
            assert(n1 * pow10(k1) == (n1 * pow10(g)) * pow10(k2)) by (nonlinear_arith)
                requires
                    pow10(k1) == pow10(g) * pow10(k2),
            ;
            lemma_cancel(n1 * pow10(g), n2 as int, pow10(k2));
            if g > 0 {
                assert(pow10(g) == 10 * pow10((g - 1) as nat));
                let r = n1 * pow10((g - 1) as nat);
                assert(n2 == 10 * r) by (nonlinear_arith)
                    requires
                        n2 == n1 * pow10(g),
                        pow10(g) == 10 * pow10((g - 1) as nat),
                        r == n1 * pow10((g - 1) as nat),
                ;
                assert((10 * r) % 10 == 0) by (nonlinear_arith);
            } else {
                assert(pow10(g) == 1);
                assert(n1 * pow10(g) == n1 * 1);
            }
        }
    } else {
        let g = (t1 - t2) as nat;
        assert(k2 == g + k1);
        lemma_pow10_add(g, k1);
        lemma_pow10_pos(k1);
        lemma_pow10_pos(g);
        if m1 * pow10(s2) == m2 * pow10(s1) {
            assert(n2 * pow10(k2) == (n2 * pow10(g)) * pow10(k1)) by (nonlinear_arith)
                requires
                    pow10(k2) == pow10(g) * pow10(k1),
            ;
            lemma_cancel(n2 * pow10(g), n1 as int, pow10(k1));
            assert(pow10(g) == 10 * pow10((g - 1) as nat));
            let r = n2 * pow10((g - 1) as nat);
            assert(n1 == 10 * r) by (nonlinear_arith)
                requires
                    n1 == n2 * pow10(g),
                    pow10(g) == 10 * pow10((g - 1) as nat),
                    r == n2 * pow10((g - 1) as nat),
            ;
            assert((10 * r) % 10 == 0) by (nonlinear_arith);
        }
    }
}

/// Sign and magnitude of a mantissa.
fn magnitude(m: i128) -> (r: (bool, u128))
    ensures
        r.0 == (m < 0),
        r.1 as int == if m < 0 { -m } else { m as int },
{
    if m < 0 {
        let p = -(m + 1);
        (true, p as u128 + 1)
    } else {
        (false, m as u128)
    }
}

/// The normal form of a magnitude and scale.
fn normalize(m: u128, s: u32) -> (r: (u128, u32))
    ensures
        (r.0 as nat, r.1 as nat) == norm(m as nat, s as nat),
{
    let mut mag = m;
    let mut sc = s;
    while sc > 0 && mag % 10 == 0
        invariant
            norm(mag as nat, sc as nat) == norm(m as nat, s as nat),
        decreases sc,
    {
        mag = mag / 10;
        sc = sc - 1;
    }
    (mag, sc)
}

/// The magnitude of a mantissa.
pub open spec fn abs_of(m: i128) -> nat {
    if m < 0 {
        (-m) as nat
    } else {
        m as nat
    }
}

/// Two decimals stand for the same number exactly when both are zero, or
/// they have the same sign and their magnitudes have the same normal form.
proof fn lemma_same_value_norm(a: Decimal, b: Decimal)
    ensures
        same_value(a, b) <==> ((abs_of(a.mantissa) == 0 && abs_of(b.mantissa) == 0) || ((a.mantissa
            < 0) == (b.mantissa < 0) && norm(abs_of(a.mantissa), a.scale as nat) == norm(
            abs_of(b.mantissa),
            b.scale as nat,
        ))),
{
    let p1 = pow10(a.scale as nat);
    let p2 = pow10(b.scale as nat);
    lemma_pow10_pos(a.scale as nat);
    lemma_pow10_pos(b.scale as nat);
    let x = abs_of(a.mantissa);
    let y = abs_of(b.mantissa);
    lemma_norm_eq(x, a.scale as nat, y, b.scale as nat);
    let m = a.mantissa as int;
    let n = b.mantissa as int;
    assert(m * p2 == n * p1 <==> ((x == 0 && y == 0) || ((m < 0) == (n < 0) && x * p2 == y * p1)))
        by (nonlinear_arith)
        requires
            p1 > 0,
            p2 > 0,
            x == if m < 0 { -m } else { m },
            y == if n < 0 { -n } else { n },
    ;
}

proof fn lemma_norm_zero(m: nat, s: nat)
    ensures
        norm(m, s).0 == 0 <==> m == 0,
{
    lemma_norm(m, s);
    let p = pow10((s - norm(m, s).1) as nat);
    lemma_pow10_pos((s - norm(m, s).1) as nat);
    let n = norm(m, s).0;
    assert(m == n * p && p > 0 ==> (n == 0 <==> m == 0)) by (nonlinear_arith);
}

/// Standing for the same number is an equivalence: reflexive, symmetric
/// and transitive.
pub proof fn lemma_same_value_equivalence(a: Decimal, b: Decimal, c: Decimal)
    ensures
        same_value(a, a),
        same_value(a, b) ==> same_value(b, a),
        same_value(a, b) && same_value(b, c) ==> same_value(a, c),
{
    lemma_same_value_norm(a, a);
    lemma_same_value_norm(a, b);
    lemma_same_value_norm(b, a);
    lemma_same_value_norm(b, c);
    lemma_same_value_norm(a, c);
    lemma_norm_zero(abs_of(a.mantissa), a.scale as nat);
    lemma_norm_zero(abs_of(b.mantissa), b.scale as nat);
    lemma_norm_zero(abs_of(c.mantissa), c.scale as nat);
}

impl Decimal {
    /// Whether two decimals stand for the same number.
    pub fn same_value_as(&self, other: &Decimal) -> (r: bool)
        ensures
            r == same_value(*self, *other),
    {
        let (neg1, mag1) = magnitude(self.mantissa);
        let (neg2, mag2) = magnitude(other.mantissa);
        let (n1, t1) = normalize(mag1, self.scale);
        let (n2, t2) = normalize(mag2, other.scale);
        proof {
            lemma_same_value_norm(*self, *other);
        }
        (mag1 == 0 && mag2 == 0) || (neg1 == neg2 && n1 == n2 && t1 == t2)
    }
}

/// Decimals are equal when they stand for the same number.
impl PartialEq for Decimal {
    fn eq(&self, other: &Self) -> (r: bool) {
        self.same_value_as(other)
    }
}

impl PartialEqSpecImpl for Decimal {
    open spec fn obeys_eq_spec() -> bool {
        true
    }

    open spec fn eq_spec(&self, other: &Self) -> bool {
        same_value(*self, *other)
    }
}

impl Eq for Decimal {

}

/// Calls `format!("{:?}", s)`. Claimed: the result is `debug_text` of the text.
#[verifier::external_body]
pub(crate) fn debug_quote(s: &str) -> (r: String)
    ensures
        r@ == debug_text(s@),
{
    format!("{:?}", s)
}

/// What the `Debug` formatting of a `str` writes: the text in double
/// quotes, with escapes.
pub uninterp spec fn debug_text(s: Seq<char>) -> Seq<char>;

/// A number for a date that orders dates as the calendar does, for months
/// 1 to 12 and days 1 to 31: 416 for each year, 32 for each month.
pub open spec fn date_ordinal(d: Date) -> int {
    d.year * 416 + d.month * 32 + d.day
}

/// Date order is chronological and total: a date of an earlier year comes
/// first whatever its month and day, then an earlier month, then an earlier
/// day; for calendar dates it is the order of their ordinal numbers; and it
/// is a strict total order.
pub proof fn lemma_date_order(a: Date, b: Date, c: Date)
    ensures
        a.year < b.year ==> date_lt(a, b),
        a.year == b.year && a.month < b.month ==> date_lt(a, b),
        a.year == b.year && a.month == b.month && a.day < b.day ==> date_lt(a, b),
        1 <= a.month <= 12 && 1 <= b.month <= 12 && 1 <= a.day <= 31 && 1 <= b.day <= 31 ==> (date_lt(a, b)
            <==> date_ordinal(a) < date_ordinal(b)),
        !date_lt(a, a),
        date_lt(a, b) ==> !date_lt(b, a),
        date_lt(a, b) && date_lt(b, c) ==> date_lt(a, c),
        a != b ==> date_lt(a, b) || date_lt(b, a),
{
}

} // verus!
