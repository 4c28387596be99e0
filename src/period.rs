//! Calendar periods: the "YYYY-MM" entry format, loose years, and the
//! "YYYY-Mmm" wire tokens of the statistical service.

use vstd::prelude::*;
use vstd::string::*;
use vstd::utf8::{is_ascii_chars, encode_utf8, decode_utf8, is_char_boundary};
use crate::text::{ascii_bytes, ascii_chars, all_ascii, is_digit, digits_value, ascii_string, concat, lemma_ascii_encode};

verus! {

broadcast use is_ascii_spec_bytes;

/// A month of a four-digit year.
#[derive(Clone, Copy, Debug, PartialEq, Eq, Structural)]
pub struct YearMonth {
    pub year: u32,
    pub month: u32,
}

/// A requested range whose end comes before its start.
#[derive(Clone, Copy, Debug, PartialEq, Eq, Structural)]
pub enum RangeError {
    EndBeforeStart,
}

/// Why a period text was refused.
#[derive(Clone, Copy, Debug, PartialEq, Eq, Structural)]
pub enum ParseError {
    BadFormat,
    OutOfRange,
}

impl YearMonth {
    pub open spec fn wf(self) -> bool {
        self.year <= 9999 && 1 <= self.month <= 12
    }

    /// Chronological order: by year, then by month.
    pub open spec fn before_eq(self, o: YearMonth) -> bool {
        self.year < o.year || (self.year == o.year && self.month <= o.month)
    }
}

/// Four digits, a dash, two digits.
pub open spec fn ym_shape(b: Seq<u8>) -> bool {
    b.len() == 7 && is_digit(b[0]) && is_digit(b[1]) && is_digit(b[2]) && is_digit(b[3])
        && b[4] == 45 && is_digit(b[5]) && is_digit(b[6])
}

pub open spec fn parse_monthly_spec(s: Seq<char>) -> Result<YearMonth, ParseError> {
    let b = ascii_bytes(s);
    if !is_ascii_chars(s) || !ym_shape(b) {
        Err(ParseError::BadFormat)
    } else if !(1 <= digits_value(b, 5, 7) <= 12) {
        Err(ParseError::OutOfRange)
    } else {
        Ok(YearMonth { year: digits_value(b, 0, 4) as u32, month: digits_value(b, 5, 7) as u32 })
    }
}

pub open spec fn digit_byte(d: int) -> u8 {
    (d + 48) as u8
}

/// "YYYY-MM" of a month.
pub open spec fn ym_bytes(p: YearMonth) -> Seq<u8> {
    let y = p.year as int;
    let m = p.month as int;
    seq![digit_byte(y / 1000), digit_byte((y / 100) % 10), digit_byte((y / 10) % 10),
        digit_byte(y % 10), 45u8, digit_byte(m / 10), digit_byte(m % 10)]
}

/// "YYYY-Mmm" of a month: the wire token.
pub open spec fn wire_bytes(p: YearMonth) -> Seq<u8> {
    let y = p.year as int;
    let m = p.month as int;
    seq![digit_byte(y / 1000), digit_byte((y / 100) % 10), digit_byte((y / 10) % 10),
        digit_byte(y % 10), 45u8, 77u8, digit_byte(m / 10), digit_byte(m % 10)]
}

/// A wire token "YYYY-Mmm" (any four leading bytes, two digits) shown as
/// "YYYY-mm"; any other text is kept as it is.
pub open spec fn wire_to_ym_spec(s: Seq<char>) -> Seq<char> {
    let b = encode_utf8(s);
    if b.len() == 8 && b[4] == 45 && b[5] == 77 && is_digit(b[6]) && is_digit(b[7]) {
        decode_utf8(b.subrange(0, 4)) + seq!['-', b[6] as char, b[7] as char]
    } else {
        s
    }
}

/// Index of the first '-', or the length without one.
pub open spec fn first_dash(b: Seq<u8>) -> int
    decreases b.len(),
{
    if b.len() == 0 || b[0] == 45 {
        0
    } else {
        1 + first_dash(b.drop_first())
    }
}

pub open spec fn all_digits_in(b: Seq<u8>, lo: int, hi: int) -> bool {
    forall|i: int| lo <= i < hi ==> #[trigger] is_digit(b[i])
}

/// Where the year's digits start: after an optional '+'.
pub open spec fn year_start(b: Seq<u8>) -> int {
    if first_dash(b) > 0 && b[0] == 43 { 1 } else { 0 }
}

/// A character of the Unicode White_Space property.
pub open spec fn is_white_space(c: char) -> bool {
    ('\u{9}' <= c <= '\u{d}') || c == ' ' || c == '\u{85}' || c == '\u{a0}' || c == '\u{1680}' || (
    '\u{2000}' <= c <= '\u{200a}') || c == '\u{2028}' || c == '\u{2029}' || c == '\u{202f}' || c
        == '\u{205f}' || c == '\u{3000}'
}

pub open spec fn trim_start_spec(s: Seq<char>) -> Seq<char>
    decreases s.len(),
{
    if s.len() > 0 && is_white_space(s[0]) {
        trim_start_spec(s.drop_first())
    } else {
        s
    }
}

pub open spec fn trim_end_spec(s: Seq<char>) -> Seq<char>
    decreases s.len(),
{
    if s.len() > 0 && is_white_space(s.last()) {
        trim_end_spec(s.drop_last())
    } else {
        s
    }
}

/// `s` without leading and trailing white space.
pub open spec fn trimmed(s: Seq<char>) -> Seq<char> {
    trim_end_spec(trim_start_spec(s))
}

/// Relies on `str::trim`: leading and trailing characters of the Unicode
/// White_Space property removed.
#[verifier::external_body]
fn trim(s: &str) -> (r: &str)
    ensures
        r@ == trimmed(s@),
{
    s.trim()
}

/// A year, optionally followed by '-' and anything, with white space around
/// the text ignored.
pub open spec fn parse_year_loose_spec(s: Seq<char>) -> Result<i32, ParseError> {
    year_text_spec(trimmed(s))
}

/// A year, optionally followed by '-' and anything.
pub open spec fn year_text_spec(s: Seq<char>) -> Result<i32, ParseError> {
    let b = ascii_bytes(s);
    let lo = year_start(b);
    let hi = first_dash(b);
    if !is_ascii_chars(s) || hi <= lo || !all_digits_in(b, lo, hi) {
        Err(ParseError::BadFormat)
    } else if !(1800 <= digits_value(b, lo, hi) <= 3000) {
        Err(ParseError::OutOfRange)
    } else {
        Ok(digits_value(b, lo, hi) as i32)
    }
}

/// Relies on chrono's `NaiveDate::from_ymd_opt`: the first day of any month
/// 1..=12 of a year in 0..=9999 is a date it can hold.
#[verifier::external_body]
fn month_exists(year: i32, month: u32) -> (r: bool)
    ensures
        0 <= year <= 9999 && 1 <= month <= 12 ==> r,
{
    chrono::NaiveDate::from_ymd_opt(year, month, 1).is_some()
}

proof fn lemma_digits4(b: Seq<u8>, lo: int)
    requires
        0 <= lo,
        lo + 4 <= b.len(),
        is_digit(b[lo]) && is_digit(b[lo + 1]) && is_digit(b[lo + 2]) && is_digit(b[lo + 3]),
    ensures
        digits_value(b, lo, lo + 4) == (b[lo] - 48) * 1000 + (b[lo + 1] - 48) * 100
            + (b[lo + 2] - 48) * 10 + (b[lo + 3] - 48),
{
    reveal_with_fuel(digits_value, 5);
    assert(digits_value(b, lo, lo) == 0);
    assert(digits_value(b, lo, lo + 1) == (b[lo] - 48));
    assert(digits_value(b, lo, lo + 2) == (b[lo] - 48) * 10 + (b[lo + 1] - 48));
    assert(digits_value(b, lo, lo + 3) == ((b[lo] - 48) * 10 + (b[lo + 1] - 48)) * 10 + (b[lo + 2]
        - 48));
}

proof fn lemma_digits2(b: Seq<u8>, lo: int)
    requires
        0 <= lo,
        lo + 2 <= b.len(),
        is_digit(b[lo]) && is_digit(b[lo + 1]),
    ensures
        digits_value(b, lo, lo + 2) == (b[lo] - 48) * 10 + (b[lo + 1] - 48),
{
    reveal_with_fuel(digits_value, 3);
    assert(digits_value(b, lo, lo + 1) == (b[lo] - 48));
}

/// Reads a "YYYY-MM" text.
pub fn parse_monthly(text: &str) -> (r: Result<YearMonth, ParseError>)
    ensures
        r == parse_monthly_spec(text@),
        r is Ok ==> r->Ok_0.wf(),
{
    if !text.is_ascii() {
        return Err(ParseError::BadFormat);
    }
    let b = text.as_bytes();
    proof {
        assert(b@ =~= ascii_bytes(text@));
    }
    if b.len() != 7 || !(48 <= b[0] && b[0] <= 57) || !(48 <= b[1] && b[1] <= 57)
        || !(48 <= b[2] && b[2] <= 57) || !(48 <= b[3] && b[3] <= 57) || b[4] != 45
        || !(48 <= b[5] && b[5] <= 57) || !(48 <= b[6] && b[6] <= 57) {
        return Err(ParseError::BadFormat);
    }
    let year: u32 = (b[0] - 48) as u32 * 1000 + (b[1] - 48) as u32 * 100 + (b[2] - 48) as u32 * 10
        + (b[3] - 48) as u32;
    let month: u32 = (b[5] - 48) as u32 * 10 + (b[6] - 48) as u32;
    proof {
        lemma_digits4(b@, 0);
        lemma_digits2(b@, 5);
    }
    if month < 1 || month > 12 {
        return Err(ParseError::OutOfRange);
    }
    if !month_exists(year as i32, month) {
        return Err(ParseError::BadFormat);
    }
    Ok(YearMonth { year, month })
}

proof fn lemma_first_dash(b: Seq<u8>, k: int)
    requires
        0 <= k <= b.len(),
        forall|j: int| 0 <= j < k ==> b[j] != 45,
        k == b.len() || b[k] == 45,
    ensures
        first_dash(b) == k,
    decreases k,
{
    if k > 0 {
        lemma_first_dash(b.drop_first(), k - 1);
    }
}

/// Reads a year from "YYYY" or "YYYY-..." (what follows the first '-' is
/// ignored), with white space around the text ignored.
pub fn parse_year_loose(text: &str) -> (r: Result<i32, ParseError>)
    ensures
        r == parse_year_loose_spec(text@),
{
    parse_year_text(trim(text))
}

fn parse_year_text(text: &str) -> (r: Result<i32, ParseError>)
    ensures
        r == year_text_spec(text@),
{
    if !text.is_ascii() {
        return Err(ParseError::BadFormat);
    }
    let b = text.as_bytes();
    proof {
        assert(b@ =~= ascii_bytes(text@));
    }
    let mut hi: usize = 0;
    while hi < b.len() && b[hi] != 45
        invariant
            0 <= hi <= b.len(),
            forall|j: int| 0 <= j < hi ==> b@[j] != 45,
        decreases b.len() - hi,
    {
        hi = hi + 1;
    }
    proof {
        lemma_first_dash(b@, hi as int);
    }
    let lo: usize = if hi > 0 && b[0] == 43 { 1 } else { 0 };
    if hi <= lo {
        return Err(ParseError::BadFormat);
    }
    let mut i: usize = lo;
    let mut v: u32 = 0;
    while i < hi
        invariant
            lo <= i <= hi <= b.len(),
            b@ == ascii_bytes(text@),
            is_ascii_chars(text@),
            first_dash(b@) == hi as int,
            year_start(b@) == lo as int,
            all_digits_in(b@, lo as int, i as int),
            (v < 10000 && v == digits_value(b@, lo as int, i as int)) || (v == 10000
                && digits_value(b@, lo as int, i as int) >= 10000),
        decreases hi - i,
    {
        let c = b[i];
        if c < 48 || c > 57 {
            assert(!is_digit(b@[i as int]));
            return Err(ParseError::BadFormat);
        }
        if v >= 1000 {
            v = 10000;
        } else {
            v = v * 10 + (c - 48) as u32;
        }
        i = i + 1;
    }
    if v < 1800 || v > 3000 {
        return Err(ParseError::OutOfRange);
    }
    Ok(v as i32)
}

fn digit_of(d: u32) -> (r: u8)
    requires
        d < 10,
    ensures
        r == digit_byte(d as int),
        r < 128,
{
    (d + 48) as u8
}

/// The wire token "YYYY-Mmm" of a month.
pub fn to_wire_period(p: YearMonth) -> (r: String)
    requires
        p.wf(),
    ensures
        r@ == ascii_chars(wire_bytes(p)),
{
    let mut v: Vec<u8> = Vec::new();
    v.push(digit_of(p.year / 1000));
    v.push(digit_of((p.year / 100) % 10));
    v.push(digit_of((p.year / 10) % 10));
    v.push(digit_of(p.year % 10));
    v.push(45);
    v.push(77);
    v.push(digit_of(p.month / 10));
    v.push(digit_of(p.month % 10));
    assert(v@ =~= wire_bytes(p));
    ascii_string(v)
}

/// The entry text "YYYY-MM" of a month.
pub fn format_ym(p: YearMonth) -> (r: String)
    requires
        p.wf(),
    ensures
        r@ == ascii_chars(ym_bytes(p)),
{
    let mut v: Vec<u8> = Vec::new();
    v.push(digit_of(p.year / 1000));
    v.push(digit_of((p.year / 100) % 10));
    v.push(digit_of((p.year / 10) % 10));
    v.push(digit_of(p.year % 10));
    v.push(45);
    v.push(digit_of(p.month / 10));
    v.push(digit_of(p.month % 10));
    assert(v@ =~= ym_bytes(p));
    ascii_string(v)
}

/// Turns an entry text "YYYY-MM" into its wire token "YYYY-Mmm".
pub fn ym_to_sdmx_period(ym: &str) -> (r: Result<String, ParseError>)
    ensures
        match parse_monthly_spec(ym@) {
            Ok(p) => r is Ok && r->Ok_0@ == ascii_chars(wire_bytes(p)),
            Err(e) => r == Err::<String, ParseError>(e),
        },
{
    match parse_monthly(ym) {
        Ok(p) => Ok(to_wire_period(p)),
        Err(e) => Err(e),
    }
}

/// Shows a wire token "YYYY-Mmm" as "YYYY-mm"; other text comes back as it is.
pub fn sdmx_period_to_ym(p: &str) -> (r: String)
    ensures
        r@ == wire_to_ym_spec(p@),
{
    let b = p.as_bytes();
    if b.len() == 8 && b[4] == 45 && b[5] == 77 && 48 <= b[6] && b[6] <= 57 && 48 <= b[7]
        && b[7] <= 57 {
        proof {
            vstd::utf8::encode_utf8_valid_utf8(p@);
            vstd::utf8::is_char_boundary_iff_not_is_continuation_byte(b@, 4);
        }
        let (head, _) = p.split_at(4);
        proof {
            vstd::utf8::encode_utf8_decode_utf8(head@);
        }
        let mut v: Vec<u8> = Vec::new();
        v.push(45);
        v.push(b[6]);
        v.push(b[7]);
        let tail = ascii_string(v);
        assert(tail@ =~= seq!['-', b@[6] as char, b@[7] as char]);
        concat(head, tail.as_str())
    } else {
        p.to_owned()
    }
}

/// The requested end, or the current month where the request lies after it:
/// data for months to come has not been released.
pub fn clamp_end_to_today(end: YearMonth, today: YearMonth) -> (r: YearMonth)
    ensures
        r == (if end.before_eq(today) { end } else { today }),
{
    if end.year < today.year || (end.year == today.year && end.month <= today.month) {
        end
    } else {
        today
    }
}

/// The end month of a monthly request: the requested end (the current month
/// where none is given), clamped to the current month; it may not come
/// before the start.
pub fn resolve_monthly_end(start: YearMonth, end: Option<YearMonth>, today: YearMonth) -> (r:
    Result<YearMonth, RangeError>)
    ensures
        ({
            let e = match end {
                Some(x) => if x.before_eq(today) { x } else { today },
                None => today,
            };
            r == if start.before_eq(e) { Ok::<YearMonth, RangeError>(e) } else { Err(RangeError::EndBeforeStart) }
        }),
{
    let e = match end {
        Some(x) => clamp_end_to_today(x, today),
        None => today,
    };
    if start.year < e.year || (start.year == e.year && start.month <= e.month) {
        Ok(e)
    } else {
        Err(RangeError::EndBeforeStart)
    }
}

/// The end year of a yearly request: the requested end (the current year
/// where none is given), clamped to the current year; it may not come before
/// the start.
pub fn resolve_yearly_end(start: i32, end: Option<i32>, current: i32) -> (r: Result<i32, RangeError>)
    ensures
        ({
            let e = match end {
                Some(x) => if x <= current { x } else { current },
                None => current,
            };
            r == if start <= e { Ok::<i32, RangeError>(e) } else { Err(RangeError::EndBeforeStart) }
        }),
{
    let e = match end {
        Some(x) => if x <= current { x } else { current },
        None => current,
    };
    if start <= e {
        Ok(e)
    } else {
        Err(RangeError::EndBeforeStart)
    }
}

proof fn lemma_ascii_round_trip(b: Seq<u8>)
    requires
        all_ascii(b),
    ensures
        ascii_bytes(ascii_chars(b)) == b,
        is_ascii_chars(ascii_chars(b)),
{
    assert(ascii_bytes(ascii_chars(b)) =~= b);
}

proof fn lemma_split4(a: int, b: int, c: int, d: int)
    requires
        0 <= a <= 9 && 0 <= b <= 9 && 0 <= c <= 9 && 0 <= d <= 9,
    ensures
        ({
            let y = a * 1000 + b * 100 + c * 10 + d;
            y / 1000 == a && (y / 100) % 10 == b && (y / 10) % 10 == c && y % 10 == d
        }),
{
    let y = a * 1000 + b * 100 + c * 10 + d;
    assert(y / 1000 == a) by (nonlinear_arith)
        requires y == a * 1000 + (b * 100 + c * 10 + d), 0 <= b * 100 + c * 10 + d < 1000;
    assert(y / 100 == a * 10 + b) by (nonlinear_arith)
        requires y == (a * 10 + b) * 100 + (c * 10 + d), 0 <= c * 10 + d < 100;
    assert(y / 10 == a * 100 + b * 10 + c) by (nonlinear_arith)
        requires y == (a * 100 + b * 10 + c) * 10 + d, 0 <= d < 10;
}

proof fn lemma_ascii_chars_of(s: Seq<char>)
    requires
        is_ascii_chars(s),
    ensures
        all_ascii(ascii_bytes(s)),
        ascii_chars(ascii_bytes(s)) == s,
{
    assert forall|i: int| 0 <= i < s.len() implies (s[i] as u8) as char == s[i] && (s[i] as u8) < 128 by {
        assert(s[i] <= '\u{7f}');
    }
    assert(ascii_chars(ascii_bytes(s)) =~= s);
}

/// Every valid "YYYY-MM" text gives a month whose wire token, shown again as
/// "YYYY-MM" and read back, is the same text and the same month.
pub proof fn lemma_monthly_round_trip(s: Seq<char>)
    requires
        parse_monthly_spec(s) is Ok,
    ensures
        ({
            let p = parse_monthly_spec(s)->Ok_0;
            &&& p.wf()
            &&& wire_to_ym_spec(ascii_chars(wire_bytes(p))) == s
            &&& parse_monthly_spec(wire_to_ym_spec(ascii_chars(wire_bytes(p)))) == Ok::<YearMonth, ParseError>(p)
        }),
{
    let b = ascii_bytes(s);
    let p = parse_monthly_spec(s)->Ok_0;
    lemma_digits4(b, 0);
    lemma_digits2(b, 5);
    lemma_split4(b[0] - 48, b[1] - 48, b[2] - 48, b[3] - 48);
    let w = wire_bytes(p);
    assert(w[0] == b[0] && w[1] == b[1] && w[2] == b[2] && w[3] == b[3]);
    assert(w[6] == b[5] && w[7] == b[6]);
    assert(all_ascii(w));
    lemma_ascii_round_trip(w);
    lemma_ascii_encode(w);
    let h = w.subrange(0, 4);
    assert(all_ascii(h));
    lemma_ascii_encode(h);
    vstd::utf8::encode_utf8_decode_utf8(ascii_chars(h));
    assert(decode_utf8(h) == ascii_chars(h));
    lemma_ascii_chars_of(s);
    assert(ascii_chars(h) + seq!['-', w[6] as char, w[7] as char] =~= ascii_chars(b));
}

} // verus!
