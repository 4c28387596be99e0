//! Numeric attribute values: decimal text with an optional sign, fraction and
//! exponent, or a case-insensitive "inf", "infinity" or "nan" with an
//! optional sign.

use vstd::prelude::*;
use crate::text::is_digit;

verus! {

/// Index after the run of digits that starts at `i`.
pub open spec fn run_end(b: Seq<u8>, i: int) -> int
    decreases b.len() - i,
{
    if 0 <= i < b.len() && is_digit(b[i]) {
        run_end(b, i + 1)
    } else {
        i
    }
}

pub open spec fn lower(x: u8) -> u8 {
    if 65 <= x <= 90 { (x + 32) as u8 } else { x }
}

/// The text from `i` on is `w`, ignoring ASCII case.
pub open spec fn word_at(b: Seq<u8>, i: int, w: Seq<u8>) -> bool {
    b.len() - i == w.len() && forall|k: int| 0 <= k < w.len() ==> lower(#[trigger] b[i + k]) == w[k]
}

pub open spec fn sign_end(b: Seq<u8>) -> int {
    if b.len() > 0 && (b[0] == 43 || b[0] == 45) { 1 } else { 0 }
}

pub open spec fn nan_word() -> Seq<u8> {
    seq![110u8, 97u8, 110u8]
}

pub open spec fn inf_word() -> Seq<u8> {
    seq![105u8, 110u8, 102u8]
}

pub open spec fn infinity_word() -> Seq<u8> {
    seq![105u8, 110u8, 102u8, 105u8, 110u8, 105u8, 116u8, 121u8]
}

pub open spec fn is_infinite(b: Seq<u8>) -> bool {
    word_at(b, sign_end(b), inf_word()) || word_at(b, sign_end(b), infinity_word())
}

pub open spec fn is_nan(b: Seq<u8>) -> bool {
    word_at(b, sign_end(b), nan_word())
}

/// Index after the integer digits.
pub open spec fn int_end(b: Seq<u8>) -> int {
    run_end(b, sign_end(b))
}

pub open spec fn has_point(b: Seq<u8>) -> bool {
    int_end(b) < b.len() && b[int_end(b)] == 46
}

/// Index after the digits, point included.
pub open spec fn mant_end(b: Seq<u8>) -> int {
    if has_point(b) { run_end(b, int_end(b) + 1) } else { int_end(b) }
}

/// The mantissa holds at least one digit.
pub open spec fn has_mant_digit(b: Seq<u8>) -> bool {
    int_end(b) > sign_end(b) || (has_point(b) && mant_end(b) > int_end(b) + 1)
}

/// An exponent "e" or "E", an optional sign and at least one digit, up to the end.
pub open spec fn exponent_from(b: Seq<u8>, i: int) -> bool {
    let j = if i + 1 < b.len() && (b[i + 1] == 43 || b[i + 1] == 45) { i + 2 } else { i + 1 };
    0 <= i < b.len() && (b[i] == 101 || b[i] == 69) && run_end(b, j) > j && run_end(b, j) == b.len()
}

pub open spec fn is_numeric(b: Seq<u8>) -> bool {
    is_infinite(b) || is_nan(b) || (has_mant_digit(b) && (mant_end(b) == b.len() || exponent_from(
        b,
        mant_end(b),
    )))
}

pub open spec fn has_nonzero(b: Seq<u8>, lo: int, hi: int) -> bool {
    exists|k: int| lo <= k < hi && 49 <= #[trigger] b[k] <= 57
}

/// A number whose value is above zero: no minus sign, not NaN, and infinite
/// or with a non-zero digit.
pub open spec fn is_positive(b: Seq<u8>) -> bool {
    is_numeric(b) && !(b.len() > 0 && b[0] == 45) && !is_nan(b) && (is_infinite(b) || has_nonzero(
        b,
        sign_end(b),
        mant_end(b),
    ))
}

fn scan_digits(b: &[u8], i: usize) -> (r: usize)
    requires
        i <= b.len(),
    ensures
        r as int == run_end(b@, i as int),
        i <= r <= b.len(),
{
    let mut j = i;
    while j < b.len() && 48 <= b[j] && b[j] <= 57
        invariant
            i <= j <= b.len(),
            run_end(b@, i as int) == run_end(b@, j as int),
        decreases b.len() - j,
    {
        j = j + 1;
    }
    j
}

fn lower_of(x: u8) -> (r: u8)
    ensures
        r == lower(x),
{
    if 65 <= x && x <= 90 { x + 32 } else { x }
}

fn word_at_exec(b: &[u8], i: usize, w: &[u8]) -> (r: bool)
    requires
        i <= b.len(),
    ensures
        r == word_at(b@, i as int, w@),
{
    if b.len() - i != w.len() {
        return false;
    }
    let mut k: usize = 0;
    while k < w.len()
        invariant
            b.len() - i == w.len(),
            k <= w.len(),
            forall|t: int| 0 <= t < k ==> lower(#[trigger] b@[i + t]) == w@[t],
        decreases w.len() - k,
    {
        if lower_of(b[i + k]) != w[k] {
            return false;
        }
        k = k + 1;
    }
    true
}

fn nonzero_in(b: &[u8], lo: usize, hi: usize) -> (r: bool)
    requires
        lo <= hi <= b.len(),
    ensures
        r == has_nonzero(b@, lo as int, hi as int),
{
    let mut k = lo;
    while k < hi
        invariant
            lo <= k <= hi,
            hi <= b.len(),
            forall|t: int| lo <= t < k ==> !(49 <= #[trigger] b@[t] <= 57),
        decreases hi - k,
    {
        if 49 <= b[k] && b[k] <= 57 {
            return true;
        }
        k = k + 1;
    }
    false
}

/// `None` where the text is no number; otherwise whether its value is above zero.
pub fn check_number(b: &[u8]) -> (r: Option<bool>)
    ensures
        r == (if is_numeric(b@) { Some(is_positive(b@)) } else { None::<bool> }),
{
    let s: usize = if b.len() > 0 && (b[0] == 43 || b[0] == 45) { 1 } else { 0 };
    let minus = b.len() > 0 && b[0] == 45;
    let nan: [u8; 3] = [110, 97, 110];
    let inf: [u8; 3] = [105, 110, 102];
    let infinity: [u8; 8] = [105, 110, 102, 105, 110, 105, 116, 121];
    assert(nan@ == nan_word());
    assert(inf@ == inf_word());
    assert(infinity@ == infinity_word());
    if word_at_exec(b, s, nan.as_slice()) {
        return Some(false);
    }
    if word_at_exec(b, s, inf.as_slice()) || word_at_exec(b, s, infinity.as_slice()) {
        return Some(!minus);
    }
    let ie = scan_digits(b, s);
    let point = ie < b.len() && b[ie] == 46;
    let me = if point { scan_digits(b, ie + 1) } else { ie };
    let digits = ie > s || (point && me > ie + 1);
    if !digits {
        return None;
    }
    if me < b.len() {
        if !(b[me] == 101 || b[me] == 69) {
            return None;
        }
        let j = if me + 1 < b.len() && (b[me + 1] == 43 || b[me + 1] == 45) { me + 2 } else { me + 1 };
        let je = scan_digits(b, j);
        if !(je > j && je == b.len()) {
            return None;
        }
    }
    Some(!minus && nonzero_in(b, s, me))
}

} // verus!
