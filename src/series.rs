//! Series resolution: the observation at or after a requested start and the
//! latest one, under the text order of period tokens; and the years of a
//! chain of annual rates.

use vstd::prelude::*;
use vstd::string::*;
use vstd::utf8::encode_utf8;
use crate::extract::Observation;
use crate::json::{Json, json_of, parse_json, get, get_spec};
use crate::number::{is_positive, check_number};
use crate::text::{ascii_chars, ascii_string};
use crate::period::{digit_byte, YearMonth, wire_bytes};
use vstd::utf8::is_ascii_chars_encode_utf8;

verus! {

/// Byte-wise lexicographic order: the order of `str`.
pub open spec fn lex_lt(a: Seq<u8>, b: Seq<u8>) -> bool
    decreases a.len(),
{
    if a.len() == 0 {
        b.len() > 0
    } else if b.len() == 0 {
        false
    } else if a[0] != b[0] {
        a[0] < b[0]
    } else {
        lex_lt(a.drop_first(), b.drop_first())
    }
}

pub proof fn lemma_lex_irreflexive(a: Seq<u8>)
    ensures
        !lex_lt(a, a),
    decreases a.len(),
{
    if a.len() > 0 {
        lemma_lex_irreflexive(a.drop_first());
    }
}

pub proof fn lemma_lex_total(a: Seq<u8>, b: Seq<u8>)
    ensures
        lex_lt(a, b) || lex_lt(b, a) || a == b,
        !(lex_lt(a, b) && lex_lt(b, a)),
    decreases a.len(),
{
    if a.len() > 0 && b.len() > 0 {
        lemma_lex_total(a.drop_first(), b.drop_first());
        if a[0] == b[0] && a.drop_first() == b.drop_first() {
            assert(a =~= seq![a[0]] + a.drop_first());
            assert(b =~= seq![b[0]] + b.drop_first());
        }
    } else if a.len() == 0 && b.len() == 0 {
        assert(a =~= b);
    }
}

pub proof fn lemma_lex_trans(a: Seq<u8>, b: Seq<u8>, c: Seq<u8>)
    requires
        lex_lt(a, b),
        lex_lt(b, c),
    ensures
        lex_lt(a, c),
    decreases a.len(),
{
    if a.len() > 0 && b.len() > 0 && c.len() > 0 && a[0] == b[0] && b[0] == c[0] {
        lemma_lex_trans(a.drop_first(), b.drop_first(), c.drop_first());
    }
}

/// Whether `a` comes before `b` in byte order.
pub fn bytes_lt(a: &[u8], b: &[u8]) -> (r: bool)
    ensures
        r == lex_lt(a@, b@),
{
    let mut i: usize = 0;
    assert(a@.subrange(0, a.len() as int) =~= a@);
    assert(b@.subrange(0, b.len() as int) =~= b@);
    while i < a.len() && i < b.len() && a[i] == b[i]
        invariant
            i <= a.len(),
            i <= b.len(),
            lex_lt(a@, b@) == lex_lt(a@.subrange(i as int, a.len() as int), b@.subrange(i as int, b.len() as int)),
        decreases a.len() - i,
    {
        proof {
            let sa = a@.subrange(i as int, a.len() as int);
            let sb = b@.subrange(i as int, b.len() as int);
            assert(sa.drop_first() =~= a@.subrange(i + 1, a.len() as int));
            assert(sb.drop_first() =~= b@.subrange(i + 1, b.len() as int));
        }
        i = i + 1;
    }
    if i < a.len() && i < b.len() {
        a[i] < b[i]
    } else {
        i < b.len()
    }
}

/// The bytes of the period token of observation `j`.
pub open spec fn tok(o: Seq<Observation>, j: int) -> Seq<u8> {
    encode_utf8(o[j].period@)
}

/// The value of observation `j` is above zero.
pub open spec fn value_pos(o: Seq<Observation>, j: int) -> bool {
    is_positive(encode_utf8(o[j].value@))
}

/// `k` is the first observation, in token order, at or after `s` (the earliest
/// in the sequence among equal tokens).
pub open spec fn is_start_pick(o: Seq<Observation>, s: Seq<u8>, k: int) -> bool {
    &&& 0 <= k < o.len()
    &&& !lex_lt(tok(o, k), s)
    &&& forall|j: int|
        0 <= j < o.len() && j != k && !lex_lt(#[trigger] tok(o, j), s) ==> lex_lt(tok(o, k), tok(o, j))
            || (tok(o, j) == tok(o, k) && k < j)
}

/// `l` is the last observation in token order (the latest in the sequence
/// among equal tokens).
pub open spec fn is_latest_pick(o: Seq<Observation>, l: int) -> bool {
    &&& 0 <= l < o.len()
    &&& forall|j: int|
        0 <= j < o.len() && j != l ==> lex_lt(#[trigger] tok(o, j), tok(o, l)) || (tok(o, j) == tok(
            o,
            l,
        ) && j < l)
}

/// Why no start and latest observation could be chosen.
#[derive(Clone, Copy, Debug, PartialEq, Eq, Structural)]
pub enum ResolveError {
    /// There are no observations.
    NoData,
    /// No observation is at or after the requested start.
    NothingAtStart,
    /// A chosen value is not above zero.
    NonPositive,
}

/// The start observation (the first at or after `start_token` in token order)
/// and the latest one (the last in token order), as indices.
pub fn pick_start_and_latest(obs: &Vec<Observation>, start_token: &str) -> (r: Result<(usize, usize), ResolveError>)
    ensures
        match r {
            Ok((k, l)) => is_start_pick(obs@, start_token.spec_bytes(), k as int) && is_latest_pick(obs@, l as int)
                && value_pos(obs@, k as int) && value_pos(obs@, l as int),
            Err(ResolveError::NoData) => obs.len() == 0,
            Err(ResolveError::NothingAtStart) => obs.len() > 0 && forall|j: int|
                0 <= j < obs.len() ==> lex_lt(#[trigger] tok(obs@, j), start_token.spec_bytes()),
            Err(ResolveError::NonPositive) => exists|k: int, l: int|
                is_start_pick(obs@, start_token.spec_bytes(), k) && is_latest_pick(obs@, l) && !(value_pos(obs@, k)
                    && value_pos(obs@, l)),
        },
{
    if obs.len() == 0 {
        return Err(ResolveError::NoData);
    }
    let s = start_token.as_bytes();
    let ghost sb = start_token.spec_bytes();
    let mut found = false;
    let mut k: usize = 0;
    let mut l: usize = 0;
    let mut i: usize = 0;
    while i < obs.len()
        invariant
            0 < obs.len(),
            i <= obs.len(),
            s@ == sb,
            l < obs.len(),
            i > 0 ==> l < i,
            i > 0 ==> forall|j: int|
                0 <= j < i && j != l ==> lex_lt(#[trigger] tok(obs@, j), tok(obs@, l as int)) || (tok(obs@, j)
                    == tok(obs@, l as int) && j < l),
            found ==> k < i && !lex_lt(tok(obs@, k as int), sb),
            found ==> forall|j: int|
                0 <= j < i && j != k && !lex_lt(#[trigger] tok(obs@, j), sb) ==> lex_lt(tok(obs@, k as int), tok(obs@, j))
                    || (tok(obs@, j) == tok(obs@, k as int) && k < j),
            !found ==> forall|j: int| 0 <= j < i ==> lex_lt(#[trigger] tok(obs@, j), sb),
        decreases obs.len() - i,
    {
        let t = obs[i].period.as_str().as_bytes();
        assert(t@ == tok(obs@, i as int));
        proof {
            lemma_lex_total(tok(obs@, i as int), sb);
            if found {
                lemma_lex_total(tok(obs@, i as int), tok(obs@, k as int));
            }
            if i > 0 {
                lemma_lex_total(tok(obs@, i as int), tok(obs@, l as int));
            }
        }
        if !bytes_lt(t, s) {
            if !found || bytes_lt(t, obs[k].period.as_str().as_bytes()) {
                proof {
                    if found {
                        assert forall|j: int|
                            0 <= j < i + 1 && j != i && !lex_lt(#[trigger] tok(obs@, j), sb) implies lex_lt(
                                tok(obs@, i as int),
                                tok(obs@, j),
                            ) || (tok(obs@, j) == tok(obs@, i as int) && i < j) by {
                            if j != k {
                                if lex_lt(tok(obs@, k as int), tok(obs@, j)) {
                                    lemma_lex_trans(tok(obs@, i as int), tok(obs@, k as int), tok(obs@, j));
                                }
                            }
                        }
                    }
                }
                k = i;
                found = true;
            }
        }
        if i == 0 || !bytes_lt(t, obs[l].period.as_str().as_bytes()) {
            proof {
                if i > 0 {
                    assert forall|j: int|
                        0 <= j < i + 1 && j != i implies lex_lt(#[trigger] tok(obs@, j), tok(obs@, i as int)) || (tok(obs@, j)
                            == tok(obs@, i as int) && j < i) by {
                        if j != l && lex_lt(tok(obs@, j), tok(obs@, l as int)) && tok(obs@, l as int) != tok(obs@, i as int) {
                            lemma_lex_trans(tok(obs@, j), tok(obs@, l as int), tok(obs@, i as int));
                        }
                    }
                }
            }
            l = i;
        }
        i = i + 1;
    }
    if !found {
        return Err(ResolveError::NothingAtStart);
    }
    let pk = check_number(obs[k].value.as_str().as_bytes());
    let pl = check_number(obs[l].value.as_str().as_bytes());
    assert(is_start_pick(obs@, sb, k as int));
    assert(is_latest_pick(obs@, l as int));
    if pk != Some(true) || pl != Some(true) {
        assert(!(value_pos(obs@, k as int) && value_pos(obs@, l as int)));
        return Err(ResolveError::NonPositive);
    }
    Ok((k, l))
}

/// The four digits of a year in 1000..=9999.
pub open spec fn year_bytes(y: int) -> Seq<u8> {
    seq![digit_byte(y / 1000), digit_byte((y / 100) % 10), digit_byte((y / 10) % 10), digit_byte(y % 10)]
}

/// The decimal text of a year in 1000..=9999.
pub fn year_string(y: i32) -> (r: String)
    requires
        1000 <= y <= 9999,
    ensures
        r@ == ascii_chars(year_bytes(y as int)),
{
    let u = y as u32;
    let mut v: Vec<u8> = Vec::new();
    v.push(((u / 1000) + 48) as u8);
    v.push((((u / 100) % 10) + 48) as u8);
    v.push((((u / 10) % 10) + 48) as u8);
    v.push(((u % 10) + 48) as u8);
    assert(v@ =~= year_bytes(y as int));
    ascii_string(v)
}

/// The first of the first `n` keys that reads `t`.
pub open spec fn first_key(keys: Seq<String>, t: Seq<char>, n: int) -> Option<int>
    decreases n,
{
    if n <= 0 {
        None
    } else {
        match first_key(keys, t, n - 1) {
            Some(j) => Some(j),
            None => if keys[n - 1]@ == t { Some(n - 1) } else { None },
        }
    }
}

/// The years from `start` to `y`, ascending, that have a key, each with the
/// index of its key.
pub open spec fn chain_spec(keys: Seq<String>, start: int, y: int) -> Seq<(int, int)>
    decreases y - start + 1,
{
    if y < start {
        Seq::empty()
    } else {
        chain_spec(keys, start, y - 1) + match first_key(keys, ascii_chars(year_bytes(y)), keys.len() as int) {
            Some(j) => seq![(y, j)],
            None => Seq::empty(),
        }
    }
}

/// The years of a chain of annual rates that have data, ascending, each with
/// the index of its rate, and the latest of them.
#[derive(Debug, Clone)]
pub struct YearlyChain {
    pub latest_year: i32,
    pub picks: Vec<(i32, usize)>,
}

/// No year of the range has data.
#[derive(Clone, Copy, Debug, PartialEq, Eq, Structural)]
pub enum ChainError {
    NoData,
}

fn find_key(keys: &Vec<String>, t: &String) -> (r: Option<usize>)
    ensures
        match r {
            Some(j) => first_key(keys@, t@, keys.len() as int) == Some(j as int),
            None => first_key(keys@, t@, keys.len() as int) is None,
        },
{
    let mut i: usize = 0;
    while i < keys.len()
        invariant
            i <= keys.len(),
            first_key(keys@, t@, i as int) is None,
        decreases keys.len() - i,
    {
        if keys[i] == *t {
            proof {
                lemma_first_key_stays(keys@, t@, i + 1, keys.len() as int);
            }
            return Some(i);
        }
        i = i + 1;
    }
    None
}

proof fn lemma_first_key_stays(keys: Seq<String>, t: Seq<char>, m: int, n: int)
    requires
        0 <= m <= n,
        first_key(keys, t, m) is Some,
    ensures
        first_key(keys, t, n) == first_key(keys, t, m),
    decreases n - m,
{
    if n > m {
        lemma_first_key_stays(keys, t, m, n - 1);
    }
}

/// For each year from `start_year` to `end_year` (both included), the rate
/// whose key is that year's decimal text, where there is one; years without
/// one are skipped. `keys` are the years of the series that hold a number.
pub fn collect_yearly_chain(start_year: i32, end_year: i32, keys: &Vec<String>) -> (r: Result<YearlyChain, ChainError>)
    requires
        1000 <= start_year,
        end_year <= 9999,
    ensures
        ({
            let c = chain_spec(keys@, start_year as int, end_year as int);
            match r {
                Ok(ch) => c.len() > 0 && ch.picks@.map_values(|p: (i32, usize)| (p.0 as int, p.1 as int)) == c
                    && ch.latest_year as int == c.last().0,
                Err(_) => c.len() == 0,
            }
        }),
{
    let mut picks: Vec<(i32, usize)> = Vec::new();
    let mut y: i32 = start_year;
    if end_year < start_year {
        return Err(ChainError::NoData);
    }
    while y <= end_year
        invariant
            1000 <= start_year <= y <= end_year + 1,
            end_year <= 9999,
            picks@.map_values(|p: (i32, usize)| (p.0 as int, p.1 as int)) == chain_spec(keys@, start_year as int, y - 1),
        decreases end_year + 1 - y,
    {
        let ghost before = picks@;
        let ghost prev = chain_spec(keys@, start_year as int, y - 1);
        let t = year_string(y);
        match find_key(keys, &t) {
            Some(j) => {
                picks.push((y, j));
                assert(picks@.map_values(|p: (i32, usize)| (p.0 as int, p.1 as int)) =~= prev + seq![(y as int, j as int)]);
                assert(first_key(keys@, ascii_chars(year_bytes(y as int)), keys.len() as int) == Some(j as int));
                assert(chain_spec(keys@, start_year as int, y as int) == prev + seq![(y as int, j as int)]);
            },
            None => {
                assert(picks@ =~= before);
                assert(prev + Seq::<(int, int)>::empty() =~= prev);
                assert(first_key(keys@, ascii_chars(year_bytes(y as int)), keys.len() as int) is None);
                assert(chain_spec(keys@, start_year as int, y as int) == prev);
            },
        }
        y = y + 1;
    }
    let n = picks.len();
    if n == 0 {
        return Err(ChainError::NoData);
    }
    let latest = picks[n - 1].0;
    proof {
        let m = picks@.map_values(|p: (i32, usize)| (p.0 as int, p.1 as int));
        assert(m[n - 1] == (picks@[n - 1].0 as int, picks@[n - 1].1 as int));
    }
    Ok(YearlyChain { latest_year: latest, picks })
}

proof fn lemma_lex_at(a: Seq<u8>, b: Seq<u8>, i: int)
    requires
        a.len() == b.len(),
        0 <= i < a.len(),
    ensures
        lex_lt(a.subrange(i, a.len() as int), b.subrange(i, b.len() as int)) == (a[i] < b[i] || (a[i]
            == b[i] && lex_lt(a.subrange(i + 1, a.len() as int), b.subrange(i + 1, b.len() as int)))),
{
    assert(a.subrange(i, a.len() as int).drop_first() =~= a.subrange(i + 1, a.len() as int));
    assert(b.subrange(i, b.len() as int).drop_first() =~= b.subrange(i + 1, b.len() as int));
}

proof fn lemma_decompose(y: int)
    requires
        0 <= y <= 9999,
    ensures
        y == 1000 * (y / 1000) + 100 * ((y / 100) % 10) + 10 * ((y / 10) % 10) + y % 10,
        0 <= y / 1000 <= 9,
        0 <= (y / 100) % 10 <= 9,
        0 <= (y / 10) % 10 <= 9,
        0 <= y % 10 <= 9,
{
    assert(y / 10 == 10 * (y / 100) + (y / 10) % 10);
    assert(y / 100 == 10 * (y / 1000) + (y / 100) % 10);
}

proof fn lemma_lex4(a: int, b: int, c: int, d: int, e: int, f: int, g: int, h: int)
    requires
        0 <= a <= 9 && 0 <= b <= 9 && 0 <= c <= 9 && 0 <= d <= 9,
        0 <= e <= 9 && 0 <= f <= 9 && 0 <= g <= 9 && 0 <= h <= 9,
    ensures
        (1000 * a + 100 * b + 10 * c + d < 1000 * e + 100 * f + 10 * g + h) == (a < e || (a == e && (b
            < f || (b == f && (c < g || (c == g && d < h)))))),
        (1000 * a + 100 * b + 10 * c + d == 1000 * e + 100 * f + 10 * g + h) == (a == e && b == f && c
            == g && d == h),
{
}

pub proof fn lemma_year_digits_order(y: int, z: int)
    requires
        0 <= y <= 9999,
        0 <= z <= 9999,
    ensures
        (y < z) == (y / 1000 < z / 1000 || (y / 1000 == z / 1000 && ((y / 100) % 10 < (z / 100) % 10 || (
        (y / 100) % 10 == (z / 100) % 10 && ((y / 10) % 10 < (z / 10) % 10 || ((y / 10) % 10 == (z / 10)
            % 10 && y % 10 < z % 10)))))),
        (y == z) == (y / 1000 == z / 1000 && (y / 100) % 10 == (z / 100) % 10 && (y / 10) % 10 == (z
            / 10) % 10 && y % 10 == z % 10),
{
    lemma_decompose(y);
    lemma_decompose(z);
    lemma_lex4(y / 1000, (y / 100) % 10, (y / 10) % 10, y % 10, z / 1000, (z / 100) % 10, (z / 10) % 10, z % 10);
}

/// Wire tokens of months compare as text exactly as the months compare in
/// time.
pub proof fn lemma_wire_order(p: YearMonth, q: YearMonth)
    requires
        p.wf(),
        q.wf(),
    ensures
        lex_lt(wire_bytes(p), wire_bytes(q)) == (p.year < q.year || (p.year == q.year && p.month < q.month)),
        encode_utf8(ascii_chars(wire_bytes(p))) == wire_bytes(p),
{
    let a = wire_bytes(p);
    let b = wire_bytes(q);
    assert(a.subrange(0, 8) =~= a);
    assert(b.subrange(0, 8) =~= b);
    lemma_lex_at(a, b, 0);
    lemma_lex_at(a, b, 1);
    lemma_lex_at(a, b, 2);
    lemma_lex_at(a, b, 3);
    lemma_lex_at(a, b, 4);
    lemma_lex_at(a, b, 5);
    lemma_lex_at(a, b, 6);
    lemma_lex_at(a, b, 7);
    assert(!lex_lt(a.subrange(8, 8), b.subrange(8, 8)));
    lemma_year_digits_order(p.year as int, q.year as int);
    lemma_year_digits_order(p.month as int, q.month as int);
    let c = ascii_chars(a);
    assert forall|i: int| 0 <= i < c.len() implies '\0' <= #[trigger] c[i] <= '\u{7f}' by {}
    is_ascii_chars_encode_utf8(c);
    assert(encode_utf8(c) =~= a);
}

/// Why a document of annual rates gave no series.
#[derive(Clone, Copy, Debug, PartialEq, Eq, Structural)]
pub enum RatesError {
    /// Not a JSON document.
    NotJson,
    /// The document has no "values" member.
    MissingValues,
    /// There is no object under "values", then the indicator, then the area.
    NoSeries,
}

/// The members of `m` that hold a number: key and number text, in order.
pub open spec fn numeric_members(m: Seq<(String, Json)>) -> Seq<(Seq<char>, Seq<char>)>
    decreases m.len(),
{
    if m.len() == 0 {
        Seq::empty()
    } else {
        numeric_members(m.drop_last()) + match m.last().1 {
            Json::Num(t) => seq![(m.last().0@, t@)],
            _ => Seq::empty(),
        }
    }
}

/// The numeric members of the object at "values", then `indicator`, then `area`.
pub open spec fn rates_spec(j: Json, indicator: Seq<char>, area: Seq<char>) -> Result<Seq<(Seq<char>, Seq<char>)>, RatesError> {
    match get_spec(j, "values"@) {
        None => Err(RatesError::MissingValues),
        Some(v) => match get_spec(v, indicator) {
            None => Err(RatesError::NoSeries),
            Some(x) => match get_spec(x, area) {
                Some(Json::Obj(m)) => Ok(numeric_members(m@)),
                _ => Err(RatesError::NoSeries),
            },
        },
    }
}

pub open spec fn pairs_view(v: Seq<(String, String)>) -> Seq<(Seq<char>, Seq<char>)> {
    v.map_values(|p: (String, String)| (p.0@, p.1@))
}

/// The annual rates of an area in a document
/// `{"values": {INDICATOR: {AREA: {"YYYY": number, ...}}}}`: each member that
/// holds a number, as its key and the number's text.
pub fn rates_from_json(doc: &[u8], indicator: &str, area: &str) -> (r: Result<Vec<(String, String)>, RatesError>)
    ensures
        match json_of(doc@) {
            None => r == Err::<Vec<(String, String)>, _>(RatesError::NotJson),
            Some(j) => match r {
                Ok(v) => rates_spec(j, indicator@, area@) == Ok::<_, RatesError>(pairs_view(v@)),
                Err(e) => rates_spec(j, indicator@, area@) == Err::<Seq<(Seq<char>, Seq<char>)>, _>(e),
            },
        },
{
    let json = match parse_json(doc) {
        Some(j) => j,
        None => {
            return Err(RatesError::NotJson);
        },
    };
    let vk = "values".to_owned();
    let ik = indicator.to_owned();
    let ak = area.to_owned();
    let values = match get(&json, &vk) {
        Some(v) => v,
        None => {
            return Err(RatesError::MissingValues);
        },
    };
    let per_area = match get(values, &ik) {
        Some(x) => x,
        None => {
            return Err(RatesError::NoSeries);
        },
    };
    let m = match get(per_area, &ak) {
        Some(Json::Obj(m)) => m,
        _ => {
            return Err(RatesError::NoSeries);
        },
    };
    let mut out: Vec<(String, String)> = Vec::new();
    let mut i: usize = 0;
    assert(pairs_view(out@) =~= numeric_members(m@.subrange(0, 0)));
    while i < m.len()
        invariant
            i <= m.len(),
            pairs_view(out@) == numeric_members(m@.subrange(0, i as int)),
        decreases m.len() - i,
    {
        let ghost before = pairs_view(out@);
        proof {
            assert(m@.subrange(0, i + 1).drop_last() =~= m@.subrange(0, i as int));
        }
        match &m[i].1 {
            Json::Num(t) => {
                out.push((m[i].0.clone(), t.clone()));
                assert(pairs_view(out@) =~= before + seq![(m@[i as int].0@, t@)]);
            },
            _ => {
                assert(before + Seq::<(Seq<char>, Seq<char>)>::empty() =~= before);
            },
        }
        i = i + 1;
    }
    assert(m@.subrange(0, i as int) =~= m@);
    Ok(out)
}

} // verus!
