//! Cache keys for each query, and the read-first, write-through decisions of
//! the on-disk cache. The caller performs each step and reports what came of it.

use vstd::prelude::*;
use crate::text::{ascii_chars, ascii_string, concat};
use crate::series::{year_bytes, year_string, lemma_year_digits_order};
use crate::period::{YearMonth, digit_byte};

verus! {

/// "YYYYMmm": a month in a cache key.
pub open spec fn month_key(p: YearMonth) -> Seq<char> {
    let y = p.year as int;
    let m = p.month as int;
    ascii_chars(seq![digit_byte(y / 1000), digit_byte((y / 100) % 10), digit_byte((y / 10) % 10),
        digit_byte(y % 10), 77u8, digit_byte(m / 10), digit_byte(m % 10)])
}

pub open spec fn sdmx_key_spec(area: Seq<char>, start: YearMonth, end: YearMonth) -> Seq<char> {
    "sdmx_cpi_xml_"@ + area + "_CPI__T_IX_M_"@ + month_key(start) + "_"@ + month_key(end) + ".xml"@
}

pub open spec fn datamapper_key_spec(area: Seq<char>, start: int, end: int) -> Seq<char> {
    "dm_PCPIPCH_"@ + area + "_"@ + ascii_chars(year_bytes(start)) + "_"@ + ascii_chars(year_bytes(end)) + ".json"@
}

/// The series key of the monthly all-items index level of an area:
/// "AREA.CPI._T.IX.M".
pub fn sdmx_series_key(area: &str) -> (r: String)
    ensures
        r@ == area@ + ".CPI._T.IX.M"@,
{
    concat(area, ".CPI._T.IX.M")
}

fn month_key_string(p: YearMonth) -> (r: String)
    requires
        p.wf(),
    ensures
        r@ == month_key(p),
{
    let mut v: Vec<u8> = Vec::new();
    v.push(((p.year / 1000) + 48) as u8);
    v.push((((p.year / 100) % 10) + 48) as u8);
    v.push((((p.year / 10) % 10) + 48) as u8);
    v.push(((p.year % 10) + 48) as u8);
    v.push(77);
    v.push(((p.month / 10) + 48) as u8);
    v.push(((p.month % 10) + 48) as u8);
    let ghost y = p.year as int;
    let ghost m = p.month as int;
    assert(v@ =~= seq![digit_byte(y / 1000), digit_byte((y / 100) % 10), digit_byte((y / 10) % 10),
        digit_byte(y % 10), 77u8, digit_byte(m / 10), digit_byte(m % 10)]);
    ascii_string(v)
}

/// "sdmx_cpi_xml_{area}_CPI__T_IX_M_{YYYYMmm}_{YYYYMmm}.xml": the cache file
/// of the index levels of an area over a range of months.
pub fn sdmx_cache_key(area: &str, start: YearMonth, end: YearMonth) -> (r: String)
    requires
        start.wf(),
        end.wf(),
    ensures
        r@ == sdmx_key_spec(area@, start, end),
{
    let s = month_key_string(start);
    let e = month_key_string(end);
    let r = concat("sdmx_cpi_xml_", area);
    let r = concat(r.as_str(), "_CPI__T_IX_M_");
    let r = concat(r.as_str(), s.as_str());
    let r = concat(r.as_str(), "_");
    let r = concat(r.as_str(), e.as_str());
    concat(r.as_str(), ".xml")
}

/// "dm_PCPIPCH_{area}_{start}_{end}.json": the cache file of the annual rates
/// of an area over a range of years.
pub fn datamapper_cache_key(area: &str, start_year: i32, end_year: i32) -> (r: String)
    requires
        1000 <= start_year <= 9999,
        1000 <= end_year <= 9999,
    ensures
        r@ == datamapper_key_spec(area@, start_year as int, end_year as int),
{
    let s = year_string(start_year);
    let e = year_string(end_year);
    let r = concat("dm_PCPIPCH_", area);
    let r = concat(r.as_str(), "_");
    let r = concat(r.as_str(), s.as_str());
    let r = concat(r.as_str(), "_");
    let r = concat(r.as_str(), e.as_str());
    concat(r.as_str(), ".json")
}

proof fn lemma_digit_chars(a: int, b: int)
    requires
        0 <= a <= 9,
        0 <= b <= 9,
        digit_byte(a) as char == digit_byte(b) as char,
    ensures
        a == b,
{
}

/// Distinct index-level queries (area, start, end) have distinct cache keys.
pub proof fn lemma_sdmx_keys_distinct(a1: Seq<char>, s1: YearMonth, e1: YearMonth, a2: Seq<char>, s2: YearMonth, e2: YearMonth)
    requires
        s1.wf(),
        e1.wf(),
        s2.wf(),
        e2.wf(),
        sdmx_key_spec(a1, s1, e1) == sdmx_key_spec(a2, s2, e2),
    ensures
        a1 == a2 && s1 == s2 && e1 == e2,
{
    reveal_strlit("sdmx_cpi_xml_");
    reveal_strlit("_CPI__T_IX_M_");
    reveal_strlit("_");
    reveal_strlit(".xml");
    let k1 = sdmx_key_spec(a1, s1, e1);
    let k2 = sdmx_key_spec(a2, s2, e2);
    assert("sdmx_cpi_xml_"@.len() == 13 && "_CPI__T_IX_M_"@.len() == 13 && "_"@.len() == 1 && ".xml"@.len() == 4);
    assert(month_key(s1).len() == 7 && month_key(s2).len() == 7 && month_key(e1).len() == 7 && month_key(e2).len() == 7);
    assert(k1.len() == a1.len() + 45 && k2.len() == a2.len() + 45);
    assert(a1.len() == a2.len());
    assert(a1 =~= k1.subrange(13, 13 + a1.len() as int));
    assert(a2 =~= k2.subrange(13, 13 + a2.len() as int));
    let o = 13 + a1.len() as int + 13;
    assert forall|i: int| 0 <= i < 7 implies month_key(s1)[i] == month_key(s2)[i] by {
        assert(k1[o + i] == month_key(s1)[i]);
        assert(k2[o + i] == month_key(s2)[i]);
    }
    assert forall|i: int| 0 <= i < 7 implies month_key(e1)[i] == month_key(e2)[i] by {
        assert(k1[o + 8 + i] == month_key(e1)[i]);
        assert(k2[o + 8 + i] == month_key(e2)[i]);
    }
    lemma_month_key_injective(s1, s2);
    lemma_month_key_injective(e1, e2);
}

proof fn lemma_month_key_injective(p: YearMonth, q: YearMonth)
    requires
        p.wf(),
        q.wf(),
        forall|i: int| 0 <= i < 7 ==> month_key(p)[i] == month_key(q)[i],
    ensures
        p == q,
{
    let (y, z) = (p.year as int, q.year as int);
    let (m, n) = (p.month as int, q.month as int);
    assert(month_key(p)[0] == month_key(q)[0]);
    assert(month_key(p)[1] == month_key(q)[1]);
    assert(month_key(p)[2] == month_key(q)[2]);
    assert(month_key(p)[3] == month_key(q)[3]);
    assert(month_key(p)[5] == month_key(q)[5]);
    assert(month_key(p)[6] == month_key(q)[6]);
    lemma_digit_chars(y / 1000, z / 1000);
    lemma_digit_chars((y / 100) % 10, (z / 100) % 10);
    lemma_digit_chars((y / 10) % 10, (z / 10) % 10);
    lemma_digit_chars(y % 10, z % 10);
    lemma_digit_chars(m / 10, n / 10);
    lemma_digit_chars(m % 10, n % 10);
    lemma_year_digits_order(y, z);
    lemma_year_digits_order(m, n);
}

/// Distinct annual-rate queries (area, start year, end year) have distinct
/// cache keys.
pub proof fn lemma_datamapper_keys_distinct(a1: Seq<char>, s1: int, e1: int, a2: Seq<char>, s2: int, e2: int)
    requires
        1000 <= s1 <= 9999 && 1000 <= e1 <= 9999,
        1000 <= s2 <= 9999 && 1000 <= e2 <= 9999,
        datamapper_key_spec(a1, s1, e1) == datamapper_key_spec(a2, s2, e2),
    ensures
        a1 == a2 && s1 == s2 && e1 == e2,
{
    reveal_strlit("dm_PCPIPCH_");
    reveal_strlit("_");
    reveal_strlit(".json");
    let k1 = datamapper_key_spec(a1, s1, e1);
    let k2 = datamapper_key_spec(a2, s2, e2);
    assert("dm_PCPIPCH_"@.len() == 11 && "_"@.len() == 1 && ".json"@.len() == 5);
    assert(ascii_chars(year_bytes(s1)).len() == 4 && ascii_chars(year_bytes(s2)).len() == 4);
    assert(ascii_chars(year_bytes(e1)).len() == 4 && ascii_chars(year_bytes(e2)).len() == 4);
    assert(k1.len() == a1.len() + 26 && k2.len() == a2.len() + 26);
    assert(a1.len() == a2.len());
    assert(a1 =~= k1.subrange(11, 11 + a1.len() as int));
    assert(a2 =~= k2.subrange(11, 11 + a2.len() as int));
    let o = 11 + a1.len() as int + 1;
    assert forall|i: int| 0 <= i < 4 implies #[trigger] year_bytes(s1)[i] as char == year_bytes(s2)[i] as char by {
        assert(k1[o + i] == ascii_chars(year_bytes(s1))[i]);
        assert(k2[o + i] == ascii_chars(year_bytes(s2))[i]);
    }
    assert forall|i: int| 0 <= i < 4 implies #[trigger] year_bytes(e1)[i] as char == year_bytes(e2)[i] as char by {
        assert(k1[o + 5 + i] == ascii_chars(year_bytes(e1))[i]);
        assert(k2[o + 5 + i] == ascii_chars(year_bytes(e2))[i]);
    }
    lemma_year_bytes_injective(s1, s2);
    lemma_year_bytes_injective(e1, e2);
}

proof fn lemma_year_bytes_injective(y: int, z: int)
    requires
        1000 <= y <= 9999,
        1000 <= z <= 9999,
        forall|i: int| 0 <= i < 4 ==> #[trigger] year_bytes(y)[i] as char == year_bytes(z)[i] as char,
    ensures
        y == z,
{
    assert(year_bytes(y)[0] as char == year_bytes(z)[0] as char);
    assert(year_bytes(y)[1] as char == year_bytes(z)[1] as char);
    assert(year_bytes(y)[2] as char == year_bytes(z)[2] as char);
    assert(year_bytes(y)[3] as char == year_bytes(z)[3] as char);
    lemma_digit_chars(y / 1000, z / 1000);
    lemma_digit_chars((y / 100) % 10, (z / 100) % 10);
    lemma_digit_chars((y / 10) % 10, (z / 10) % 10);
    lemma_digit_chars(y % 10, z % 10);
    lemma_year_digits_order(y, z);
}

/// What the caller does next.
#[derive(Debug, Clone, PartialEq, Eq)]
pub enum CacheStep<B> {
    /// Read the entry under the key.
    Read,
    /// Fetch the payload from its source.
    Fetch,
    /// Write these bytes under the key (a failure is ignored).
    Store(B),
    /// Hand these bytes back: done.
    Done(B),
}

/// What came of the previous step.
#[derive(Debug, Clone, PartialEq, Eq)]
pub enum CacheEvent<B> {
    Begin,
    ReadHit(B),
    ReadMiss,
    Fetched(B),
    /// The write was tried, with or without success.
    Stored(B),
}

pub open spec fn cache_step_spec<B>(enabled: bool, ev: CacheEvent<B>) -> CacheStep<B> {
    match ev {
        CacheEvent::Begin => if enabled { CacheStep::Read } else { CacheStep::Fetch },
        CacheEvent::ReadHit(b) => CacheStep::Done(b),
        CacheEvent::ReadMiss => CacheStep::Fetch,
        CacheEvent::Fetched(b) => if enabled { CacheStep::Store(b) } else { CacheStep::Done(b) },
        CacheEvent::Stored(b) => CacheStep::Done(b),
    }
}

/// The next step of `get_or_fetch`: with the cache on, read first, hand a hit
/// back unchanged, and write a fetched payload before handing it back; with
/// the cache off, fetch.
pub fn cache_next(enabled: bool, ev: CacheEvent<Vec<u8>>) -> (r: CacheStep<Vec<u8>>)
    ensures
        r == cache_step_spec(enabled, ev),
{
    match ev {
        CacheEvent::Begin => if enabled { CacheStep::Read } else { CacheStep::Fetch },
        CacheEvent::ReadHit(b) => CacheStep::Done(b),
        CacheEvent::ReadMiss => CacheStep::Fetch,
        CacheEvent::Fetched(b) => if enabled { CacheStep::Store(b) } else { CacheStep::Done(b) },
        CacheEvent::Stored(b) => CacheStep::Done(b),
    }
}

/// The steps of one `get_or_fetch` against a store `disk`, where a fetch gives
/// `fetched` and a write succeeds where `write_ok`: the store after, the
/// bytes handed back, and the number of fetches.
pub open spec fn cache_run(
    disk: Map<Seq<char>, Seq<u8>>,
    key: Seq<char>,
    enabled: bool,
    fetched: Seq<u8>,
    write_ok: bool,
    step: CacheStep<Seq<u8>>,
    fuel: nat,
) -> (Map<Seq<char>, Seq<u8>>, Seq<u8>, nat)
    decreases fuel,
{
    if fuel == 0 {
        (disk, Seq::empty(), 0)
    } else {
        match step {
            CacheStep::Read => if disk.contains_key(key) {
                cache_run(disk, key, enabled, fetched, write_ok, cache_step_spec(enabled, CacheEvent::ReadHit(disk[key])), (fuel - 1) as nat)
            } else {
                cache_run(disk, key, enabled, fetched, write_ok, cache_step_spec(enabled, CacheEvent::ReadMiss), (fuel - 1) as nat)
            },
            CacheStep::Fetch => {
                let (d, r, n) = cache_run(disk, key, enabled, fetched, write_ok, cache_step_spec(enabled, CacheEvent::Fetched(fetched)), (fuel - 1) as nat);
                (d, r, n + 1)
            },
            CacheStep::Store(b) => {
                let d = if write_ok { disk.insert(key, b) } else { disk };
                cache_run(d, key, enabled, fetched, write_ok, cache_step_spec(enabled, CacheEvent::Stored(b)), (fuel - 1) as nat)
            },
            CacheStep::Done(b) => (disk, b, 0),
        }
    }
}

/// One whole `get_or_fetch`, from its first step.
pub open spec fn get_or_fetch(
    disk: Map<Seq<char>, Seq<u8>>,
    key: Seq<char>,
    enabled: bool,
    fetched: Seq<u8>,
    write_ok: bool,
) -> (Map<Seq<char>, Seq<u8>>, Seq<u8>, nat) {
    cache_run(disk, key, enabled, fetched, write_ok, cache_step_spec(enabled, CacheEvent::<Seq<u8>>::Begin), 4)
}

/// With the cache on, two `get_or_fetch` calls on one key fetch at most once,
/// where the first call's write succeeds, and the second hands back what the
/// first did.
pub proof fn lemma_fetch_at_most_once(
    disk: Map<Seq<char>, Seq<u8>>,
    key: Seq<char>,
    first: Seq<u8>,
    second: Seq<u8>,
    second_write_ok: bool,
)
    ensures
        ({
            let (d1, r1, n1) = get_or_fetch(disk, key, true, first, true);
            let (d2, r2, n2) = get_or_fetch(d1, key, true, second, second_write_ok);
            n1 + n2 <= 1 && r2 == r1 && d2 == d1
        }),
{
    reveal_with_fuel(cache_run, 5);
}

/// With the cache off, every `get_or_fetch` fetches once and leaves the store
/// as it was.
pub proof fn lemma_disabled_always_fetches(
    disk: Map<Seq<char>, Seq<u8>>,
    key: Seq<char>,
    fetched: Seq<u8>,
    write_ok: bool,
)
    ensures
        get_or_fetch(disk, key, false, fetched, write_ok) == (disk, fetched, 1nat),
{
    reveal_with_fuel(cache_run, 5);
}

} // verus!
