//! Lists of entries for selection: labels with their fallback, and the order
//! by case-folded name in which they are offered.

use vstd::prelude::*;
use vstd::string::*;
use vstd::utf8::encode_utf8;
use crate::extract::{Item, items_view};
use crate::series::{lex_lt, bytes_lt, lemma_lex_total, lemma_lex_trans};
use crate::json::{Json, json_of, parse_json, get, get_spec};

verus! {

/// What `str::to_lowercase` makes of a text.
pub uninterp spec fn lower_of(s: Seq<char>) -> Seq<char>;

/// Relies on `str::to_lowercase`: the result depends on the characters alone.
#[verifier::external_body]
fn lowercase(s: &str) -> (r: String)
    ensures
        r@ == lower_of(s@),
{
    s.to_lowercase()
}

/// The bytes of each key.
pub open spec fn key_seq(keys: Seq<String>) -> Seq<Seq<u8>> {
    keys.map_values(|s: String| encode_utf8(s@))
}

/// `ord` lists each of `0..n` once.
pub open spec fn is_perm(ord: Seq<usize>, n: int) -> bool {
    &&& ord.len() == n
    &&& forall|i: int| 0 <= i < n ==> (#[trigger] ord[i]) < n
    &&& forall|i: int, j: int| 0 <= i < j < n ==> ord[i] != ord[j]
}

/// `ord` lists indices in key order, and indices of equal keys in their own
/// order.
pub open spec fn stably_sorted(ord: Seq<usize>, k: Seq<Seq<u8>>) -> bool {
    forall|i: int, j: int|
        0 <= i < j < ord.len() ==> lex_lt(k[ord[i] as int], k[ord[j] as int]) || (k[ord[i] as int]
            == k[ord[j] as int] && ord[i] < ord[j])
}

/// The order of `keys` by bytes, ties kept in their given order.
pub fn sort_order(keys: &Vec<String>) -> (r: Vec<usize>)
    ensures
        is_perm(r@, keys.len() as int),
        stably_sorted(r@, key_seq(keys@)),
{
    let ghost k = key_seq(keys@);
    let mut r: Vec<usize> = Vec::new();
    let mut i: usize = 0;
    while i < keys.len()
        invariant
            i <= keys.len(),
            k == key_seq(keys@),
            k.len() == keys.len(),
            is_perm(r@, i as int),
            stably_sorted(r@, k),
        decreases keys.len() - i,
    {
        let ki = keys[i].as_str().as_bytes();
        assert(ki@ == k[i as int]);
        let mut p: usize = 0;
        while p < r.len() && !bytes_lt(ki, keys[r[p]].as_str().as_bytes())
            invariant
                p <= r.len(),
                r.len() == i,
                i < keys.len(),
                ki@ == k[i as int],
                k == key_seq(keys@),
                k.len() == keys.len(),
                is_perm(r@, i as int),
                forall|q: int| 0 <= q < p ==> !lex_lt(k[i as int], #[trigger] k[r@[q] as int]),
            decreases r.len() - p,
        {
            p = p + 1;
        }
        proof {
            if p < r.len() {
                assert(lex_lt(k[i as int], k[r@[p as int] as int]));
                assert forall|q: int| p < q < r.len() implies lex_lt(k[i as int], #[trigger] k[r@[q] as int]) by {
                    if lex_lt(k[r@[p as int] as int], k[r@[q] as int]) {
                        lemma_lex_trans(k[i as int], k[r@[p as int] as int], k[r@[q] as int]);
                    }
                }
            }
        }
        let ghost old_r = r@;
        r.insert(p, i);
        proof {
            assert forall|a: int, b: int| 0 <= a < b < r@.len() implies lex_lt(k[r@[a] as int], k[r@[b] as int])
                || (k[r@[a] as int] == k[r@[b] as int] && r@[a] < r@[b]) by {
                if b == p {
                    lemma_lex_total(k[i as int], k[old_r[a] as int]);
                } else if a == p {
                    assert(r@[b] == old_r[b - 1]);
                } else {
                    let a0 = if a < p { a } else { a - 1 };
                    let b0 = if b < p { b } else { b - 1 };
                    assert(r@[a] == old_r[a0] && r@[b] == old_r[b0]);
                }
            }
            assert forall|a: int, b: int| 0 <= a < b < i + 1 implies r@[a] != r@[b] by {
                if a != p && b != p {
                    let a0 = if a < p { a } else { a - 1 };
                    let b0 = if b < p { b } else { b - 1 };
                    assert(r@[a] == old_r[a0] && r@[b] == old_r[b0]);
                } else if a == p {
                    assert(r@[b] == old_r[b - 1]);
                } else {
                    assert(r@[a] == old_r[a]);
                }
            }
            assert forall|a: int| 0 <= a < i + 1 implies (#[trigger] r@[a]) < i + 1 by {
                if a < p {
                    assert(r@[a] == old_r[a]);
                } else if a > p {
                    assert(r@[a] == old_r[a - 1]);
                }
            }
        }
        i = i + 1;
    }
    r
}

/// The bytes of each case-folded name.
pub open spec fn pair_keys(l: Seq<(Seq<char>, Seq<char>)>) -> Seq<Seq<u8>> {
    l.map_values(|p: (Seq<char>, Seq<char>)| encode_utf8(lower_of(p.1)))
}

/// `v` holds the entries `l` (code, name), stably ordered by case-folded name.
pub open spec fn sorted_by_name(v: Seq<Item>, l: Seq<(Seq<char>, Seq<char>)>) -> bool {
    exists|ord: Seq<usize>|
        is_perm(ord, l.len() as int) && stably_sorted(ord, pair_keys(l)) && v.len() == l.len()
            && forall|j: int| 0 <= j < v.len() ==> (#[trigger] v[j]).view() == l[ord[j] as int]
}

/// The entries ordered by case-folded name, ties kept in their given order.
pub fn sort_items_by_name(items: &Vec<Item>) -> (r: Vec<Item>)
    ensures
        sorted_by_name(r@, items_view(items@)),
{
    let mut keys: Vec<String> = Vec::new();
    let mut i: usize = 0;
    while i < items.len()
        invariant
            i <= items.len(),
            keys.len() == i,
            forall|j: int| 0 <= j < i ==> (#[trigger] keys@[j])@ == lower_of(items@[j].name@),
        decreases items.len() - i,
    {
        keys.push(lowercase(items[i].name.as_str()));
        i = i + 1;
    }
    assert(key_seq(keys@) =~= pair_keys(items_view(items@)));
    let ord = sort_order(&keys);
    let mut out: Vec<Item> = Vec::new();
    let mut j: usize = 0;
    while j < ord.len()
        invariant
            j <= ord.len(),
            ord.len() == items.len(),
            is_perm(ord@, items.len() as int),
            out.len() == j,
            forall|t: int| 0 <= t < j ==> (#[trigger] out@[t]).view() == items@[ord@[t] as int].view(),
        decreases ord.len() - j,
    {
        let it = &items[ord[j]];
        out.push(Item { code: it.code.clone(), name: it.name.clone() });
        j = j + 1;
    }
    assert(forall|t: int| 0 <= t < out.len() ==> (#[trigger] out@[t]).view() == items_view(items@)[ord@[t] as int]);
    out
}

/// The members of the "countries" object, or of the document itself where it
/// has no such member.
pub open spec fn country_members(j: Json) -> Option<Seq<(String, Json)>> {
    let o = match get_spec(j, "countries"@) {
        Some(c) => c,
        None => j,
    };
    match o {
        Json::Obj(m) => Some(m@),
        _ => None,
    }
}

/// A member's code and its "label" text, else the code.
pub open spec fn label_entry(e: (String, Json)) -> (Seq<char>, Seq<char>) {
    (e.0@, match get_spec(e.1, "label"@) {
        Some(Json::Str(s)) => s@,
        _ => e.0@,
    })
}

pub open spec fn labelled(m: Seq<(String, Json)>) -> Seq<(Seq<char>, Seq<char>)> {
    m.map_values(|e: (String, Json)| label_entry(e))
}

/// Why a country list document was refused.
#[derive(Clone, Copy, Debug, PartialEq, Eq, Structural)]
pub enum CountryListError {
    /// Not a JSON document.
    NotJson,
    /// Neither its "countries" member nor the document is an object.
    NotAnObject,
    /// The object has no member.
    EmptyList,
}

/// The entries of a country list `{"countries": {CODE: {"label": ...}}}` (or
/// of the inner object alone): each code with its label, else the code,
/// ordered by case-folded name.
pub fn countries_from_json(doc: &[u8]) -> (r: Result<Vec<Item>, CountryListError>)
    ensures
        match json_of(doc@) {
            None => r == Err::<Vec<Item>, _>(CountryListError::NotJson),
            Some(j) => match country_members(j) {
                None => r == Err::<Vec<Item>, _>(CountryListError::NotAnObject),
                Some(m) => if m.len() == 0 {
                    r == Err::<Vec<Item>, _>(CountryListError::EmptyList)
                } else {
                    r is Ok && sorted_by_name(r->Ok_0@, labelled(m))
                },
            },
        },
{
    let json = match parse_json(doc) {
        Some(j) => j,
        None => {
            return Err(CountryListError::NotJson);
        },
    };
    let ck = "countries".to_owned();
    let lk = "label".to_owned();
    let obj: &Json = match get(&json, &ck) {
        Some(c) => c,
        None => &json,
    };
    let m = match obj {
        Json::Obj(m) => m,
        _ => {
            return Err(CountryListError::NotAnObject);
        },
    };
    if m.len() == 0 {
        return Err(CountryListError::EmptyList);
    }
    let mut items: Vec<Item> = Vec::new();
    let mut i: usize = 0;
    while i < m.len()
        invariant
            i <= m.len(),
            lk@ == "label"@,
            items.len() == i,
            forall|t: int| 0 <= t < i ==> (#[trigger] items@[t]).view() == label_entry(m@[t]),
        decreases m.len() - i,
    {
        let name = match get(&m[i].1, &lk) {
            Some(Json::Str(s)) => s.clone(),
            _ => m[i].0.clone(),
        };
        items.push(Item { code: m[i].0.clone(), name });
        i = i + 1;
    }
    assert(items_view(items@) =~= labelled(m@));
    Ok(sort_items_by_name(&items))
}

} // verus!
