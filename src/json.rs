//! JSON documents as the library reads them.

use vstd::prelude::*;
use serde_json::Value;

verus! {

/// A JSON value as the library reads it: a string, a number as its text, an
/// object with its members in order, or anything else.
#[derive(Debug)]
pub enum Json {
    Str(String),
    Num(String),
    Obj(Vec<(String, Json)>),
    Other,
}

#[verifier::external_type_specification]
#[verifier::external_body]
pub struct ExValue(serde_json::Value);

/// Relies on `serde_json::Value`'s variants, `Number`'s text and `Map::iter`:
/// a value in the library's form.
#[verifier::external_body]
fn json_from(v: &Value) -> Json {
    match v {
        Value::String(s) => Json::Str(s.clone()),
        Value::Number(n) => Json::Num(n.to_string()),
        Value::Object(m) => Json::Obj(m.iter().map(|(k, x)| (k.clone(), json_from(x))).collect()),
        _ => Json::Other,
    }
}

/// What `serde_json::from_slice` reads from a document; `None` where the
/// bytes are no JSON document.
pub uninterp spec fn json_of(doc: Seq<u8>) -> Option<Json>;

/// Relies on `serde_json::from_slice`: the value depends on the bytes alone.
#[verifier::external_body]
pub(crate) fn parse_json(doc: &[u8]) -> (r: Option<Json>)
    ensures
        r == json_of(doc@),
{
    serde_json::from_slice::<Value>(doc).ok().map(|v| json_from(&v))
}

/// The first member named `key`.
pub open spec fn member_spec(m: Seq<(String, Json)>, key: Seq<char>) -> Option<Json>
    decreases m.len(),
{
    if m.len() == 0 {
        None
    } else if m[0].0@ == key {
        Some(m[0].1)
    } else {
        member_spec(m.drop_first(), key)
    }
}

/// The member named `key` of an object.
pub open spec fn get_spec(j: Json, key: Seq<char>) -> Option<Json> {
    match j {
        Json::Obj(m) => member_spec(m@, key),
        _ => None,
    }
}

pub(crate) fn get<'a>(j: &'a Json, key: &String) -> (r: Option<&'a Json>)
    ensures
        match r {
            Some(x) => get_spec(*j, key@) == Some(*x),
            None => get_spec(*j, key@) is None,
        },
{
    match j {
        Json::Obj(m) => {
            let mut i: usize = 0;
            assert(m@.subrange(0, m.len() as int) =~= m@);
            while i < m.len()
                invariant
                    i <= m.len(),
                    get_spec(*j, key@) == member_spec(m@, key@),
                    member_spec(m@, key@) == member_spec(m@.subrange(i as int, m.len() as int), key@),
                decreases m.len() - i,
            {
                proof {
                    assert(m@.subrange(i as int, m.len() as int).drop_first() =~= m@.subrange(i + 1, m.len() as int));
                }
                if m[i].0 == *key {
                    assert(m@.subrange(i as int, m.len() as int)[0] == m@[i as int]);
                    return Some(&m[i].1);
                }
                i = i + 1;
            }
            None
        },
        _ => None,
    }
}

} // verus!
