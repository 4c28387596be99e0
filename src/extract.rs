//! The two extraction modes over markup events: look-up entries (`Code` with
//! `Name`) and observations (`Obs` with `TIME_PERIOD` and `OBS_VALUE`).
//! Element and attribute names are matched on their local part, after the
//! last ':'.

use vstd::prelude::*;
use crate::xml::{Attr, XmlEvent, read_events, xml_events_of};
use crate::number::{is_numeric, is_positive, check_number};
use vstd::utf8::encode_utf8;
use vstd::string::*;

verus! {

/// Why a document gave no records.
#[derive(Clone, Copy, Debug, PartialEq, Eq, Structural)]
pub enum ExtractError {
    /// The document is not well-formed markup.
    Malformed,
    /// An attribute that the extraction reads is malformed, undecodable or,
    /// for a value, not a number; or character data that it reads is undecodable.
    BadAttribute,
    /// The document holds no usable record.
    NoRecords,
}

/// An identifier with its label.
#[derive(Debug, Clone)]
pub struct Item {
    pub code: String,
    pub name: String,
}

/// A period token and a strictly positive numeric value, as written.
#[derive(Debug, Clone)]
pub struct Observation {
    pub period: String,
    pub value: String,
}

impl Item {
    pub open spec fn view(self) -> (Seq<char>, Seq<char>) {
        (self.code@, self.name@)
    }
}

impl Observation {
    pub open spec fn view(self) -> (Seq<char>, Seq<char>) {
        (self.period@, self.value@)
    }
}

pub open spec fn items_view(v: Seq<Item>) -> Seq<(Seq<char>, Seq<char>)> {
    v.map_values(|i: Item| i.view())
}

pub open spec fn obs_view(v: Seq<Observation>) -> Seq<(Seq<char>, Seq<char>)> {
    v.map_values(|o: Observation| o.view())
}

/// The part of a name after its last ':'.
pub open spec fn local_name(n: Seq<u8>) -> Seq<u8>
    decreases n.len(),
{
    if n.len() == 0 {
        n
    } else if n.last() == 58 {
        Seq::<u8>::empty()
    } else {
        local_name(n.drop_last()).push(n.last())
    }
}

pub open spec fn code_tag() -> Seq<u8> {
    seq![67u8, 111u8, 100u8, 101u8]
}

pub open spec fn name_tag() -> Seq<u8> {
    seq![78u8, 97u8, 109u8, 101u8]
}

pub open spec fn id_key() -> Seq<u8> {
    seq![105u8, 100u8]
}

pub open spec fn lang_key() -> Seq<u8> {
    seq![108u8, 97u8, 110u8, 103u8]
}

pub open spec fn obs_tag() -> Seq<u8> {
    seq![79u8, 98u8, 115u8]
}

/// TIME_PERIOD
pub open spec fn period_key() -> Seq<u8> {
    seq![84u8, 73u8, 77u8, 69u8, 95u8, 80u8, 69u8, 82u8, 73u8, 79u8, 68u8]
}

/// OBS_VALUE
pub open spec fn value_key() -> Seq<u8> {
    seq![79u8, 66u8, 83u8, 95u8, 86u8, 65u8, 76u8, 85u8, 69u8]
}

/// Whether the local part of `n` is `want`.
fn local_is(n: &Vec<u8>, want: &[u8]) -> (r: bool)
    ensures
        r == (local_name(n@) == want@),
{
    let mut k: usize = n.len();
    proof {
        assert(n@.subrange(0, k as int) =~= n@);
        assert(local_name(n@) + n@.subrange(k as int, n.len() as int) =~= local_name(n@));
    }
    while k > 0 && n[k - 1] != 58
        invariant
            k <= n.len(),
            local_name(n@) == local_name(n@.subrange(0, k as int)) + n@.subrange(k as int, n.len() as int),
        decreases k,
    {
        proof {
            let s = n@.subrange(0, k as int);
            assert(s.drop_last() =~= n@.subrange(0, k - 1));
            assert(n@.subrange(k - 1, n.len() as int) =~= seq![s.last()] + n@.subrange(k as int, n.len() as int));
        }
        k = k - 1;
    }
    proof {
        if k > 0 {
            let s = n@.subrange(0, k as int);
            assert(s.last() == 58);
        }
        assert(local_name(n@) =~= n@.subrange(k as int, n.len() as int));
    }
    if n.len() - k != want.len() {
        return false;
    }
    let mut j: usize = 0;
    while j < want.len()
        invariant
            n.len() - k == want.len(),
            j <= want.len(),
            local_name(n@) == n@.subrange(k as int, n.len() as int),
            forall|t: int| 0 <= t < j ==> n@[k + t] == want@[t],
        decreases want.len() - j,
    {
        if n[k + j] != want[j] {
            return false;
        }
        j = j + 1;
    }
    proof {
        assert(local_name(n@) =~= want@);
    }
    true
}

pub open spec fn opt_view(o: Option<String>) -> Option<Seq<char>> {
    match o {
        Some(s) => Some(s@),
        None => None,
    }
}

/// Every attribute named `key` has a decoded value.
pub open spec fn attrs_ok(a: Seq<Attr>, key: Seq<u8>) -> bool {
    forall|i: int| 0 <= i < a.len() && local_name(#[trigger] a[i].key@) == key ==> a[i].value is Some
}

/// The value of the last attribute named `key`.
pub open spec fn last_value(a: Seq<Attr>, key: Seq<u8>) -> Option<Seq<char>>
    decreases a.len(),
{
    if a.len() == 0 {
        None
    } else if local_name(a.last().key@) == key {
        opt_view(a.last().value)
    } else {
        last_value(a.drop_last(), key)
    }
}

/// "en" in any ASCII case.
pub open spec fn is_en(v: Seq<char>) -> bool {
    v.len() == 2 && (v[0] == 'e' || v[0] == 'E') && (v[1] == 'n' || v[1] == 'N')
}

/// Some attribute named `lang` says "en".
pub open spec fn any_en(a: Seq<Attr>) -> bool {
    exists|i: int|
        0 <= i < a.len() && local_name(#[trigger] a[i].key@) == lang_key() && a[i].value is Some
            && is_en(a[i].value->Some_0@)
}

/// Every decoded value of an attribute named `OBS_VALUE` is a number.
pub open spec fn values_numeric(a: Seq<Attr>) -> bool {
    forall|i: int|
        0 <= i < a.len() && local_name(#[trigger] a[i].key@) == value_key() && a[i].value is Some
            ==> is_numeric(encode_utf8(a[i].value->Some_0@))
}

/// State of the look-up scan between two events.
pub struct ItemScan {
    pub in_code: bool,
    pub id: Option<Seq<char>>,
    pub name: Option<Seq<char>>,
    pub capture: bool,
    pub out: Seq<(Seq<char>, Seq<char>)>,
}

pub open spec fn item_scan_start() -> ItemScan {
    ItemScan { in_code: false, id: None, name: None, capture: false, out: Seq::empty() }
}

/// A `Code` opens an entry and takes its `id`; a `Name` inside it captures its
/// text where it is tagged English or no name was captured yet; the end of the
/// `Code` commits the entry, its name defaulting to its code.
pub open spec fn item_step(st: ItemScan, ev: XmlEvent) -> Result<ItemScan, ExtractError> {
    match ev {
        XmlEvent::Start(tag) => {
            if local_name(tag.name@) == code_tag() {
                match tag.attrs {
                    None => Err(ExtractError::BadAttribute),
                    Some(a) => if !attrs_ok(a@, id_key()) {
                        Err(ExtractError::BadAttribute)
                    } else {
                        Ok(ItemScan { in_code: true, id: last_value(a@, id_key()), name: None, ..st })
                    },
                }
            } else if st.in_code && local_name(tag.name@) == name_tag() {
                match tag.attrs {
                    None => Err(ExtractError::BadAttribute),
                    Some(a) => if !attrs_ok(a@, lang_key()) {
                        Err(ExtractError::BadAttribute)
                    } else {
                        Ok(ItemScan { capture: any_en(a@) || st.name is None, ..st })
                    },
                }
            } else {
                Ok(st)
            }
        },
        XmlEvent::Text(t) => {
            if st.in_code && st.capture {
                match t {
                    None => Err(ExtractError::BadAttribute),
                    Some(x) => Ok(ItemScan { name: Some(x@), ..st }),
                }
            } else {
                Ok(st)
            }
        },
        XmlEvent::End(n) => {
            let st1 = if local_name(n@) == name_tag() { ItemScan { capture: false, ..st } } else { st };
            if local_name(n@) == code_tag() && st1.in_code {
                match st1.id {
                    Some(id) => Ok(ItemScan {
                        in_code: false,
                        id: None,
                        name: None,
                        out: st1.out.push((id, match st1.name { Some(x) => x, None => id })),
                        ..st1
                    }),
                    None => Ok(ItemScan { in_code: false, ..st1 }),
                }
            } else {
                Ok(st1)
            }
        },
        _ => Ok(st),
    }
}

/// The look-up scan after the first `n` events.
pub open spec fn items_run(evs: Seq<XmlEvent>, n: int) -> Result<ItemScan, ExtractError>
    decreases n,
{
    if n <= 0 {
        Ok(item_scan_start())
    } else {
        match items_run(evs, n - 1) {
            Err(e) => Err(e),
            Ok(st) => item_step(st, evs[n - 1]),
        }
    }
}

/// The entries of a whole event sequence; none is an error.
pub open spec fn items_spec(evs: Seq<XmlEvent>) -> Result<Seq<(Seq<char>, Seq<char>)>, ExtractError> {
    match items_run(evs, evs.len() as int) {
        Err(e) => Err(e),
        Ok(st) => if st.out.len() == 0 { Err(ExtractError::NoRecords) } else { Ok(st.out) },
    }
}

/// An `Obs` (opening or self-closing) gives a record where it has a
/// `TIME_PERIOD` and an `OBS_VALUE` above zero.
pub open spec fn obs_step(out: Seq<(Seq<char>, Seq<char>)>, ev: XmlEvent) -> Result<
    Seq<(Seq<char>, Seq<char>)>,
    ExtractError,
> {
    let tag = match ev {
        XmlEvent::Start(t) => Some(t),
        XmlEvent::Empty(t) => Some(t),
        _ => None,
    };
    match tag {
        Some(t) => if local_name(t.name@) != obs_tag() {
            Ok(out)
        } else {
            match t.attrs {
                None => Err(ExtractError::BadAttribute),
                Some(a) => if !attrs_ok(a@, period_key()) || !attrs_ok(a@, value_key())
                    || !values_numeric(a@) {
                    Err(ExtractError::BadAttribute)
                } else {
                    match (last_value(a@, period_key()), last_value(a@, value_key())) {
                        (Some(p), Some(v)) => if is_positive(encode_utf8(v)) {
                            Ok(out.push((p, v)))
                        } else {
                            Ok(out)
                        },
                        _ => Ok(out),
                    }
                },
            }
        },
        None => Ok(out),
    }
}

pub open spec fn obs_run(evs: Seq<XmlEvent>, n: int) -> Result<Seq<(Seq<char>, Seq<char>)>, ExtractError>
    decreases n,
{
    if n <= 0 {
        Ok(Seq::empty())
    } else {
        match obs_run(evs, n - 1) {
            Err(e) => Err(e),
            Ok(out) => obs_step(out, evs[n - 1]),
        }
    }
}

/// The observations of a whole event sequence; none is an error.
pub open spec fn obs_spec(evs: Seq<XmlEvent>) -> Result<Seq<(Seq<char>, Seq<char>)>, ExtractError> {
    match obs_run(evs, evs.len() as int) {
        Err(e) => Err(e),
        Ok(out) => if out.len() == 0 { Err(ExtractError::NoRecords) } else { Ok(out) },
    }
}

proof fn lemma_items_fail(evs: Seq<XmlEvent>, i: int, n: int)
    requires
        0 <= i <= n <= evs.len(),
        items_run(evs, i) is Err,
    ensures
        items_run(evs, n) == items_run(evs, i),
    decreases n - i,
{
    if n > i {
        lemma_items_fail(evs, i, n - 1);
    }
}

proof fn lemma_obs_fail(evs: Seq<XmlEvent>, i: int, n: int)
    requires
        0 <= i <= n <= evs.len(),
        obs_run(evs, i) is Err,
    ensures
        obs_run(evs, n) == obs_run(evs, i),
    decreases n - i,
{
    if n > i {
        lemma_obs_fail(evs, i, n - 1);
    }
}

/// The value of the last attribute named `key`; `Err` where one has no value.
fn last_attr(a: &Vec<Attr>, key: &[u8]) -> (r: Result<Option<String>, ()>)
    ensures
        r is Ok <==> attrs_ok(a@, key@),
        r is Ok ==> opt_view(r->Ok_0) == last_value(a@, key@),
{
    let mut found: Option<String> = None;
    let mut i: usize = 0;
    while i < a.len()
        invariant
            i <= a.len(),
            attrs_ok(a@.subrange(0, i as int), key@),
            opt_view(found) == last_value(a@.subrange(0, i as int), key@),
        decreases a.len() - i,
    {
        proof {
            assert(a@.subrange(0, i + 1).drop_last() =~= a@.subrange(0, i as int));
        }
        if local_is(&a[i].key, key) {
            match &a[i].value {
                None => {
                    assert(!attrs_ok(a@, key@));
                    return Err(());
                },
                Some(v) => {
                    found = Some(v.clone());
                },
            }
        }
        i = i + 1;
        proof {
            assert(attrs_ok(a@.subrange(0, i as int), key@));
        }
    }
    assert(a@.subrange(0, i as int) =~= a@);
    Ok(found)
}

/// Whether a value is "en" in any ASCII case.
fn is_english(v: &str) -> (r: bool)
    ensures
        r == is_en(v@),
{
    if !v.is_ascii() {
        return false;
    }
    let b = v.as_bytes();
    proof {
        vstd::string::is_ascii_spec_bytes(v);
        if v@.len() == 2 {
            assert(v@[0] <= '\u{7f}' && v@[1] <= '\u{7f}');
        }
    }
    b.len() == 2 && (b[0] == 101 || b[0] == 69) && (b[1] == 110 || b[1] == 78)
}

/// Whether an attribute named `lang` says "en"; `Err` where one has no value.
fn english_attr(a: &Vec<Attr>, key: &[u8]) -> (r: Result<bool, ()>)
    requires
        key@ == lang_key(),
    ensures
        r is Ok <==> attrs_ok(a@, key@),
        r is Ok ==> r->Ok_0 == any_en(a@),
{
    let mut en = false;
    let mut i: usize = 0;
    while i < a.len()
        invariant
            i <= a.len(),
            key@ == lang_key(),
            forall|j: int| 0 <= j < i && local_name(#[trigger] a@[j].key@) == key@ ==> a@[j].value is Some,
            en == exists|j: int|
                0 <= j < i && local_name(#[trigger] a@[j].key@) == lang_key() && a@[j].value is Some
                    && is_en(a@[j].value->Some_0@),
        decreases a.len() - i,
    {
        if local_is(&a[i].key, key) {
            match &a[i].value {
                None => {
                    return Err(());
                },
                Some(v) => {
                    if is_english(v.as_str()) {
                        en = true;
                    }
                },
            }
        }
        i = i + 1;
    }
    Ok(en)
}

/// The last `TIME_PERIOD` and `OBS_VALUE` of an `Obs`, with whether the value
/// is above zero; `Err` where one has no value or a value is no number.
fn obs_fields(a: &Vec<Attr>) -> (r: Result<(Option<String>, Option<String>, bool), ()>)
    ensures
        r is Ok <==> (attrs_ok(a@, period_key()) && attrs_ok(a@, value_key()) && values_numeric(a@)),
        r is Ok ==> ({
            let (p, v, pos) = r->Ok_0;
            &&& opt_view(p) == last_value(a@, period_key())
            &&& opt_view(v) == last_value(a@, value_key())
            &&& (v is Some ==> pos == is_positive(encode_utf8(v->Some_0@)))
        }),
{
    let pk: [u8; 11] = [84, 73, 77, 69, 95, 80, 69, 82, 73, 79, 68];
    let vk: [u8; 9] = [79, 66, 83, 95, 86, 65, 76, 85, 69];
    assert(pk@ == period_key());
    assert(vk@ == value_key());
    let mut p: Option<String> = None;
    let mut v: Option<String> = None;
    let mut pos = false;
    let mut i: usize = 0;
    while i < a.len()
        invariant
            i <= a.len(),
            pk@ == period_key(),
            vk@ == value_key(),
            attrs_ok(a@.subrange(0, i as int), period_key()),
            attrs_ok(a@.subrange(0, i as int), value_key()),
            values_numeric(a@.subrange(0, i as int)),
            opt_view(p) == last_value(a@.subrange(0, i as int), period_key()),
            opt_view(v) == last_value(a@.subrange(0, i as int), value_key()),
            v is Some ==> pos == is_positive(encode_utf8(v->Some_0@)),
        decreases a.len() - i,
    {
        proof {
            assert(a@.subrange(0, i + 1).drop_last() =~= a@.subrange(0, i as int));
        }
        let is_p = local_is(&a[i].key, pk.as_slice());
        let is_v = local_is(&a[i].key, vk.as_slice());
        if is_p || is_v {
            match &a[i].value {
                None => {
                    if is_p {
                        assert(!attrs_ok(a@, period_key()));
                    } else {
                        assert(!attrs_ok(a@, value_key()));
                    }
                    return Err(());
                },
                Some(x) => {
                    if is_p {
                        p = Some(x.clone());
                    } else {
                        match check_number(x.as_str().as_bytes()) {
                            None => {
                                assert(!values_numeric(a@));
                                return Err(());
                            },
                            Some(b) => {
                                v = Some(x.clone());
                                pos = b;
                            },
                        }
                    }
                },
            }
        }
        i = i + 1;
        proof {
            assert(attrs_ok(a@.subrange(0, i as int), period_key()));
            assert(attrs_ok(a@.subrange(0, i as int), value_key()));
            assert(values_numeric(a@.subrange(0, i as int)));
        }
    }
    assert(a@.subrange(0, i as int) =~= a@);
    Ok((p, v, pos))
}

/// Look-up entries of a document's events: each `Code` with its `id` and its
/// English name (else the first name, else the code).
pub fn extract_items(events: &Vec<XmlEvent>) -> (r: Result<Vec<Item>, ExtractError>)
    ensures
        match r {
            Ok(v) => items_spec(events@) == Ok::<_, ExtractError>(items_view(v@)),
            Err(e) => items_spec(events@) == Err::<Seq<(Seq<char>, Seq<char>)>, _>(e),
        },
{
    let code: [u8; 4] = [67, 111, 100, 101];
    let name_t: [u8; 4] = [78, 97, 109, 101];
    let idk: [u8; 2] = [105, 100];
    let langk: [u8; 4] = [108, 97, 110, 103];
    assert(code@ == code_tag());
    assert(name_t@ == name_tag());
    assert(idk@ == id_key());
    assert(langk@ == lang_key());
    let mut in_code = false;
    let mut id: Option<String> = None;
    let mut name: Option<String> = None;
    let mut capture = false;
    let mut out: Vec<Item> = Vec::new();
    let mut i: usize = 0;
    assert(items_view(out@) =~= Seq::empty());
    while i < events.len()
        invariant
            i <= events.len(),
            code@ == code_tag(),
            name_t@ == name_tag(),
            idk@ == id_key(),
            langk@ == lang_key(),
            items_run(events@, i as int) == Ok::<_, ExtractError>(
                ItemScan { in_code, id: opt_view(id), name: opt_view(name), capture, out: items_view(out@) },
            ),
        decreases events.len() - i,
    {
        let ghost st = ItemScan { in_code, id: opt_view(id), name: opt_view(name), capture, out: items_view(out@) };
        match &events[i] {
            XmlEvent::Start(tag) => {
                if local_is(&tag.name, code.as_slice()) {
                    match &tag.attrs {
                        None => {
                            proof {
                                lemma_items_fail(events@, i + 1, events@.len() as int);
                            }
                            return Err(ExtractError::BadAttribute);
                        },
                        Some(a) => {
                            match last_attr(a, idk.as_slice()) {
                                Err(()) => {
                                    proof {
                                lemma_items_fail(events@, i + 1, events@.len() as int);
                            }
                            return Err(ExtractError::BadAttribute);
                                },
                                Ok(x) => {
                                    in_code = true;
                                    id = x;
                                    name = None;
                                },
                            }
                        },
                    }
                } else if in_code && local_is(&tag.name, name_t.as_slice()) {
                    match &tag.attrs {
                        None => {
                            proof {
                                lemma_items_fail(events@, i + 1, events@.len() as int);
                            }
                            return Err(ExtractError::BadAttribute);
                        },
                        Some(a) => {
                            match english_attr(a, langk.as_slice()) {
                                Err(()) => {
                                    proof {
                                lemma_items_fail(events@, i + 1, events@.len() as int);
                            }
                            return Err(ExtractError::BadAttribute);
                                },
                                Ok(en) => {
                                    capture = en || name.is_none();
                                },
                            }
                        },
                    }
                }
            },
            XmlEvent::Text(t) => {
                if in_code && capture {
                    match t {
                        None => {
                            proof {
                                lemma_items_fail(events@, i + 1, events@.len() as int);
                            }
                            return Err(ExtractError::BadAttribute);
                        },
                        Some(x) => {
                            name = Some(x.clone());
                        },
                    }
                }
            },
            XmlEvent::End(n) => {
                if local_is(n, name_t.as_slice()) {
                    capture = false;
                }
                if local_is(n, code.as_slice()) && in_code {
                    match &id {
                        Some(c) => {
                            let nm = match &name {
                                Some(x) => x.clone(),
                                None => c.clone(),
                            };
                            let ghost before = items_view(out@);
                            out.push(Item { code: c.clone(), name: nm });
                            assert(items_view(out@) =~= before.push((c@, nm@)));
                            id = None;
                            name = None;
                        },
                        None => {},
                    }
                    in_code = false;
                }
            },
            _ => {},
        }
        i = i + 1;
        assert(items_run(events@, i as int) == item_step(st, events@[i - 1]));
        assert(items_run(events@, i as int) == Ok::<_, ExtractError>(
            ItemScan { in_code, id: opt_view(id), name: opt_view(name), capture, out: items_view(out@) },
        ));
    }
    assert(events@.len() == i);
    if out.len() == 0 {
        return Err(ExtractError::NoRecords);
    }
    Ok(out)
}

/// Observations of a document's events: each `Obs` with a `TIME_PERIOD` and
/// an `OBS_VALUE` above zero, in document order.
pub fn extract_observations(events: &Vec<XmlEvent>) -> (r: Result<Vec<Observation>, ExtractError>)
    ensures
        match r {
            Ok(v) => obs_spec(events@) == Ok::<_, ExtractError>(obs_view(v@)),
            Err(e) => obs_spec(events@) == Err::<Seq<(Seq<char>, Seq<char>)>, _>(e),
        },
{
    let obs_t: [u8; 3] = [79, 98, 115];
    assert(obs_t@ == obs_tag());
    let mut out: Vec<Observation> = Vec::new();
    let mut i: usize = 0;
    assert(obs_view(out@) =~= Seq::empty());
    while i < events.len()
        invariant
            i <= events.len(),
            obs_t@ == obs_tag(),
            obs_run(events@, i as int) == Ok::<_, ExtractError>(obs_view(out@)),
        decreases events.len() - i,
    {
        let ghost before = obs_view(out@);
        let tag = match &events[i] {
            XmlEvent::Start(t) => Some(t),
            XmlEvent::Empty(t) => Some(t),
            _ => None,
        };
        match tag {
            Some(t) => {
                if local_is(&t.name, obs_t.as_slice()) {
                    match &t.attrs {
                        None => {
                            proof {
                                lemma_obs_fail(events@, i + 1, events@.len() as int);
                            }
                            return Err(ExtractError::BadAttribute);
                        },
                        Some(a) => {
                            match obs_fields(a) {
                                Err(()) => {
                                    proof {
                                lemma_obs_fail(events@, i + 1, events@.len() as int);
                            }
                            return Err(ExtractError::BadAttribute);
                                },
                                Ok((p, v, pos)) => {
                                    match (p, v) {
                                        (Some(p), Some(v)) => {
                                            if pos {
                                                out.push(Observation { period: p, value: v });
                                                assert(obs_view(out@) =~= before.push((p@, v@)));
                                            }
                                        },
                                        _ => {},
                                    }
                                },
                            }
                        },
                    }
                }
            },
            None => {},
        }
        i = i + 1;
        assert(obs_run(events@, i as int) == obs_step(before, events@[i - 1]));
    }
    assert(events@.len() == i);
    if out.len() == 0 {
        return Err(ExtractError::NoRecords);
    }
    Ok(out)
}

/// Look-up entries of a markup document (see `extract_items`).
pub fn parse_codelist(doc: &[u8]) -> (r: Result<Vec<Item>, ExtractError>)
    ensures
        match xml_events_of(doc@) {
            None => r == Err::<Vec<Item>, _>(ExtractError::Malformed),
            Some(evs) => match r {
                Ok(v) => items_spec(evs) == Ok::<_, ExtractError>(items_view(v@)),
                Err(e) => items_spec(evs) == Err::<Seq<(Seq<char>, Seq<char>)>, _>(e),
            },
        },
{
    match read_events(doc) {
        None => Err(ExtractError::Malformed),
        Some(evs) => extract_items(&evs),
    }
}

/// Observations of a markup document (see `extract_observations`).
pub fn parse_observations(doc: &[u8]) -> (r: Result<Vec<Observation>, ExtractError>)
    ensures
        match xml_events_of(doc@) {
            None => r == Err::<Vec<Observation>, _>(ExtractError::Malformed),
            Some(evs) => match r {
                Ok(v) => obs_spec(evs) == Ok::<_, ExtractError>(obs_view(v@)),
                Err(e) => obs_spec(evs) == Err::<Seq<(Seq<char>, Seq<char>)>, _>(e),
            },
        },
{
    match read_events(doc) {
        None => Err(ExtractError::Malformed),
        Some(evs) => extract_observations(&evs),
    }
}

/// Index of the first entry whose code is `code`.
pub fn find_item(items: &Vec<Item>, code: &str) -> (r: Option<usize>)
    ensures
        match r {
            Some(k) => k < items.len() && items@[k as int].code@ == code@ && forall|j: int|
                0 <= j < k ==> (#[trigger] items@[j]).code@ != code@,
            None => forall|j: int| 0 <= j < items.len() ==> (#[trigger] items@[j]).code@ != code@,
        },
{
    let want = code.to_owned();
    let mut i: usize = 0;
    while i < items.len()
        invariant
            i <= items.len(),
            want@ == code@,
            forall|j: int| 0 <= j < i ==> (#[trigger] items@[j]).code@ != code@,
        decreases items.len() - i,
    {
        if items[i].code == want {
            return Some(i);
        }
        i = i + 1;
    }
    None
}

} // verus!
