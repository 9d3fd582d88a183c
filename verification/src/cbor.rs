//! CBOR data items, read and written through ciborium.

use vstd::prelude::*;
use ciborium::Value;
use crate::util::text::str_eq;

verus! {

/// A CBOR data item. A floating-point item is held by its IEEE 754 binary64 bit pattern.
#[derive(Debug, PartialEq)]
pub enum CborValue {
    /// Integer (major types 0 and 1).
    Integer(i128),
    /// Byte string.
    Bytes(Vec<u8>),
    /// Float, by its binary64 bits.
    Float(u64),
    /// Text string.
    Text(String),
    /// Boolean.
    Bool(bool),
    /// Null.
    Null,
    /// Tagged item.
    Tag(u64, Box<CborValue>),
    /// Array.
    Array(Vec<CborValue>),
    /// Map (major type 5), as its entries in order.
    Dict(Vec<(CborValue, CborValue)>),
    /// Any other simple value.
    Other,
}

#[verifier::external_type_specification]
#[verifier::external_body]
pub struct ExCiboriumValue(ciborium::Value);

/// Result of reading one CBOR data item from the front of a byte string: the item and the
/// number of bytes left after it.
pub uninterp spec fn cbor_reading(data: Seq<u8>) -> Option<(CborValue, nat)>;

/// The CBOR data item at the front of a byte string.
pub open spec fn cbor_decoding(data: Seq<u8>) -> Option<CborValue> {
    match cbor_reading(data) {
        Some((v, _)) => Some(v),
        None => None,
    }
}

/// The CBOR data item that a byte string holds with nothing after it.
pub open spec fn cbor_whole(data: Seq<u8>) -> Option<CborValue> {
    match cbor_reading(data) {
        Some((v, rest)) => if rest == 0 {
            Some(v)
        } else {
            None
        },
        None => None,
    }
}

/// Converts a `ciborium::Value` into a `CborValue` variant for variant (a float by its bit
/// pattern; a variant not listed becomes `Other`). Nothing is claimed of the result.
#[verifier::external_body]
fn cbor_value_from(v: Value) -> CborValue {
    match v {
        Value::Integer(i) => CborValue::Integer(i128::from(i)),
        Value::Bytes(b) => CborValue::Bytes(b),
        Value::Float(f) => CborValue::Float(f.to_bits()),
        Value::Text(t) => CborValue::Text(t),
        Value::Bool(b) => CborValue::Bool(b),
        Value::Null => CborValue::Null,
        Value::Tag(t, x) => CborValue::Tag(t, Box::new(cbor_value_from(*x))),
        Value::Array(a) => CborValue::Array(a.into_iter().map(cbor_value_from).collect()),
        Value::Map(m) => CborValue::Dict(cbor_entries_from(m)),
        _ => CborValue::Other,
    }
}

/// Converts the entries of a `ciborium::Value` map, key and value each through
/// `cbor_value_from`. Nothing is claimed of the result.
#[verifier::external_body]
fn cbor_entries_from(m: Vec<(Value, Value)>) -> Vec<(CborValue, CborValue)> {
    m.into_iter().map(|(k, x)| (cbor_value_from(k), cbor_value_from(x))).collect()
}

/// Reads one CBOR data item from the front of `data` through `ciborium::de::from_reader`
/// into a `ciborium::Value`, reading from a slice that the reader advances, and gives the
/// item with the number of bytes left unread after it, or ciborium's error. Claims that the
/// outcome depends on the bytes alone, and that what is left is no more than the input.
#[verifier::external_body]
pub(crate) fn cbor_read(data: &[u8]) -> (r: core::result::Result<
    (CborValue, usize),
    ciborium::de::Error<std::io::Error>,
>)
    ensures
        match cbor_reading(data@) {
            Some((v, rest)) => r matches Ok((x, m)) && x == v && m == rest && m <= data@.len(),
            None => r is Err,
        },
{
    let mut rest = data;
    let value = ciborium::de::from_reader::<ciborium::Value, _>(&mut rest)?;
    Ok((cbor_value_from(value), rest.len()))
}

/// The CBOR data item at the front of `data`.
pub(crate) fn cbor_decode(data: &[u8]) -> (r: Option<CborValue>)
    ensures
        r == cbor_decoding(data@),
{
    match cbor_read(data) {
        Ok((v, _)) => Some(v),
        Err(_) => None,
    }
}

/// The CBOR data item `data` holds when nothing follows it.
pub(crate) fn cbor_decode_whole(data: &[u8]) -> (r: Option<CborValue>)
    ensures
        r == cbor_whole(data@),
{
    match cbor_read(data) {
        Ok((v, rest)) => if rest == 0 {
            Some(v)
        } else {
            None
        },
        Err(_) => None,
    }
}


/// Result of writing a CBOR data item through ciborium.
pub uninterp spec fn cbor_encoding(v: CborValue) -> Option<Seq<u8>>;

/// A data item ciborium writes and reads back unchanged: an integer in the CBOR range, a
/// byte string, a text, a boolean, null, or an array or map of such items.
pub open spec fn cbor_plain(v: CborValue) -> bool
    decreases v, 1nat,
{
    match v {
        CborValue::Integer(i) => -0x1_0000_0000_0000_0000 <= i < 0x1_0000_0000_0000_0000,
        CborValue::Bytes(_) => true,
        CborValue::Text(_) => true,
        CborValue::Bool(_) => true,
        CborValue::Null => true,
        CborValue::Array(items) => cbor_plain_items(items@),
        CborValue::Dict(entries) => cbor_plain_entries(entries@),
        _ => false,
    }
}

/// Every item is plain.
pub open spec fn cbor_plain_items(s: Seq<CborValue>) -> bool
    decreases s, 1nat,
{
    if s.len() == 0 {
        true
    } else {
        cbor_plain_items(s.drop_last()) && cbor_plain(s.last())
    }
}

/// Every key and value is plain.
pub open spec fn cbor_plain_entries(s: Seq<(CborValue, CborValue)>) -> bool
    decreases s, 1nat,
{
    if s.len() == 0 {
        true
    } else {
        cbor_plain_entries(s.drop_last()) && cbor_plain(s.last().0) && cbor_plain(s.last().1)
    }
}

/// How deep arrays and maps nest in a data item: 0 for any other item, one more than the
/// deepest item inside for an array or a map.
pub open spec fn cbor_depth(v: CborValue) -> nat
    decreases v, 1nat,
{
    match v {
        CborValue::Array(items) => 1 + cbor_depth_items(items@),
        CborValue::Dict(entries) => 1 + cbor_depth_entries(entries@),
        _ => 0,
    }
}

/// The depth of the deepest item.
pub open spec fn cbor_depth_items(s: Seq<CborValue>) -> nat
    decreases s, 1nat,
{
    if s.len() == 0 {
        0
    } else {
        let a = cbor_depth_items(s.drop_last());
        let b = cbor_depth(s.last());
        if a >= b {
            a
        } else {
            b
        }
    }
}

/// The depth of the deepest key or value.
pub open spec fn cbor_depth_entries(s: Seq<(CborValue, CborValue)>) -> nat
    decreases s, 1nat,
{
    if s.len() == 0 {
        0
    } else {
        let a = cbor_depth_entries(s.drop_last());
        let k = cbor_depth(s.last().0);
        let b = cbor_depth(s.last().1);
        let m = if k >= b {
            k
        } else {
            b
        };
        if a >= m {
            a
        } else {
            m
        }
    }
}

/// Converts a `CborValue` into a `ciborium::Value` variant for variant; `None` for a float,
/// a tag, an `Other` item or an integer outside the CBOR range (the library only writes
/// tables of contents and dictionaries, which hold none of these). Nothing is claimed of the
/// result.
#[verifier::external_body]
fn cbor_value_to(v: &CborValue) -> Option<Value> {
    Some(match v {
        CborValue::Integer(i) => Value::Integer((*i).try_into().ok()?),
        CborValue::Bytes(b) => Value::Bytes(b.clone()),
        CborValue::Text(t) => Value::Text(t.clone()),
        CborValue::Bool(b) => Value::Bool(*b),
        CborValue::Null => Value::Null,
        CborValue::Array(a) => Value::Array(a.iter().map(cbor_value_to).collect::<Option<_>>()?),
        CborValue::Dict(m) => Value::Map(cbor_entries_to(m)?),
        _ => return None,
    })
}

/// Converts the entries of a map, key and value each through `cbor_value_to`; `None` when
/// one of them does not convert. Nothing is claimed of the result.
#[verifier::external_body]
fn cbor_entries_to(m: &Vec<(CborValue, CborValue)>) -> Option<Vec<(Value, Value)>> {
    m.iter().map(|(k, x)| Some((cbor_value_to(k)?, cbor_value_to(x)?))).collect()
}

/// Writes a data item through `ciborium::ser::into_writer` into a `Vec`, after converting
/// it to a `ciborium::Value`. Claims the named result, that a map of fewer than 24 entries
/// starts with its one-byte CBOR head (major type 5, the count), that plain items are
/// written, and that ciborium reads a written plain item back unchanged when arrays and maps nest at most
/// 256 deep (deeper items exceed the recursion limit of `ciborium::de::from_reader`).
#[verifier::external_body]
pub(crate) fn cbor_encode(v: &CborValue) -> (r: Option<Vec<u8>>)
    ensures
        match cbor_encoding(*v) {
            Some(b) => r matches Some(x) && x@ == b,
            None => r is None,
        },
        cbor_plain(*v) ==> r is Some,
        r matches Some(b) ==> (cbor_plain(*v) && cbor_depth(*v) <= 256 ==> cbor_decoding(b@)
            == Some(*v)),
        r matches Some(b) ==> (*v matches CborValue::Dict(es) ==> (es@.len() < 24 ==> b@.len()
            >= 1 && b@[0] == 0xa0 + es@.len())),
{
    let value = cbor_value_to(v)?;
    let mut buf = Vec::new();
    ciborium::ser::into_writer(&value, &mut buf).ok()?;
    Some(buf)
}


/// The value of the first entry whose key is the text `name`.
pub open spec fn cbor_field(entries: Seq<(CborValue, CborValue)>, name: Seq<char>) -> Option<CborValue>
    decreases entries.len(),
{
    if entries.len() == 0 {
        None
    } else if entries[0].0 matches CborValue::Text(t) && t@ == name {
        Some(entries[0].1)
    } else {
        cbor_field(entries.drop_first(), name)
    }
}

/// An integer item in `0..=max`.
pub open spec fn cbor_uint(v: Option<CborValue>, max: int) -> Option<int> {
    match v {
        Some(CborValue::Integer(i)) => if 0 <= i <= max {
            Some(i as int)
        } else {
            None
        },
        _ => None,
    }
}

/// A text item.
pub open spec fn cbor_text(v: Option<CborValue>) -> Option<Seq<char>> {
    match v {
        Some(CborValue::Text(t)) => Some(t@),
        _ => None,
    }
}

/// The value of the first entry whose key is the text `name`.
pub fn find_field<'a>(entries: &'a Vec<(CborValue, CborValue)>, name: &str) -> (r: Option<&'a CborValue>)
    ensures
        match cbor_field(entries@, name@) {
            Some(v) => r matches Some(x) && *x == v,
            None => r is None,
        },
{
    let mut i: usize = 0;
    assert(entries@.skip(0) =~= entries@);
    while i < entries.len()
        invariant
            i <= entries@.len(),
            cbor_field(entries@, name@) == cbor_field(entries@.skip(i as int), name@),
        decreases entries@.len() - i,
    {
        assert(entries@.skip(i as int)[0] == entries@[i as int]);
        assert(entries@.skip(i as int).drop_first() =~= entries@.skip(i + 1));
        match &entries[i].0 {
            CborValue::Text(t) => {
                if str_eq(t.as_str(), name) {
                    return Some(&entries[i].1);
                }
            },
            _ => {},
        }
        i += 1;
    }
    None
}

/// An integer item in `0..=max`.
pub fn uint_value(v: Option<&CborValue>, max: u64) -> (r: Option<u64>)
    ensures
        match cbor_uint(
            match v {
                Some(x) => Some(*x),
                None => None,
            },
            max as int,
        ) {
            Some(i) => r == Some(i as u64),
            None => r is None,
        },
{
    match v {
        Some(CborValue::Integer(i)) => {
            if 0 <= *i && *i <= max as i128 {
                Some(*i as u64)
            } else {
                None
            }
        },
        _ => None,
    }
}

/// A text item.
pub fn text_value(v: Option<&CborValue>) -> (r: Option<String>)
    ensures
        match cbor_text(
            match v {
                Some(x) => Some(*x),
                None => None,
            },
        ) {
            Some(t) => r matches Some(s) && s@ == t,
            None => r is None,
        },
{
    match v {
        Some(CborValue::Text(t)) => Some(t.clone()),
        _ => None,
    }
}

/// A map entry whose key is a text.
pub fn text_entry(key: &str, value: CborValue) -> (r: (CborValue, CborValue))
    ensures
        r.0 matches CborValue::Text(t) && t@ == key@,
        r.1 == value,
{
    (CborValue::Text(key.to_owned()), value)
}


/// Looking a name up after appending an entry finds an earlier entry first, then the new one.
pub proof fn lemma_cbor_field_push(
    es: Seq<(CborValue, CborValue)>,
    e: (CborValue, CborValue),
    name: Seq<char>,
)
    ensures
        cbor_field(es.push(e), name) == match cbor_field(es, name) {
            Some(x) => Some(x),
            None => if e.0 matches CborValue::Text(t) && t@ == name {
                Some(e.1)
            } else {
                None
            },
        },
    decreases es.len(),
{
    if es.len() > 0 {
        assert(es.push(e)[0] == es[0]);
        assert(es.push(e).drop_first() =~= es.drop_first().push(e));
        lemma_cbor_field_push(es.drop_first(), e, name);
    } else {
        assert(es.push(e)[0] == e);
        assert(es.push(e).drop_first() =~= Seq::<(CborValue, CborValue)>::empty());
        assert(cbor_field(Seq::<(CborValue, CborValue)>::empty(), name) is None);
    }
}

/// Appends an entry whose key is the text `key`.
pub fn push_text_entry(es: &mut Vec<(CborValue, CborValue)>, key: &str, value: CborValue)
    ensures
        final(es)@.drop_last() == old(es)@,
        final(es)@.len() == old(es)@.len() + 1,
        final(es)@.last().0 matches CborValue::Text(t) && t@ == key@,
        final(es)@.last().1 == value,
        cbor_plain_entries(old(es)@) && cbor_plain(value) ==> cbor_plain_entries(final(es)@),
        cbor_depth_entries(final(es)@) == if cbor_depth_entries(old(es)@) >= cbor_depth(value) {
            cbor_depth_entries(old(es)@)
        } else {
            cbor_depth(value)
        },
        forall|name: Seq<char>|
            #[trigger] cbor_field(final(es)@, name) == match cbor_field(old(es)@, name) {
                Some(x) => Some(x),
                None => if key@ == name {
                    Some(value)
                } else {
                    None
                },
            },
{
    let ghost before = es@;
    let ghost v = value;
    es.push((CborValue::Text(key.to_owned()), value));
    assert(es@.drop_last() =~= before);
    assert(cbor_plain(es@.last().0));
    assert(cbor_depth(es@.last().0) == 0);
    assert forall|name: Seq<char>|
        #[trigger] cbor_field(es@, name) == match cbor_field(before, name) {
            Some(x) => Some(x),
            None => if key@ == name {
                Some(v)
            } else {
                None
            },
        } by {
        lemma_cbor_field_push(before, es@.last(), name);
        assert(es@ =~= before.push(es@.last()));
    }
}

} // verus!
