//! Data transforms applied to chunk payloads before compression.

use vstd::prelude::*;
use crate::constants::transform_flags;
use crate::error::{Result, UnivError};
use crate::util::le::{get_u64_le, le_u64, put_u64_le, u64_le};
use crate::cbor::{
    cbor_decode, cbor_decoding, cbor_encode, cbor_field, cbor_plain, cbor_plain_items, find_field,
    push_text_entry, CborValue, cbor_depth, cbor_depth_items,
};
use crate::toc::{read_string_map, string_map_from_cbor, write_string_map};
use crate::util::string_map::{key_value, keys_distinct, lemma_key_position_unique, StringMap};
use crate::util::text::{
    decimal_chars, decimal_string, lemma_string_position_unique, str_eq, string_position,
    strings_distinct,
};
use vstd::string::*;

verus! {

/// The 64-bit little-endian words of `d`, trailing bytes that do not fill a word left out.
pub open spec fn le_words(d: Seq<u8>) -> Seq<u64> {
    Seq::new(d.len() / 8, |i: int| le_u64(d.skip(8 * i)))
}

/// The little-endian bytes of a sequence of 64-bit words.
pub open spec fn words_le(ws: Seq<u64>) -> Seq<u8>
    decreases ws.len(),
{
    if ws.len() == 0 {
        Seq::empty()
    } else {
        words_le(ws.drop_last()) + u64_le(ws.last())
    }
}

/// Delta encoding of words: the first word, then each word minus the one before (wrapping).
pub open spec fn delta_encode(ws: Seq<u64>) -> Seq<u64> {
    Seq::new(
        ws.len(),
        |i: int|
            if i == 0 {
                ws[0]
            } else {
                ws[i].wrapping_sub(ws[i - 1])
            },
    )
}

/// Delta decoding: running (wrapping) sums of the words.
pub open spec fn delta_decode(ds: Seq<u64>) -> Seq<u64>
    decreases ds.len(),
{
    if ds.len() == 0 {
        Seq::empty()
    } else if ds.len() == 1 {
        seq![ds[0]]
    } else {
        let p = delta_decode(ds.drop_last());
        p.push(p.last().wrapping_add(ds.last()))
    }
}

/// Number of bytes of `d` that full words cover.
pub open spec fn word_bytes(d: Seq<u8>) -> int {
    (8 * (d.len() / 8)) as int
}

/// Delta transform of a byte string: inputs shorter than a word are left alone; otherwise
/// the words are delta encoded and the trailing bytes kept.
pub open spec fn delta_bytes(d: Seq<u8>) -> Seq<u8> {
    if d.len() < 8 {
        d
    } else {
        words_le(delta_encode(le_words(d))) + d.skip(word_bytes(d))
    }
}

/// Inverse delta transform of a byte string.
pub open spec fn undelta_bytes(d: Seq<u8>) -> Seq<u8> {
    if d.len() < 8 {
        d
    } else {
        words_le(delta_decode(le_words(d))) + d.skip(word_bytes(d))
    }
}

/// Bytes after the transforms selected by `flags` (string dictionary and integer varint
/// leave the bytes as they are; delta encodes 64-bit words).
pub open spec fn transform_apply(flags: u16, d: Seq<u8>) -> Seq<u8> {
    if flags & transform_flags::DELTA != 0 {
        delta_bytes(d)
    } else {
        d
    }
}

/// Bytes after undoing the transforms selected by `flags`.
pub open spec fn transform_reverse(flags: u16, d: Seq<u8>) -> Seq<u8> {
    if flags & transform_flags::DELTA != 0 {
        undelta_bytes(d)
    } else {
        d
    }
}

proof fn lemma_words_le_len(ws: Seq<u64>)
    ensures
        words_le(ws).len() == 8 * ws.len(),
    decreases ws.len(),
{
    if ws.len() > 0 {
        lemma_words_le_len(ws.drop_last());
    }
}

/// The bytes of word `i` sit at `8 * i`.
proof fn lemma_words_le_at(ws: Seq<u64>, i: int)
    requires
        0 <= i < ws.len(),
    ensures
        words_le(ws).subrange(8 * i, 8 * i + 8) == u64_le(ws[i]),
    decreases ws.len(),
{
    lemma_words_le_len(ws);
    lemma_words_le_len(ws.drop_last());
    if i < ws.len() - 1 {
        lemma_words_le_at(ws.drop_last(), i);
        assert(words_le(ws).subrange(8 * i, 8 * i + 8) =~= words_le(ws.drop_last()).subrange(
            8 * i,
            8 * i + 8,
        ));
    } else {
        assert(words_le(ws).subrange(8 * i, 8 * i + 8) =~= u64_le(ws[i]));
    }
}

/// Reading words back from their bytes, followed by less than a word, gives the words.
proof fn lemma_le_words_of_words_le(ws: Seq<u64>, tail: Seq<u8>)
    requires
        tail.len() < 8,
    ensures
        (words_le(ws) + tail).len() / 8 == ws.len(),
        le_words(words_le(ws) + tail) == ws,
        word_bytes(words_le(ws) + tail) == words_le(ws).len(),
{
    let b = words_le(ws) + tail;
    lemma_words_le_len(ws);
    let n = ws.len();
    assert(b.len() == 8 * n + tail.len());
    assert((8 * n + tail.len()) / 8 == n) by (nonlinear_arith)
        requires
            0 <= tail.len() < 8,
            n >= 0,
    ;
    assert forall|i: int| 0 <= i < n implies le_u64(#[trigger] b.skip(8 * i)) == ws[i] by {
        lemma_words_le_at(ws, i);
        assert(8 * i + 8 <= 8 * n) by (nonlinear_arith)
            requires
                i < n,
        ;
        crate::util::le::lemma_u64_le_roundtrip(ws[i], b.skip(8 * i + 8));
        assert(b.skip(8 * i) =~= u64_le(ws[i]) + b.skip(8 * i + 8));
    }
    assert(le_words(b) =~= ws);
}

/// The little-endian bytes of the value read from eight bytes are those bytes.
proof fn lemma_u64_le_of_le_u64(s: Seq<u8>)
    requires
        s.len() >= 8,
    ensures
        u64_le(le_u64(s)) == s.take(8),
{
    let (b0, b1, b2, b3, b4, b5, b6, b7) = (s[0], s[1], s[2], s[3], s[4], s[5], s[6], s[7]);
    let v = le_u64(s);
    assert(v == (b0 as u64) | ((b1 as u64) << 8u64) | ((b2 as u64) << 16u64) | ((b3 as u64)
        << 24u64) | ((b4 as u64) << 32u64) | ((b5 as u64) << 40u64) | ((b6 as u64) << 48u64) | ((
    b7 as u64) << 56u64));
    assert(v == (b0 as u64) | ((b1 as u64) << 8u64) | ((b2 as u64) << 16u64) | ((b3 as u64)
        << 24u64) | ((b4 as u64) << 32u64) | ((b5 as u64) << 40u64) | ((b6 as u64) << 48u64) | ((
    b7 as u64) << 56u64) ==> (v & 0xff) as u8 == b0 && ((v >> 8u64) & 0xff) as u8 == b1 && ((v
        >> 16u64) & 0xff) as u8 == b2 && ((v >> 24u64) & 0xff) as u8 == b3 && ((v >> 32u64)
        & 0xff) as u8 == b4 && ((v >> 40u64) & 0xff) as u8 == b5 && ((v >> 48u64) & 0xff) as u8
        == b6 && ((v >> 56u64) & 0xff) as u8 == b7) by (bit_vector);
    assert(u64_le(v) =~= s.take(8));
}

/// Writing out the words of `d` gives back the bytes they cover.
proof fn lemma_words_le_of_le_words(d: Seq<u8>, k: int)
    requires
        0 <= k <= d.len() / 8,
    ensures
        words_le(le_words(d).take(k)) == d.take(8 * k),
    decreases k,
{
    let ws = le_words(d);
    if k == 0 {
        assert(words_le(ws.take(0)) =~= d.take(0));
    } else {
        lemma_words_le_of_le_words(d, k - 1);
        assert(ws.take(k).drop_last() =~= ws.take(k - 1));
        assert(8 * k <= d.len()) by (nonlinear_arith)
            requires
                k <= d.len() / 8,
        ;
        lemma_u64_le_of_le_u64(d.skip(8 * (k - 1)));
        assert(d.skip(8 * (k - 1)).take(8) =~= d.subrange(8 * (k - 1), 8 * k));
        assert(d.take(8 * k) =~= d.take(8 * (k - 1)) + d.subrange(8 * (k - 1), 8 * k));
    }
}

proof fn lemma_delta_decode_len(ds: Seq<u64>)
    ensures
        delta_decode(ds).len() == ds.len(),
    decreases ds.len(),
{
    if ds.len() > 1 {
        lemma_delta_decode_len(ds.drop_last());
    }
}

/// Running sums of the differences give back the words.
proof fn lemma_delta_decode_encode(ws: Seq<u64>)
    ensures
        delta_decode(delta_encode(ws)) == ws,
    decreases ws.len(),
{
    let e = delta_encode(ws);
    if ws.len() == 0 {
        assert(delta_decode(e) =~= ws);
    } else if ws.len() == 1 {
        assert(delta_decode(e) =~= ws);
    } else {
        assert(e.drop_last() =~= delta_encode(ws.drop_last()));
        lemma_delta_decode_encode(ws.drop_last());
        lemma_delta_decode_len(e.drop_last());
        assert(delta_decode(e) =~= ws);
    }
}

/// Differences of the running sums give back the words.
proof fn lemma_delta_encode_decode(ds: Seq<u64>)
    ensures
        delta_encode(delta_decode(ds)) == ds,
    decreases ds.len(),
{
    lemma_delta_decode_len(ds);
    if ds.len() <= 1 {
        assert(delta_encode(delta_decode(ds)) =~= ds);
    } else {
        let p = delta_decode(ds.drop_last());
        lemma_delta_encode_decode(ds.drop_last());
        lemma_delta_decode_len(ds.drop_last());
        let q = delta_decode(ds);
        assert(q.drop_last() =~= p);
        assert forall|i: int| 0 <= i < ds.len() implies #[trigger] delta_encode(q)[i] == ds[i] by {
            if i < ds.len() - 1 {
                assert(delta_encode(p)[i] == ds.drop_last()[i]);
            }
        }
        assert(delta_encode(q) =~= ds);
    }
}

/// Law: undoing the delta transform after applying it gives the bytes back, and so does
/// applying it after undoing it.
pub proof fn lemma_delta_roundtrip(d: Seq<u8>)
    ensures
        undelta_bytes(delta_bytes(d)) == d,
        delta_bytes(undelta_bytes(d)) == d,
{
    if d.len() >= 8 {
        let ws = le_words(d);
        let tail = d.skip(word_bytes(d));
        let n: int = (d.len() / 8) as int;
        assert(8 * n <= d.len() < 8 * n + 8) by (nonlinear_arith)
            requires
                n == d.len() / 8,
        ;
        assert(tail.len() < 8);
        lemma_words_le_of_le_words(d, n);
        assert(ws.take(n) =~= ws);
        assert(d =~= words_le(ws) + tail);
        lemma_delta_decode_len(ws);
        // apply, then undo
        let e = delta_encode(ws);
        lemma_le_words_of_words_le(e, tail);
        lemma_words_le_len(e);
        lemma_delta_decode_encode(ws);
        assert((words_le(e) + tail).skip(words_le(e).len() as int) =~= tail);
        // undo, then apply
        let u = delta_decode(ws);
        lemma_le_words_of_words_le(u, tail);
        lemma_words_le_len(u);
        lemma_delta_encode_decode(ws);
        assert((words_le(u) + tail).skip(words_le(u).len() as int) =~= tail);
    }
}

/// The transforms keep the length of the bytes.
pub proof fn lemma_transform_len(flags: u16, d: Seq<u8>)
    ensures
        transform_apply(flags, d).len() == d.len(),
        transform_reverse(flags, d).len() == d.len(),
{
    if d.len() >= 8 {
        let n: int = (d.len() / 8) as int;
        assert(8 * n <= d.len()) by (nonlinear_arith)
            requires
                n == d.len() / 8,
        ;
        lemma_words_le_len(delta_encode(le_words(d)));
        lemma_words_le_len(delta_decode(le_words(d)));
        lemma_delta_decode_len(le_words(d));
    }
}

/// Law: for every flag word, undoing the transforms after applying them gives the bytes
/// back, and so does applying them after undoing them.
pub proof fn lemma_transform_roundtrip(flags: u16, d: Seq<u8>)
    ensures
        transform_reverse(flags, transform_apply(flags, d)) == d,
        transform_apply(flags, transform_reverse(flags, d)) == d,
{
    lemma_delta_roundtrip(d);
}

/// Applies and undoes the data transforms selected by a flag word.
pub struct DataTransformer {
    /// Transform flags.
    pub flags: u16,
}

impl DataTransformer {
    /// A transformer for `flags`.
    pub fn new(flags: u16) -> (r: Self)
        ensures
            r.flags == flags,
    {
        DataTransformer { flags }
    }

    /// Applies the transforms in order: string dictionary, integer varint, delta.
    pub fn apply(&self, data: &[u8]) -> (r: Result<Vec<u8>>)
        ensures
            r matches Ok(v) && v@ == transform_apply(self.flags, data@),
    {
        let mut result = vstd::slice::slice_to_vec(data);
        if self.flags & transform_flags::DICT_STRING != 0 {
            result = self.apply_dict_string(result.as_slice())?;
        }
        if self.flags & transform_flags::INTEGER_VARINT != 0 {
            result = self.apply_integer_varint(result.as_slice())?;
        }
        if self.flags & transform_flags::DELTA != 0 {
            result = self.apply_delta(result.as_slice())?;
        }
        Ok(result)
    }

    /// Undoes the transforms in reverse order: delta, integer varint, string dictionary.
    pub fn reverse(&self, data: &[u8]) -> (r: Result<Vec<u8>>)
        ensures
            r matches Ok(v) && v@ == transform_reverse(self.flags, data@),
    {
        let mut result = vstd::slice::slice_to_vec(data);
        if self.flags & transform_flags::DELTA != 0 {
            result = self.reverse_delta(result.as_slice())?;
        }
        if self.flags & transform_flags::INTEGER_VARINT != 0 {
            result = self.reverse_integer_varint(result.as_slice())?;
        }
        if self.flags & transform_flags::DICT_STRING != 0 {
            result = self.reverse_dict_string(result.as_slice())?;
        }
        Ok(result)
    }

    /// String dictionary transform; the format keeps the bytes as they are.
    fn apply_dict_string(&self, data: &[u8]) -> (r: Result<Vec<u8>>)
        ensures
            r matches Ok(v) && v@ == data@,
    {
        Ok(vstd::slice::slice_to_vec(data))
    }

    /// Inverse of the string dictionary transform.
    fn reverse_dict_string(&self, data: &[u8]) -> (r: Result<Vec<u8>>)
        ensures
            r matches Ok(v) && v@ == data@,
    {
        Ok(vstd::slice::slice_to_vec(data))
    }

    /// Integer varint transform; the format keeps the bytes as they are.
    fn apply_integer_varint(&self, data: &[u8]) -> (r: Result<Vec<u8>>)
        ensures
            r matches Ok(v) && v@ == data@,
    {
        Ok(vstd::slice::slice_to_vec(data))
    }

    /// Inverse of the integer varint transform.
    fn reverse_integer_varint(&self, data: &[u8]) -> (r: Result<Vec<u8>>)
        ensures
            r matches Ok(v) && v@ == data@,
    {
        Ok(vstd::slice::slice_to_vec(data))
    }

    /// Delta encoding of the 64-bit little-endian words of `data`.
    fn apply_delta(&self, data: &[u8]) -> (r: Result<Vec<u8>>)
        ensures
            r matches Ok(v) && v@ == delta_bytes(data@),
    {
        if data.len() < 8 {
            return Ok(vstd::slice::slice_to_vec(data));
        }
        let ghost ws = le_words(data@);
        let n = data.len() / 8;
        let mut result: Vec<u8> = Vec::new();
        let first = get_u64_le(data, 0);
        put_u64_le(&mut result, first);
        assert(ws[0] == le_u64(data@.skip(0)));
        assert(delta_encode(ws).take(1) =~= seq![first]);
        assert(seq![first].drop_last() =~= Seq::<u64>::empty());
        assert(Seq::<u8>::empty() + u64_le(first) =~= u64_le(first));
        assert(words_le(Seq::<u64>::empty()) == Seq::<u8>::empty());
        assert(words_le(seq![first]) == words_le(Seq::<u64>::empty()) + u64_le(first));
        assert(result@ =~= words_le(delta_encode(ws).take(1)));
        let mut prev = first;
        let mut i: usize = 1;
        while i < n
            invariant
                1 <= i <= n,
                n == data@.len() / 8,
                ws == le_words(data@),
                prev == ws[i - 1],
                result@ == words_le(delta_encode(ws).take(i as int)),
            decreases n - i,
        {
            assert(8 * i + 8 <= data.len()) by (nonlinear_arith)
                requires
                    i < n,
                    n == data@.len() / 8,
            ;
            let current = get_u64_le(data, 8 * i);
            let delta = current.wrapping_sub(prev);
            let ghost before = result@;
            put_u64_le(&mut result, delta);
            assert(delta_encode(ws).take(i + 1).drop_last() =~= delta_encode(ws).take(i as int));
            prev = current;
            i = i + 1;
        }
        assert(delta_encode(ws).take(n as int) =~= delta_encode(ws));
        assert(8 * n <= data.len()) by (nonlinear_arith)
            requires
                n == data@.len() / 8,
        ;
        let rest_start = 8 * n;
        result.extend_from_slice(&data[rest_start..data.len()]);
        assert(data@.subrange(rest_start as int, data@.len() as int) =~= data@.skip(
            word_bytes(data@),
        ));
        Ok(result)
    }

    /// Delta decoding of the 64-bit little-endian words of `data`.
    fn reverse_delta(&self, data: &[u8]) -> (r: Result<Vec<u8>>)
        ensures
            r matches Ok(v) && v@ == undelta_bytes(data@),
    {
        if data.len() < 8 {
            return Ok(vstd::slice::slice_to_vec(data));
        }
        let ghost ds = le_words(data@);
        let n = data.len() / 8;
        proof {
            lemma_delta_decode_len(ds);
        }
        let mut result: Vec<u8> = Vec::new();
        let first = get_u64_le(data, 0);
        put_u64_le(&mut result, first);
        assert(ds[0] == le_u64(data@.skip(0)));
        assert(ds.take(1) =~= seq![first]);
        assert(delta_decode(ds.take(1)) =~= seq![first]);
        assert(seq![first].drop_last() =~= Seq::<u64>::empty());
        assert(Seq::<u8>::empty() + u64_le(first) =~= u64_le(first));
        assert(words_le(Seq::<u64>::empty()) == Seq::<u8>::empty());
        assert(words_le(seq![first]) == words_le(Seq::<u64>::empty()) + u64_le(first));
        assert(result@ =~= words_le(delta_decode(ds.take(1))));
        let mut prev = first;
        let mut i: usize = 1;
        while i < n
            invariant
                1 <= i <= n,
                n == data@.len() / 8,
                ds == le_words(data@),
                delta_decode(ds.take(i as int)).len() == i,
                prev == delta_decode(ds.take(i as int)).last(),
                result@ == words_le(delta_decode(ds.take(i as int))),
            decreases n - i,
        {
            assert(8 * i + 8 <= data.len()) by (nonlinear_arith)
                requires
                    i < n,
                    n == data@.len() / 8,
            ;
            let delta = get_u64_le(data, 8 * i);
            let current = prev.wrapping_add(delta);
            put_u64_le(&mut result, current);
            let ghost t = ds.take(i + 1);
            assert(t.drop_last() =~= ds.take(i as int));
            assert(delta_decode(t).drop_last() =~= delta_decode(ds.take(i as int)));
            prev = current;
            i = i + 1;
        }
        assert(ds.take(n as int) =~= ds);
        assert(8 * n <= data.len()) by (nonlinear_arith)
            requires
                n == data@.len() / 8,
        ;
        let rest_start = 8 * n;
        result.extend_from_slice(&data[rest_start..data.len()]);
        assert(data@.subrange(rest_start as int, data@.len() as int) =~= data@.skip(
            word_bytes(data@),
        ));
        Ok(result)
    }
}


/// The texts of an array of text items, when every item is a text.
pub open spec fn cbor_text_items(s: Seq<CborValue>) -> Option<Seq<Seq<char>>>
    decreases s.len(),
{
    if s.len() == 0 {
        Some(Seq::empty())
    } else {
        match (cbor_text_items(s.drop_last()), s.last()) {
            (Some(p), CborValue::Text(t)) => Some(p.push(t@)),
            _ => None,
        }
    }
}

/// The texts of an array item of texts.
pub open spec fn cbor_text_array(v: Option<CborValue>) -> Option<Seq<Seq<char>>> {
    match v {
        Some(CborValue::Array(items)) => cbor_text_items(items@),
        _ => None,
    }
}

/// Whether the index `m` names each string by its position and nothing else.
pub open spec fn index_matches(m: Seq<(Seq<char>, u32)>, strings: Seq<Seq<char>>) -> bool {
    &&& m.len() == strings.len()
    &&& forall|i: int| 0 <= i < strings.len() ==> #[trigger] key_value(m, strings[i]) == Some(i as u32)
}

/// The dictionary a CBOR map with its index (`string_to_index`) and its strings
/// (`index_to_string`) describes, when the strings are distinct and the index matches them.
pub open spec fn dictionary_from_cbor(v: CborValue) -> Option<Seq<Seq<char>>> {
    match v {
        CborValue::Dict(es) => match (
            string_map_from_cbor::<u32>(cbor_field(es@, "string_to_index"@)),
            cbor_text_array(cbor_field(es@, "index_to_string"@)),
        ) {
            (Some(m), Some(strings)) => if strings_distinct(strings) && index_matches(m, strings) {
                Some(strings)
            } else {
                None
            },
            _ => None,
        },
        _ => None,
    }
}

/// The dictionary that the CBOR data item at the front of `b` describes.
pub open spec fn dictionary_bytes_parse(b: Seq<u8>) -> Option<Seq<Seq<char>>> {
    match cbor_decoding(b) {
        Some(v) => dictionary_from_cbor(v),
        None => None,
    }
}

proof fn lemma_text_items_prefix_none(s: Seq<CborValue>, k: int)
    requires
        0 <= k <= s.len(),
        cbor_text_items(s.take(k)) is None,
    ensures
        cbor_text_items(s) is None,
    decreases s.len() - k,
{
    if k < s.len() {
        assert(s.take(k + 1).drop_last() =~= s.take(k));
        lemma_text_items_prefix_none(s, k + 1);
    } else {
        assert(s.take(k) =~= s);
    }
}

fn read_text_array(v: Option<&CborValue>) -> (r: Option<Vec<String>>)
    ensures
        match cbor_text_array(
            match v {
                Some(x) => Some(*x),
                None => None,
            },
        ) {
            Some(w) => r matches Some(a) && a@.map_values(|s: String| s@) == w,
            None => r is None,
        },
{
    let items = match v {
        Some(CborValue::Array(items)) => items,
        _ => {
            return None;
        },
    };
    let mut out: Vec<String> = Vec::new();
    let mut i: usize = 0;
    assert(items@.take(0) =~= Seq::<CborValue>::empty());
    while i < items.len()
        invariant
            i <= items@.len(),
            cbor_text_items(items@.take(i as int)) == Some(out@.map_values(|s: String| s@)),
            cbor_text_array(
                match v {
                    Some(x) => Some(*x),
                    None => None,
                },
            ) == cbor_text_items(items@),
        decreases items@.len() - i,
    {
        assert(items@.take(i + 1).drop_last() =~= items@.take(i as int));
        assert(items@.take(i + 1).last() == items@[i as int]);
        match &items[i] {
            CborValue::Text(t) => {
                let ghost before = out@.map_values(|s: String| s@);
                out.push(t.clone());
                assert(out@.map_values(|s: String| s@) =~= before.push(t@));
            },
            _ => {
                proof {
                    lemma_text_items_prefix_none(items@, i + 1);
                }
                return None;
            },
        }
        i += 1;
    }
    assert(items@.take(i as int) =~= items@);
    Some(out)
}

fn write_text_array(a: &Vec<String>) -> (r: CborValue)
    ensures
        cbor_text_array(Some(r)) == Some(a@.map_values(|s: String| s@)),
        cbor_plain(r),
        cbor_depth(r) == 1,
{
    let mut items: Vec<CborValue> = Vec::new();
    let mut i: usize = 0;
    assert(a@.map_values(|s: String| s@).take(0) =~= Seq::<Seq<char>>::empty());
    while i < a.len()
        invariant
            i <= a@.len(),
            items@.len() == i,
            cbor_text_items(items@) == Some(a@.map_values(|s: String| s@).take(i as int)),
            cbor_plain_items(items@),
            cbor_depth_items(items@) == 0,
        decreases a@.len() - i,
    {
        let ghost prev = items@;
        items.push(CborValue::Text(a[i].clone()));
        assert(items@.drop_last() =~= prev);
        assert(cbor_plain(items@.last()));
        assert(cbor_depth(items@.last()) == 0);
        assert(a@.map_values(|s: String| s@).take(i + 1) =~= a@.map_values(|s: String| s@).take(
            i as int,
        ).push(a@[i as int]@));
        i += 1;
    }
    assert(a@.map_values(|s: String| s@).take(i as int) =~= a@.map_values(|s: String| s@));
    CborValue::Array(items)
}

/// A table of distinct strings, each named by its position.
pub struct StringDictionary {
    index_to_string: Vec<String>,
}

impl View for StringDictionary {
    type V = Seq<Seq<char>>;

    closed spec fn view(&self) -> Seq<Seq<char>> {
        self.index_to_string@.map_values(|s: String| s@)
    }
}

impl StringDictionary {
    #[verifier::type_invariant]
    closed spec fn inv(self) -> bool {
        strings_distinct(self@)
    }

    /// An empty dictionary.
    pub fn new() -> (r: Self)
        ensures
            r@ == Seq::<Seq<char>>::empty(),
    {
        let d = StringDictionary { index_to_string: Vec::new() };
        assert(d@ =~= Seq::<Seq<char>>::empty());
        d
    }

    /// Position of `s`, searched from the front.
    fn position(&self, s: &str) -> (r: Option<usize>)
        ensures
            match r {
                Some(i) => string_position(self@, s@) == Some(i as int),
                None => string_position(self@, s@) is None,
            },
    {
        proof {
            use_type_invariant(self);
        }
        let mut i: usize = 0;
        while i < self.index_to_string.len()
            invariant
                i <= self.index_to_string@.len(),
                self@.len() == self.index_to_string@.len(),
                strings_distinct(self@),
                forall|j: int| 0 <= j < i ==> self@[j] != s@,
            decreases self.index_to_string@.len() - i,
        {
            if crate::util::text::str_eq(self.index_to_string[i].as_str(), s) {
                proof {
                    lemma_string_position_unique(self@, s@, i as int);
                }
                return Some(i);
            }
            i += 1;
        }
        None
    }

    /// Adds `s` and returns its position; a string already there keeps its position.
    pub fn add_string(&mut self, s: String) -> (r: u32)
        ensures
            match string_position(old(self)@, s@) {
                Some(i) => r == i as u32 && final(self)@ == old(self)@,
                None => r == old(self)@.len() as u32 && final(self)@ == old(self)@.push(s@),
            },
            strings_distinct(old(self)@),
            strings_distinct(final(self)@),
            old(self)@.len() < u32::MAX ==> (r as int) < final(self)@.len() && final(self)@[r as int]
                == s@ && string_position(final(self)@, s@) == Some(r as int),
            forall|j: int| 0 <= j < old(self)@.len() ==> #[trigger] final(self)@[j] == old(self)@[j],
    {
        proof {
            use_type_invariant(&*self);
            lemma_add_string_then_get(self@, s@);
        }
        match self.position(s.as_str()) {
            Some(i) => i as u32,
            None => {
                let index = self.index_to_string.len() as u32;
                let ghost before = self@;
                let mut strings = Vec::new();
                std::mem::swap(&mut strings, &mut self.index_to_string);
                strings.push(s);
                assert(strings@.map_values(|t: String| t@) =~= before.push(s@));
                self.index_to_string = strings;
                index
            },
        }
    }

    /// The string at `index`.
    pub fn get_string(&self, index: u32) -> (r: Option<&str>)
        ensures
            match r {
                Some(t) => index < self@.len() && t@ == self@[index as int] && string_position(
                    self@,
                    t@,
                ) == Some(index as int),
                None => index >= self@.len(),
            },
            strings_distinct(self@),
    {
        proof {
            use_type_invariant(self);
            if (index as int) < self@.len() {
                lemma_string_position_unique(self@, self@[index as int], index as int);
            }
        }
        let i = index as usize;
        if i < self.index_to_string.len() {
            Some(self.index_to_string[i].as_str())
        } else {
            None
        }
    }

    /// The position of `s`.
    pub fn get_index(&self, s: &str) -> (r: Option<u32>)
        ensures
            match string_position(self@, s@) {
                Some(i) => r == Some(i as u32),
                None => r is None,
            },
            self@.len() <= u32::MAX ==> forall|i: u32|
                r == Some(i) <==> ((i as int) < self@.len() && self@[i as int] == s@),
            strings_distinct(self@),
    {
        proof {
            use_type_invariant(self);
        }
        let r = match self.position(s) {
            Some(i) => Some(i as u32),
            None => None,
        };
        proof {
            if self@.len() <= u32::MAX {
                assert forall|i: u32| r == Some(i) <==> ((i as int) < self@.len() && self@[i as int] == s@) by {
                    lemma_index_string_agree(self@, s@, i as int);
                    if let Some(p) = string_position(self@, s@) {
                        lemma_index_string_agree(self@, s@, p);
                    }
                }
            }
        }
        r
    }

    /// Number of strings.
    pub fn len(&self) -> (r: usize)
        ensures
            r == self@.len(),
            strings_distinct(self@),
    {
        proof {
            use_type_invariant(self);
        }
        self.index_to_string.len()
    }

    /// Writes the dictionary as a CBOR map of its index (`string_to_index`) and its strings
    /// (`index_to_string`).
    pub fn serialize(&self) -> (r: Result<Vec<u8>>)
        ensures
            r matches Ok(b) && dictionary_bytes_parse(b@) == Some(self@),
    {
        proof {
            use_type_invariant(self);
            reveal_strlit("string_to_index");
            reveal_strlit("index_to_string");
            assert("string_to_index"@[0] != "index_to_string"@[0]);
        }
        let n = self.index_to_string.len();
        let mut index: StringMap<u32> = StringMap::new();
        let mut i: usize = 0;
        while i < n
            invariant
                i <= n,
                n == self@.len(),
                strings_distinct(self@),
                index@.len() == i,
                forall|j: int| 0 <= j < i ==> #[trigger] index@[j] == (self@[j], j as u32),
                keys_distinct(index@),
            decreases n - i,
        {
            let ghost before = index@;
            proof {
                assert(crate::util::string_map::key_position(before, self@[i as int]) is None) by {
                    if exists|k: int| 0 <= k < before.len() && before[k].0 == self@[i as int] {
                        let k = choose|k: int| 0 <= k < before.len() && before[k].0 == self@[i as int];
                        assert(before[k] == (self@[k], k as u32));
                    }
                }
            }
            index.insert(self.index_to_string[i].clone(), i as u32);
            assert(index@ =~= before.push((self@[i as int], i as u32)));
            i += 1;
        }
        proof {
            assert forall|j: int| 0 <= j < self@.len() implies #[trigger] key_value(index@, self@[j])
                == Some(j as u32) by {
                lemma_key_position_unique(index@, self@[j], j);
            }
        }
        let mut es: Vec<(CborValue, CborValue)> = Vec::new();
        push_text_entry(&mut es, "string_to_index", write_string_map(&index));
        push_text_entry(&mut es, "index_to_string", write_text_array(&self.index_to_string));
        let value = CborValue::Dict(es);
        match cbor_encode(&value) {
            Some(b) => Ok(b),
            None => Err(UnivError::serialization_error("字符串字典序列化失败")),
        }
    }

    fn from_value(v: &CborValue) -> (r: Option<Self>)
        ensures
            match dictionary_from_cbor(*v) {
                Some(s) => r matches Some(d) && d@ == s,
                None => r is None,
            },
    {
        let es = match v {
            CborValue::Dict(es) => es,
            _ => {
                return None;
            },
        };
        let index = match read_string_map::<u32>(find_field(es, "string_to_index")) {
            Some(m) => m,
            None => {
                return None;
            },
        };
        let strings = match read_text_array(find_field(es, "index_to_string")) {
            Some(a) => a,
            None => {
                return None;
            },
        };
        let ghost sv = strings@.map_values(|s: String| s@);
        let ghost answer = if strings_distinct(sv) && index_matches(index@, sv) {
            Some(sv)
        } else {
            None
        };
        assert(dictionary_from_cbor(*v) == answer);
        let n = strings.len();
        let mut dict = StringDictionary::new();
        let mut i: usize = 0;
        while i < n
            invariant
                i <= n,
                n == sv.len(),
                sv == strings@.map_values(|s: String| s@),
                dict@ == sv.take(i as int),
                strings_distinct(dict@),
                dictionary_from_cbor(*v) == answer,
                answer == (if strings_distinct(sv) && index_matches(index@, sv) {
                    Some(sv)
                } else {
                    None
                }),
            decreases n - i,
        {
            if dict.get_index(strings[i].as_str()).is_some() {
                proof {
                    let k = choose|k: int| 0 <= k < dict@.len() && dict@[k] == sv[i as int];
                    assert(sv[k] == sv[i as int]);
                    assert(!strings_distinct(sv));
                }
                return None;
            }
            let ghost before = dict@;
            dict.add_string(strings[i].clone());
            assert(sv.take(i + 1) =~= before.push(sv[i as int]));
            i += 1;
        }
        assert(sv.take(n as int) =~= sv);
        if index.len() != n {
            return None;
        }
        let mut k: usize = 0;
        while k < n
            invariant
                k <= n,
                n == sv.len(),
                sv == strings@.map_values(|s: String| s@),
                dict@ == sv,
                strings_distinct(sv),
                index@.len() == n,
                forall|j: int| 0 <= j < k ==> #[trigger] key_value(index@, sv[j]) == Some(j as u32),
                dictionary_from_cbor(*v) == answer,
                answer == (if strings_distinct(sv) && index_matches(index@, sv) {
                    Some(sv)
                } else {
                    None
                }),
            decreases n - k,
        {
            let kk = k as u32;
            match index.get(strings[k].as_str()) {
                Some(x) => {
                    if *x != kk {
                        assert(key_value(index@, sv[k as int]) != Some(k as u32));
                        return None;
                    }
                },
                None => {
                    assert(key_value(index@, sv[k as int]) != Some(k as u32));
                    return None;
                },
            }
            k += 1;
        }
        Some(dict)
    }

    /// Reads a dictionary from the CBOR data item at the front of `data`.
    pub fn deserialize(data: &[u8]) -> (r: Result<Self>)
        ensures
            match dictionary_bytes_parse(data@) {
                Some(s) => r matches Ok(d) && d@ == s,
                None => r matches Err(UnivError::DeserializationError { .. }),
            },
    {
        match cbor_decode(data) {
            Some(value) => match Self::from_value(&value) {
                Some(d) => Ok(d),
                None => Err(UnivError::deserialization_error("字符串字典反序列化失败")),
            },
            None => Err(UnivError::deserialization_error("字符串字典反序列化失败")),
        }
    }

    /// Whether the dictionary holds no string.
    pub fn is_empty(&self) -> (r: bool)
        ensures
            r == (self@.len() == 0),
    {
        self.index_to_string.len() == 0
    }
}

/// Law: in a dictionary (its strings distinct), looking a string up gives index `i` exactly
/// when the string at index `i` is that string.
pub proof fn lemma_index_string_agree(d: Seq<Seq<char>>, s: Seq<char>, i: int)
    requires
        strings_distinct(d),
    ensures
        string_position(d, s) == Some(i) <==> (0 <= i < d.len() && d[i] == s),
{
    if 0 <= i < d.len() && d[i] == s {
        lemma_string_position_unique(d, s, i);
    }
    if string_position(d, s) == Some(i) {
        let k = choose|k: int| 0 <= k < d.len() && d[k] == s;
        assert(0 <= k < d.len() && d[k] == s);
    }
}

/// Law: the index that adding a string returns reads back as that string, and adding the same
/// string again returns the same index and leaves the dictionary as it is; no string comes
/// in twice.
pub proof fn lemma_add_string_then_get(d: Seq<Seq<char>>, s: Seq<char>)
    requires
        strings_distinct(d),
    ensures
        match string_position(d, s) {
            Some(i) => 0 <= i < d.len() && d[i] == s,
            None => {
                &&& strings_distinct(d.push(s))
                &&& d.push(s)[d.len() as int] == s
                &&& string_position(d.push(s), s) == Some(d.len() as int)
            },
        },
{
    if string_position(d, s) is None {
        assert forall|i: int, j: int|
            0 <= i < d.push(s).len() && 0 <= j < d.push(s).len() && i != j implies d.push(s)[i]
            != d.push(s)[j] by {
            if i < d.len() && j < d.len() {
            } else if i < d.len() {
                assert(!(d[i] == s));
            } else {
                assert(!(d[j] == s));
            }
        }
        lemma_string_position_unique(d.push(s), s, d.len() as int);
    }
}


impl Default for StringDictionary {
    fn default() -> (r: Self)
        ensures
            r@ == Seq::<Seq<char>>::empty(),
    {
        Self::new()
    }
}


/// The data of one column.
#[derive(Debug, Clone)]
pub enum ColumnData {
    /// Integers.
    Integer(Vec<i64>),
    /// Binary64 floating-point numbers, each held by its bit pattern.
    Float(Vec<u64>),
    /// Texts.
    String(Vec<String>),
    /// Booleans.
    Boolean(Vec<bool>),
    /// Byte strings.
    Bytes(Vec<Vec<u8>>),
    /// Null mask.
    Nulls(Vec<bool>),
}

/// Number of rows of a column.
pub open spec fn column_len(d: ColumnData) -> nat {
    match d {
        ColumnData::Integer(v) => v@.len(),
        ColumnData::Float(v) => v@.len(),
        ColumnData::String(v) => v@.len(),
        ColumnData::Boolean(v) => v@.len(),
        ColumnData::Bytes(v) => v@.len(),
        ColumnData::Nulls(v) => v@.len(),
    }
}

/// The reason given for a column whose row count differs from the table's.
pub open spec fn row_mismatch_text(expected: nat, actual: nat) -> Seq<char> {
    "列行数不匹配: 期望 "@ + decimal_chars(expected) + ", 实际 "@ + decimal_chars(actual)
}

/// Named columns of equal length.
#[derive(Debug, Clone)]
pub struct ColumnarData {
    /// Column names, in order.
    pub column_names: Vec<String>,
    /// Column data, in order.
    pub columns: Vec<ColumnData>,
    /// Number of rows, set by the first column.
    pub row_count: usize,
}

impl ColumnarData {
    /// A table with no columns.
    pub fn new() -> (r: Self)
        ensures
            r.column_names@.len() == 0,
            r.columns@.len() == 0,
            r.row_count == 0,
    {
        ColumnarData { column_names: Vec::new(), columns: Vec::new(), row_count: 0 }
    }

    /// Appends a column; the first column sets the table's row count, and afterwards a
    /// column of another row count is refused.
    pub fn add_column(&mut self, name: String, data: ColumnData) -> (r: Result<()>)
        ensures
            r is Ok <==> (old(self).columns@.len() == 0 || old(self).row_count == column_len(data)),
            r is Ok ==> final(self).column_names@ == old(self).column_names@.push(name)
                && final(self).columns@ == old(self).columns@.push(data) && final(self).row_count
                == if old(self).columns@.len() == 0 {
                column_len(data)
            } else {
                old(self).row_count as nat
            },
            r is Err ==> final(self).column_names@ == old(self).column_names@
                && final(self).columns@ == old(self).columns@ && final(self).row_count
                == old(self).row_count,
            r matches Err(e) ==> (e matches UnivError::InvalidTransform { reason } && reason@
                == row_mismatch_text(old(self).row_count as nat, column_len(data))),
    {
        let column_row_count = match &data {
            ColumnData::Integer(v) => v.len(),
            ColumnData::Float(v) => v.len(),
            ColumnData::String(v) => v.len(),
            ColumnData::Boolean(v) => v.len(),
            ColumnData::Bytes(v) => v.len(),
            ColumnData::Nulls(v) => v.len(),
        };
        if self.columns.len() == 0 {
            self.row_count = column_row_count;
        } else if self.row_count != column_row_count {
            let mut reason = String::from_str("列行数不匹配: 期望 ");
            reason.append(decimal_string(self.row_count as u64).as_str());
            reason.append(", 实际 ");
            reason.append(decimal_string(column_row_count as u64).as_str());
            return Err(UnivError::InvalidTransform { reason });
        }
        self.column_names.push(name);
        self.columns.push(data);
        Ok(())
    }

    /// Number of columns.
    pub fn column_count(&self) -> (r: usize)
        ensures
            r == self.columns@.len(),
    {
        self.columns.len()
    }

    /// Number of rows.
    pub fn row_count(&self) -> (r: usize)
        ensures
            r == self.row_count,
    {
        self.row_count
    }
}

impl Default for ColumnarData {
    fn default() -> (r: Self)
        ensures
            r.column_names@.len() == 0,
            r.columns@.len() == 0,
            r.row_count == 0,
    {
        Self::new()
    }
}

} // verus!
