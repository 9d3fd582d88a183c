//! Canonical encoding of CBOR data items, so that the same content always gives the same
//! bytes and so the same content hash.

use vstd::prelude::*;

pub mod order;
use crate::cbor::{cbor_decode_whole, cbor_whole, CborValue};
use crate::constants::hash_policy;
use crate::error::{Result, UnivError};
use crate::util::hash::{blake3_digest, blake3_hash};
use crate::util::text::{nfc_form, nfc_normalize};
use crate::util::le::{put_u16_le, put_u64_be, u16_le, u64_be};
use crate::util::varint::{leb128_encoding, write_varint, zigzag_encode, zigzag_encode_spec};

verus! {

/// Lexicographic order of byte strings (a proper prefix sorts first).
pub open spec fn lex_le(a: Seq<u8>, b: Seq<u8>) -> bool
    decreases a.len(),
{
    if a.len() == 0 {
        true
    } else if b.len() == 0 {
        false
    } else if a[0] != b[0] {
        a[0] < b[0]
    } else {
        lex_le(a.drop_first(), b.drop_first())
    }
}

/// The binary64 bit pattern is a NaN.
pub open spec fn is_nan_bits(b: u64) -> bool {
    (b >> 52u64) & 0x7ff == 0x7ff && b & 0xf_ffff_ffff_ffff != 0
}

/// The binary64 bit pattern is an infinity.
pub open spec fn is_infinite_bits(b: u64) -> bool {
    (b >> 52u64) & 0x7ff == 0x7ff && b & 0xf_ffff_ffff_ffff == 0
}

/// The binary64 bit pattern is a zero of either sign.
pub open spec fn is_zero_bits(b: u64) -> bool {
    b & 0x7fff_ffff_ffff_ffff == 0
}

/// Canonical bytes of an integer: tag 0x10 and the LEB128 value when non-negative, tag 0x11
/// and the LEB128 ZigZag value (of the value cut to 64 bits) when negative.
pub open spec fn canon_integer(i: i128) -> Seq<u8> {
    if i >= 0 {
        seq![0x10u8] + leb128_encoding((i as u64) as nat)
    } else {
        seq![0x11u8] + leb128_encoding(zigzag_encode_spec((i as i64) as int) as nat)
    }
}

/// Canonical bytes of a text: tag 0x03, LEB128 length, UTF-8 bytes.
pub open spec fn canon_text(t: Seq<char>) -> Seq<u8> {
    seq![0x03u8] + leb128_encoding(vstd::utf8::encode_utf8(t).len()) + vstd::utf8::encode_utf8(t)
}

/// Canonical bytes of a float: tag 0x40 and the big-endian bits, every NaN written as the
/// quiet NaN and both zeros as positive zero; in strict mode NaN and infinities are refused.
pub open spec fn canon_float(strict: bool, bits: u64) -> Option<Seq<u8>> {
    if strict && (is_nan_bits(bits) || is_infinite_bits(bits)) {
        None
    } else {
        let c = if is_nan_bits(bits) {
            0x7ff8000000000000u64
        } else if is_zero_bits(bits) {
            0u64
        } else {
            bits
        };
        Some(seq![0x40u8] + u64_be(c))
    }
}

/// `s` without its leading zero bytes.
pub open spec fn trim_zeros(s: Seq<u8>) -> Seq<u8>
    decreases s.len(),
{
    if s.len() > 0 && s[0] == 0 {
        trim_zeros(s.drop_first())
    } else {
        s
    }
}

/// Canonical bytes of a big integer given as magnitude bytes: leading zeros dropped; zero
/// is 0x20 0x00 (a negative zero is refused in strict mode); otherwise tag 0x20 or 0x21,
/// LEB128 length and the magnitude.
pub open spec fn canon_bigint(strict: bool, v: CborValue, negative: bool) -> Option<Seq<u8>> {
    match v {
        CborValue::Bytes(b) => {
            let t = trim_zeros(b@);
            if t.len() == 0 {
                if negative && strict {
                    None
                } else {
                    Some(seq![0x20u8, 0x00u8])
                }
            } else {
                Some(seq![if negative { 0x21u8 } else { 0x20u8 }] + leb128_encoding(t.len()) + t)
            }
        },
        _ => None,
    }
}

/// A text as the encoder writes it: in Unicode NFC when it normalizes texts, else as it is.
pub open spec fn text_form(enc: CanonicalEncoder, t: Seq<char>) -> Seq<char> {
    if enc.normalize_strings {
        nfc_form(t)
    } else {
        t
    }
}

/// Canonical bytes of a data item under the encoder's options (text normalization, strict
/// checks), or `None` where the item cannot be encoded canonically.
pub open spec fn canon_value(enc: CanonicalEncoder, v: CborValue) -> Option<Seq<u8>>
    decreases v, 1nat,
{
    match v {
        CborValue::Integer(i) => Some(canon_integer(i)),
        CborValue::Bytes(b) => Some(seq![0x02u8] + leb128_encoding(b@.len()) + b@),
        CborValue::Text(t) => Some(canon_text(text_form(enc, t@))),
        CborValue::Array(items) => match canon_items(enc, items@) {
            Some(body) => Some(seq![0x04u8] + leb128_encoding(items@.len()) + body),
            None => None,
        },
        CborValue::Dict(entries) => canon_map(enc, entries@),
        CborValue::Tag(t, inner) => if t == 2 {
            canon_bigint(enc.strict_mode, *inner, false)
        } else if t == 3 {
            canon_bigint(enc.strict_mode, *inner, true)
        } else if t == 4 {
            canon_decimal(enc, *inner)
        } else {
            match canon_value(enc, *inner) {
                Some(b) => Some(seq![0x06u8] + leb128_encoding(t as nat) + b),
                None => None,
            }
        },
        CborValue::Float(bits) => canon_float(enc.strict_mode, bits),
        CborValue::Bool(b) => Some(seq![if b { 0x01u8 } else { 0x00u8 }]),
        CborValue::Null => Some(seq![0x07u8]),
        CborValue::Other => None,
    }
}

/// Concatenated canonical bytes of a sequence of items.
pub open spec fn canon_items(enc: CanonicalEncoder, s: Seq<CborValue>) -> Option<Seq<u8>>
    decreases s, 1nat,
{
    if s.len() == 0 {
        Some(Seq::empty())
    } else {
        match (canon_items(enc, s.drop_last()), canon_value(enc, s.last())) {
            (Some(a), Some(b)) => Some(a + b),
            _ => None,
        }
    }
}

/// Canonical bytes of the keys of map entries, one per entry.
pub open spec fn canon_keys(enc: CanonicalEncoder, es: Seq<(CborValue, CborValue)>) -> Option<Seq<Seq<u8>>>
    decreases es, 1nat,
{
    if es.len() == 0 {
        Some(Seq::empty())
    } else {
        match (canon_keys(enc, es.drop_last()), canon_value(enc, es.last().0)) {
            (Some(a), Some(b)) => Some(a.push(b)),
            _ => None,
        }
    }
}

/// Canonical bytes of the values of map entries, one per entry.
pub open spec fn canon_vals(enc: CanonicalEncoder, es: Seq<(CborValue, CborValue)>) -> Option<Seq<Seq<u8>>>
    decreases es, 1nat,
{
    if es.len() == 0 {
        Some(Seq::empty())
    } else {
        match (canon_vals(enc, es.drop_last()), canon_value(enc, es.last().1)) {
            (Some(a), Some(b)) => Some(a.push(b)),
            _ => None,
        }
    }
}

/// Canonical bytes of a map: tag 0x05, LEB128 entry count, then each entry's key and value
/// bytes, entries sorted stably by their key bytes.
pub open spec fn canon_map(enc: CanonicalEncoder, es: Seq<(CborValue, CborValue)>) -> Option<Seq<u8>>
    decreases es, 2nat,
{
    match (canon_keys(enc, es), canon_vals(enc, es)) {
        (Some(ks), Some(vs)) => Some(
            seq![0x05u8] + leb128_encoding(es.len()) + concat_in_order(ks, vs, sort_order(ks)),
        ),
        _ => None,
    }
}

/// Canonical bytes of a decimal `[scale, mantissa]`: tag 0x30, the LEB128 ZigZag scale (cut
/// to 32 bits) and the mantissa's canonical bytes; a NaN or infinite mantissa is refused.
pub open spec fn canon_decimal(enc: CanonicalEncoder, v: CborValue) -> Option<Seq<u8>>
    decreases v, 1nat,
{
    match v {
        CborValue::Array(parts) => if parts@.len() != 2 {
            None
        } else if parts@[1] matches CborValue::Float(f) && (is_nan_bits(f) || is_infinite_bits(f)) {
            None
        } else {
            match parts@[0] {
                CborValue::Integer(s) => match canon_value(enc, parts@[1]) {
                    Some(m) => Some(
                        seq![0x30u8] + leb128_encoding(
                            zigzag_encode_spec(((s as i32) as i64) as int) as nat,
                        ) + m,
                    ),
                    None => None,
                },
                _ => None,
            }
        },
        _ => None,
    }
}

/// Position at which a key `k` goes into a sorted order: before the first key greater than it.
pub open spec fn insert_pos(order: Seq<int>, ks: Seq<Seq<u8>>, k: Seq<u8>) -> int
    decreases order.len(),
{
    if order.len() == 0 {
        0
    } else if !lex_le(ks[order[0]], k) {
        0
    } else {
        1 + insert_pos(order.drop_first(), ks, k)
    }
}

/// Stable insertion sort of the indices of `ks` by key bytes.
pub open spec fn sort_order(ks: Seq<Seq<u8>>) -> Seq<int>
    decreases ks.len(),
{
    if ks.len() == 0 {
        Seq::empty()
    } else {
        let prev = sort_order(ks.drop_last());
        let i = ks.len() - 1;
        prev.insert(insert_pos(prev, ks, ks[i]), i)
    }
}

/// Key and value bytes of the entries taken in `order`.
pub open spec fn concat_in_order(ks: Seq<Seq<u8>>, vs: Seq<Seq<u8>>, order: Seq<int>) -> Seq<u8>
    decreases order.len(),
{
    if order.len() == 0 {
        Seq::empty()
    } else {
        concat_in_order(ks, vs, order.drop_last()) + ks[order.last()] + vs[order.last()]
    }
}


/// Byte views of a vector of byte vectors.
pub open spec fn bytes_views(v: Seq<Vec<u8>>) -> Seq<Seq<u8>> {
    v.map_values(|b: Vec<u8>| b@)
}

/// Integer views of a vector of indices.
pub open spec fn index_views(v: Seq<usize>) -> Seq<int> {
    v.map_values(|x: usize| x as int)
}

proof fn lemma_canon_items_prefix(enc: CanonicalEncoder, s: Seq<CborValue>, k: int)
    requires
        0 <= k <= s.len(),
        canon_items(enc, s.take(k)) is None,
    ensures
        canon_items(enc, s) is None,
    decreases s.len() - k,
{
    if k < s.len() {
        assert(s.take(k + 1).drop_last() =~= s.take(k));
        lemma_canon_items_prefix(enc, s, k + 1);
    } else {
        assert(s.take(k) =~= s);
    }
}

proof fn lemma_canon_keys_prefix(enc: CanonicalEncoder, s: Seq<(CborValue, CborValue)>, k: int)
    requires
        0 <= k <= s.len(),
        canon_keys(enc, s.take(k)) is None || canon_vals(enc, s.take(k)) is None,
    ensures
        canon_keys(enc, s) is None || canon_vals(enc, s) is None,
    decreases s.len() - k,
{
    if k < s.len() {
        assert(s.take(k + 1).drop_last() =~= s.take(k));
        lemma_canon_keys_prefix(enc, s, k + 1);
    } else {
        assert(s.take(k) =~= s);
    }
}

proof fn lemma_keys_len(enc: CanonicalEncoder, s: Seq<(CborValue, CborValue)>)
    ensures
        canon_keys(enc, s) matches Some(ks) ==> ks.len() == s.len(),
        canon_vals(enc, s) matches Some(vs) ==> vs.len() == s.len(),
    decreases s.len(),
{
    if s.len() > 0 {
        lemma_keys_len(enc, s.drop_last());
    }
}

/// A sorted order holds every index once, each below the number of keys.
proof fn lemma_sort_order_bounds(ks: Seq<Seq<u8>>)
    ensures
        sort_order(ks).len() == ks.len(),
        forall|j: int| 0 <= j < ks.len() ==> 0 <= #[trigger] sort_order(ks)[j] < ks.len(),
    decreases ks.len(),
{
    if ks.len() > 0 {
        let prev = sort_order(ks.drop_last());
        lemma_sort_order_bounds(ks.drop_last());
        lemma_insert_pos_bounds(prev, ks, ks[ks.len() - 1]);
    }
}

proof fn lemma_insert_pos_bounds(order: Seq<int>, ks: Seq<Seq<u8>>, k: Seq<u8>)
    ensures
        0 <= insert_pos(order, ks, k) <= order.len(),
    decreases order.len(),
{
    if order.len() > 0 {
        lemma_insert_pos_bounds(order.drop_first(), ks, k);
    }
}

/// The insertion position only reads the keys the order names.
proof fn lemma_insert_pos_agree(order: Seq<int>, ks1: Seq<Seq<u8>>, ks2: Seq<Seq<u8>>, k: Seq<u8>)
    requires
        forall|j: int| 0 <= j < order.len() ==> ks1[#[trigger] order[j]] == ks2[order[j]],
    ensures
        insert_pos(order, ks1, k) == insert_pos(order, ks2, k),
    decreases order.len(),
{
    if order.len() > 0 {
        assert(ks1[order[0]] == ks2[order[0]]);
        lemma_insert_pos_agree(order.drop_first(), ks1, ks2, k);
    }
}

/// The canonical encoder, with its options.
pub struct CanonicalEncoder {
    /// Normalize texts to Unicode NFC.
    pub normalize_strings: bool,
    /// Refuse NaN and infinite floats and negative big-integer zeros.
    pub strict_mode: bool,
}

impl Default for CanonicalEncoder {
    fn default() -> (r: Self)
        ensures
            r.normalize_strings && r.strict_mode,
    {
        CanonicalEncoder { normalize_strings: true, strict_mode: true }
    }
}

/// Whether the bits are a NaN.
fn bits_is_nan(b: u64) -> (r: bool)
    ensures
        r == is_nan_bits(b),
{
    (b >> 52u64) & 0x7ff == 0x7ff && b & 0xf_ffff_ffff_ffff != 0
}

/// Whether the bits are an infinity.
fn bits_is_infinite(b: u64) -> (r: bool)
    ensures
        r == is_infinite_bits(b),
{
    (b >> 52u64) & 0x7ff == 0x7ff && b & 0xf_ffff_ffff_ffff == 0
}

/// How two encoded map keys are ordered.
#[derive(Debug, Clone, Copy, PartialEq, Eq, Structural)]
enum KeyOrder {
    Less,
    Equal,
    Greater,
}

impl CanonicalEncoder {
    /// An encoder with NFC normalization and strict checks.
    pub fn new() -> (r: Self)
        ensures
            r.normalize_strings && r.strict_mode,
    {
        Self::default()
    }

    /// An encoder with NFC normalization and strict checks.
    pub fn strict() -> (r: Self)
        ensures
            r.normalize_strings && r.strict_mode,
    {
        CanonicalEncoder { normalize_strings: true, strict_mode: true }
    }

    /// A faster encoder without normalization or strict checks.
    pub fn fast() -> (r: Self)
        ensures
            !r.normalize_strings && !r.strict_mode,
    {
        CanonicalEncoder { normalize_strings: false, strict_mode: false }
    }

    /// Canonical bytes of a data item.
    pub fn encode_cbor_value(&self, value: &CborValue) -> (r: Result<Vec<u8>>)
        ensures
            match canon_value(*self, *value) {
                Some(b) => r matches Ok(x) && x@ == b,
                None => r is Err,
            },
        decreases value, 2nat,
    {
        let mut buffer: Vec<u8> = Vec::new();
        self.encode_value_to_buffer(value, &mut buffer)?;
        assert(buffer@ =~= Seq::<u8>::empty() + buffer@);
        Ok(buffer)
    }

    /// Appends the canonical bytes of a data item.
    fn encode_value_to_buffer(&self, value: &CborValue, buffer: &mut Vec<u8>) -> (r: Result<()>)
        ensures
            match canon_value(*self, *value) {
                Some(b) => r is Ok && final(buffer)@ == old(buffer)@ + b,
                None => r is Err,
            },
        decreases value, 1nat,
    {
        match value {
            CborValue::Integer(i) => {
                self.encode_integer_canonical(*i, buffer)
            },
            CborValue::Bytes(bytes) => {
                buffer.push(0x02);
                write_varint(buffer, bytes.len() as u64)?;
                buffer.extend_from_slice(bytes.as_slice());
                assert(final(buffer)@ =~= old(buffer)@ + (seq![0x02u8] + leb128_encoding(
                    bytes@.len(),
                ) + bytes@));
                Ok(())
            },
            CborValue::Text(text) => {
                self.encode_string_canonical(text.as_str(), buffer)
            },
            CborValue::Array(array) => {
                self.encode_array_canonical(array, buffer)
            },
            CborValue::Dict(map) => {
                self.encode_map_canonical(map, buffer)
            },
            CborValue::Tag(tag, inner) => {
                if *tag == 2 {
                    self.encode_bigint_canonical(inner, false, buffer)
                } else if *tag == 3 {
                    self.encode_bigint_canonical(inner, true, buffer)
                } else if *tag == 4 {
                    self.encode_decimal_canonical(inner, buffer)
                } else {
                    let ghost start = buffer@;
                    buffer.push(0x06);
                    write_varint(buffer, *tag)?;
                    let ghost mid = buffer@;
                    self.encode_value_to_buffer(inner, buffer)?;
                    assert(final(buffer)@ =~= start + (seq![0x06u8] + leb128_encoding(*tag as nat)
                        + (final(buffer)@.skip(mid.len() as int))));
                    assert(final(buffer)@.skip(mid.len() as int) =~= canon_value(
                        *self,
                        **inner,
                    ).unwrap());
                    Ok(())
                }
            },
            CborValue::Float(bits) => {
                self.encode_float_canonical(*bits, buffer)
            },
            CborValue::Bool(b) => {
                buffer.push(if *b { 0x01 } else { 0x00 });
                Ok(())
            },
            CborValue::Null => {
                buffer.push(0x07);
                Ok(())
            },
            CborValue::Other => {
                Err(UnivError::serialization_error("unsupported CBOR value for canonical encoding"))
            },
        }
    }

    /// Appends the canonical bytes of an integer.
    fn encode_integer_canonical(&self, int_val: i128, buffer: &mut Vec<u8>) -> (r: Result<()>)
        ensures
            r is Ok,
            final(buffer)@ == old(buffer)@ + canon_integer(int_val),
    {
        if int_val >= 0 {
            buffer.push(0x10);
            write_varint(buffer, int_val as u64)?;
        } else {
            buffer.push(0x11);
            let zigzag = zigzag_encode(int_val as i64);
            write_varint(buffer, zigzag)?;
        }
        assert(final(buffer)@ =~= old(buffer)@ + canon_integer(int_val));
        Ok(())
    }

    /// Appends the canonical bytes of a text.
    fn encode_string_canonical(&self, text: &str, buffer: &mut Vec<u8>) -> (r: Result<()>)
        ensures
            r is Ok,
            final(buffer)@ == old(buffer)@ + canon_text(text_form(*self, text@)),
    {
        buffer.push(0x03);
        let normalized_text = if self.normalize_strings {
            self.normalize_unicode_nfc(text)?
        } else {
            text.to_owned()
        };
        let utf8_bytes = normalized_text.as_str().as_bytes();
        write_varint(buffer, utf8_bytes.len() as u64)?;
        buffer.extend_from_slice(utf8_bytes);
        assert(final(buffer)@ =~= old(buffer)@ + canon_text(text_form(*self, text@)));
        Ok(())
    }

    /// Appends the canonical bytes of an array.
    fn encode_array_canonical(&self, array: &Vec<CborValue>, buffer: &mut Vec<u8>) -> (r: Result<()>)
        ensures
            match canon_items(*self, array@) {
                Some(b) => r is Ok && final(buffer)@ == old(buffer)@ + (seq![0x04u8]
                    + leb128_encoding(array@.len()) + b),
                None => r is Err,
            },
        decreases array, 1nat,
    {
        buffer.push(0x04);
        write_varint(buffer, array.len() as u64)?;
        let ghost start = buffer@;
        let mut i: usize = 0;
        assert(array@.take(0) =~= Seq::<CborValue>::empty());
        assert(buffer@ =~= start + Seq::<u8>::empty());
        while i < array.len()
            invariant
                i <= array@.len(),
                canon_items(*self, array@.take(i as int)) matches Some(acc) && buffer@
                    == start + acc,
                start == old(buffer)@ + seq![0x04u8] + leb128_encoding(array@.len()),
            decreases array@.len() - i,
        {
            let ghost acc = canon_items(*self, array@.take(i as int)).unwrap();
            assert(array@.take(i + 1).drop_last() =~= array@.take(i as int));
            assert(array@.take(i + 1).last() == array@[i as int]);
            assert(decreases_to!(array => array@[i as int]));
            match self.encode_value_to_buffer(&array[i], buffer) {
                Ok(()) => {},
                Err(e) => {
                    proof {
                        lemma_canon_items_prefix(*self, array@, i + 1);
                    }
                    return Err(e);
                },
            }
            assert(buffer@ =~= start + canon_items(*self, array@.take(i + 1)).unwrap());
            i += 1;
        }
        assert(array@.take(i as int) =~= array@);
        Ok(())
    }

    /// Appends the canonical bytes of a map: entries sorted stably by their key bytes.
    fn encode_map_canonical(&self, map: &Vec<(CborValue, CborValue)>, buffer: &mut Vec<u8>) -> (r:
        Result<()>)
        ensures
            match canon_map(*self, map@) {
                Some(b) => r is Ok && final(buffer)@ == old(buffer)@ + b,
                None => r is Err,
            },
        decreases map, 2nat,
    {
        let ghost strict = *self;
        buffer.push(0x05);
        write_varint(buffer, map.len() as u64)?;
        let ghost start = buffer@;
        // Encode every key and value.
        let mut keys: Vec<Vec<u8>> = Vec::new();
        let mut vals: Vec<Vec<u8>> = Vec::new();
        let mut i: usize = 0;
        assert(map@.take(0) =~= Seq::<(CborValue, CborValue)>::empty());
        assert(bytes_views(keys@) =~= Seq::<Seq<u8>>::empty());
        assert(bytes_views(vals@) =~= Seq::<Seq<u8>>::empty());
        while i < map.len()
            invariant
                i <= map@.len(),
                strict == *self,
                canon_keys(strict, map@.take(i as int)) == Some(bytes_views(keys@)),
                canon_vals(strict, map@.take(i as int)) == Some(bytes_views(vals@)),
            decreases map@.len() - i,
        {
            assert(map@.take(i + 1).drop_last() =~= map@.take(i as int));
            assert(map@.take(i + 1).last() == map@[i as int]);
            assert(decreases_to!(map => map@[i as int].0));
            assert(decreases_to!(map => map@[i as int].1));
            let key = match self.encode_cbor_value(&map[i].0) {
                Ok(k) => k,
                Err(e) => {
                    proof {
                        lemma_canon_keys_prefix(strict, map@, i + 1);
                    }
                    return Err(e);
                },
            };
            let val = match self.encode_cbor_value(&map[i].1) {
                Ok(v) => v,
                Err(e) => {
                    proof {
                        lemma_canon_keys_prefix(strict, map@, i + 1);
                    }
                    return Err(e);
                },
            };
            keys.push(key);
            vals.push(val);
            assert(bytes_views(keys@) =~= canon_keys(strict, map@.take(i + 1)).unwrap());
            assert(bytes_views(vals@) =~= canon_vals(strict, map@.take(i + 1)).unwrap());
            i += 1;
        }
        assert(map@.take(i as int) =~= map@);
        let ghost ks = bytes_views(keys@);
        let ghost vs = bytes_views(vals@);
        // Stable insertion sort of the entry indices by key bytes.
        let mut order: Vec<usize> = Vec::new();
        let mut j: usize = 0;
        assert(ks.take(0) =~= Seq::<Seq<u8>>::empty());
        assert(index_views(order@) =~= Seq::<int>::empty());
        while j < keys.len()
            invariant
                j <= keys@.len(),
                ks == bytes_views(keys@),
                index_views(order@) == sort_order(ks.take(j as int)),
            decreases keys@.len() - j,
        {
            proof {
                lemma_sort_order_bounds(ks.take(j as int));
                assert forall|q: int| 0 <= q < order@.len() implies #[trigger] order@[q] < keys@.len() by {
                    assert(index_views(order@)[q] == order@[q] as int);
                }
            }
            let ghost prev = index_views(order@);
            let pos = self.find_insert_pos(&keys, &order, j);
            order.insert(pos, j);
            proof {
                let t = ks.take(j + 1);
                assert(t.drop_last() =~= ks.take(j as int));
                assert forall|q: int| 0 <= q < prev.len() implies ks[#[trigger] prev[q]] == t[prev[q]] by {
                    assert(0 <= prev[q] < j);
                }
                lemma_insert_pos_agree(prev, ks, t, ks[j as int]);
                assert(index_views(order@) =~= prev.insert(pos as int, j as int));
            }
            j += 1;
        }
        assert(ks.take(j as int) =~= ks);
        proof {
            lemma_sort_order_bounds(ks);
            lemma_keys_len(strict, map@);
        }
        // Write the entries in sorted order.
        let ghost ord = index_views(order@);
        let mut k: usize = 0;
        assert(ord.take(0) =~= Seq::<int>::empty());
        assert(buffer@ =~= start + concat_in_order(ks, vs, ord.take(0)));
        while k < order.len()
            invariant
                k <= order@.len(),
                ord == index_views(order@),
                ord.len() == ks.len(),
                ks.len() == keys@.len(),
                vs.len() == vals@.len(),
                ks.len() == vs.len(),
                ks == bytes_views(keys@),
                vs == bytes_views(vals@),
                forall|q: int| 0 <= q < ord.len() ==> 0 <= #[trigger] ord[q] < ks.len(),
                buffer@ == start + concat_in_order(ks, vs, ord.take(k as int)),
            decreases order@.len() - k,
        {
            let idx = order[k];
            assert(ord[k as int] == idx as int);
            buffer.extend_from_slice(keys[idx].as_slice());
            buffer.extend_from_slice(vals[idx].as_slice());
            assert(ord.take(k + 1).drop_last() =~= ord.take(k as int));
            assert(buffer@ =~= start + concat_in_order(ks, vs, ord.take(k + 1)));
            k += 1;
        }
        assert(ord.take(k as int) =~= ord);
        assert(final(buffer)@ =~= old(buffer)@ + (seq![0x05u8] + leb128_encoding(map@.len())
            + concat_in_order(ks, vs, sort_order(ks))));
        Ok(())
    }

    /// Order of two encoded map keys: by their first (type) byte, then lexicographically.
    fn compare_canonical_keys(&self, a: &[u8], b: &[u8]) -> (r: KeyOrder)
        ensures
            (r == KeyOrder::Greater) <==> !lex_le(a@, b@),
            (r == KeyOrder::Equal) <==> a@ == b@,
    {
        if a.len() > 0 && b.len() > 0 {
            if a[0] < b[0] {
                assert(a@ != b@ && lex_le(a@, b@));
                return KeyOrder::Less;
            }
            if a[0] > b[0] {
                return KeyOrder::Greater;
            }
        }
        let mut i: usize = 0;
        assert(a@.skip(0) =~= a@ && b@.skip(0) =~= b@);
        while i < a.len() && i < b.len()
            invariant
                i <= a@.len(),
                i <= b@.len(),
                lex_le(a@, b@) == lex_le(a@.skip(i as int), b@.skip(i as int)),
                forall|j: int| 0 <= j < i ==> a@[j] == b@[j],
            decreases a@.len() - i,
        {
            if a[i] < b[i] {
                assert(a@[i as int] != b@[i as int]);
                return KeyOrder::Less;
            }
            if a[i] > b[i] {
                assert(a@[i as int] != b@[i as int]);
                return KeyOrder::Greater;
            }
            assert(a@.skip(i as int).drop_first() =~= a@.skip(i + 1));
            assert(b@.skip(i as int).drop_first() =~= b@.skip(i + 1));
            i += 1;
        }
        if a.len() < b.len() {
            assert(a@.len() != b@.len());
            KeyOrder::Less
        } else if a.len() == b.len() {
            assert(a@ =~= b@);
            KeyOrder::Equal
        } else {
            assert(a@.skip(i as int).len() > 0 && b@.skip(i as int).len() == 0);
            KeyOrder::Greater
        }
    }

    /// Position at which key `j` goes into the sorted `order`: before the first greater key.
    fn find_insert_pos(&self, keys: &Vec<Vec<u8>>, order: &Vec<usize>, j: usize) -> (r: usize)
        requires
            j < keys@.len(),
            forall|q: int| 0 <= q < order@.len() ==> #[trigger] order@[q] < keys@.len(),
        ensures
            r as int == insert_pos(index_views(order@), bytes_views(keys@), keys@[j as int]@),
            r <= order@.len(),
    {
        let ghost ov = index_views(order@);
        let ghost ks = bytes_views(keys@);
        let ghost key = keys@[j as int]@;
        let mut p: usize = 0;
        assert(ov.skip(0) =~= ov);
        while p < order.len() && self.compare_canonical_keys(keys[order[p]].as_slice(), keys[j].as_slice())
            != KeyOrder::Greater
            invariant
                p <= order@.len(),
                ov == index_views(order@),
                ks == bytes_views(keys@),
                key == keys@[j as int]@,
                j < keys@.len(),
                forall|q: int| 0 <= q < order@.len() ==> #[trigger] order@[q] < keys@.len(),
                insert_pos(ov, ks, key) == p + insert_pos(ov.skip(p as int), ks, key),
            decreases order@.len() - p,
        {
            assert(ov.skip(p as int).drop_first() =~= ov.skip(p + 1));
            assert(ov.skip(p as int)[0] == ov[p as int]);
            p += 1;
        }
        if p < order.len() {
            assert(ov.skip(p as int)[0] == ov[p as int]);
        }
        p
    }

    /// Appends the canonical bytes of a big integer given as magnitude bytes.
    fn encode_bigint_canonical(&self, value: &CborValue, is_negative: bool, buffer: &mut Vec<u8>) -> (r:
        Result<()>)
        ensures
            match canon_bigint(self.strict_mode, *value, is_negative) {
                Some(b) => r is Ok && final(buffer)@ == old(buffer)@ + b,
                None => r is Err,
            },
    {
        match value {
            CborValue::Bytes(bigint_bytes) => {
                let trimmed_bytes = self.trim_leading_zeros(bigint_bytes.as_slice());
                if trimmed_bytes.len() == 0 {
                    if is_negative && self.strict_mode {
                        return Err(UnivError::serialization_error("big integer cannot be negative zero"));
                    }
                    buffer.push(0x20);
                    buffer.push(0x00);
                    assert(final(buffer)@ =~= old(buffer)@ + seq![0x20u8, 0x00u8]);
                    return Ok(());
                }
                if is_negative {
                    buffer.push(0x21);
                } else {
                    buffer.push(0x20);
                }
                write_varint(buffer, trimmed_bytes.len() as u64)?;
                buffer.extend_from_slice(trimmed_bytes);
                assert(final(buffer)@ =~= old(buffer)@ + canon_bigint(
                    self.strict_mode,
                    *value,
                    is_negative,
                ).unwrap());
                Ok(())
            },
            _ => Err(UnivError::serialization_error("big integer value must be a byte string")),
        }
    }

    /// Appends the canonical bytes of a decimal `[scale, mantissa]`.
    fn encode_decimal_canonical(&self, value: &CborValue, buffer: &mut Vec<u8>) -> (r: Result<()>)
        ensures
            match canon_decimal(*self, *value) {
                Some(b) => r is Ok && final(buffer)@ == old(buffer)@ + b,
                None => r is Err,
            },
        decreases value, 1nat,
    {
        match value {
            CborValue::Array(decimal_parts) => {
                if decimal_parts.len() != 2 {
                    return Err(UnivError::serialization_error("decimal needs a scale and a mantissa"));
                }
                match &decimal_parts[1] {
                    CborValue::Float(f) => {
                        if bits_is_nan(*f) || bits_is_infinite(*f) {
                            return Err(UnivError::serialization_error("decimal cannot be NaN or infinite"));
                        }
                    },
                    _ => {},
                }
                let ghost start = buffer@;
                buffer.push(0x30);
                match &decimal_parts[0] {
                    CborValue::Integer(scale) => {
                        let scale_val = *scale as i32;
                        let zigzag_scale = zigzag_encode(scale_val as i64);
                        write_varint(buffer, zigzag_scale)?;
                    },
                    _ => {
                        return Err(UnivError::serialization_error("decimal scale must be an integer"));
                    },
                }
                let ghost mid = buffer@;
                assert(decreases_to!(decimal_parts => decimal_parts@[1]));
                self.encode_value_to_buffer(&decimal_parts[1], buffer)?;
                assert(final(buffer)@ =~= mid + final(buffer)@.skip(mid.len() as int));
                assert(final(buffer)@ =~= start + canon_decimal(*self, *value).unwrap());
                Ok(())
            },
            _ => Err(UnivError::serialization_error("decimal value must be an array")),
        }
    }

    /// Appends the canonical bytes of a float given by its binary64 bits.
    fn encode_float_canonical(&self, float_bits: u64, buffer: &mut Vec<u8>) -> (r: Result<()>)
        ensures
            match canon_float(self.strict_mode, float_bits) {
                Some(b) => r is Ok && final(buffer)@ == old(buffer)@ + b,
                None => r is Err,
            },
    {
        let nan = bits_is_nan(float_bits);
        if self.strict_mode && (nan || bits_is_infinite(float_bits)) {
            return Err(UnivError::serialization_error("NaN and infinity are refused in strict mode"));
        }
        buffer.push(0x40);
        let canonical_bits = if nan {
            0x7ff8000000000000u64
        } else if float_bits & 0x7fff_ffff_ffff_ffff == 0 {
            0u64
        } else {
            float_bits
        };
        put_u64_be(buffer, canonical_bits);
        assert(final(buffer)@ =~= old(buffer)@ + canon_float(self.strict_mode, float_bits).unwrap());
        Ok(())
    }

    /// The text in Unicode Normalization Form C.
    fn normalize_unicode_nfc(&self, text: &str) -> (r: Result<String>)
        ensures
            r matches Ok(s) && s@ == nfc_form(text@),
    {
        Ok(nfc_normalize(text))
    }

    /// `bytes` without its leading zero bytes.
    fn trim_leading_zeros<'a>(&self, bytes: &'a [u8]) -> (r: &'a [u8])
        ensures
            r@ == trim_zeros(bytes@),
    {
        let mut start: usize = 0;
        assert(bytes@.skip(0) =~= bytes@);
        while start < bytes.len() && bytes[start] == 0
            invariant
                start <= bytes@.len(),
                trim_zeros(bytes@) == trim_zeros(bytes@.skip(start as int)),
            decreases bytes@.len() - start,
        {
            assert(bytes@.skip(start as int).drop_first() =~= bytes@.skip(start + 1));
            start += 1;
        }
        assert(bytes@.subrange(start as int, bytes@.len() as int) =~= bytes@.skip(start as int));
        &bytes[start..bytes.len()]
    }
}


/// Bytes of an optional byte slice.
pub open spec fn opt_bytes(o: Option<&[u8]>) -> Option<Seq<u8>> {
    match o {
        Some(s) => Some(s@),
        None => None,
    }
}

/// The bytes a content hash covers: chunk kind, little-endian transform flags, hash policy,
/// the schema reference (0x01, LEB128 length, bytes) or 0x00, then the payload. Under the
/// payload-inclusive policy the payload is the raw bytes; otherwise, when the raw bytes are
/// exactly one CBOR item (`decoded`), its strict canonical bytes (`None` when it has none),
/// and the raw bytes when they are not.
pub open spec fn canonical_payload(
    chunk_kind: u8,
    transform_flags: u16,
    schema_ref: Option<Seq<u8>>,
    hash_policy: u8,
    raw: Seq<u8>,
    decoded: Option<CborValue>,
) -> Option<Seq<u8>> {
    let head = seq![chunk_kind] + u16_le(transform_flags) + seq![hash_policy] + match schema_ref {
        Some(s) => seq![0x01u8] + leb128_encoding(s.len()) + s,
        None => seq![0x00u8],
    };
    if hash_policy == hash_policy::PAYLOAD_INCLUSIVE {
        Some(head + raw)
    } else {
        match decoded {
            Some(v) => match canon_value(CanonicalEncoder { normalize_strings: true, strict_mode: true }, v) {
                Some(c) => Some(head + c),
                None => None,
            },
            None => Some(head + raw),
        }
    }
}

/// Builds the bytes a content hash covers, given what the raw payload reads as in CBOR.
pub fn canonical_content_payload(
    chunk_kind: u8,
    transform_flags: u16,
    schema_ref: Option<&[u8]>,
    hash_policy: u8,
    raw_payload: &[u8],
    decoded: Option<CborValue>,
) -> (r: Result<Vec<u8>>)
    ensures
        match canonical_payload(
            chunk_kind,
            transform_flags,
            opt_bytes(schema_ref),
            hash_policy,
            raw_payload@,
            decoded,
        ) {
            Some(p) => r matches Ok(x) && x@ == p,
            None => r is Err,
        },
{
    let encoder = CanonicalEncoder::new();
    let mut canonical_payload: Vec<u8> = Vec::new();
    canonical_payload.push(chunk_kind);
    put_u16_le(&mut canonical_payload, transform_flags);
    canonical_payload.push(hash_policy);
    match schema_ref {
        Some(schema_ref) => {
            canonical_payload.push(0x01);
            write_varint(&mut canonical_payload, schema_ref.len() as u64)?;
            canonical_payload.extend_from_slice(schema_ref);
        },
        None => {
            canonical_payload.push(0x00);
        },
    }
    let ghost head = canonical_payload@;
    assert(head =~= seq![chunk_kind] + u16_le(transform_flags) + seq![hash_policy] + match opt_bytes(
        schema_ref,
    ) {
        Some(s) => seq![0x01u8] + leb128_encoding(s.len()) + s,
        None => seq![0x00u8],
    });
    if hash_policy == hash_policy::PAYLOAD_INCLUSIVE {
        canonical_payload.extend_from_slice(raw_payload);
    } else {
        match decoded {
            Some(cbor_value) => {
                let canonical_cbor = encoder.encode_cbor_value(&cbor_value)?;
                canonical_payload.extend_from_slice(canonical_cbor.as_slice());
            },
            None => {
                canonical_payload.extend_from_slice(raw_payload);
            },
        }
    }
    Ok(canonical_payload)
}

/// Content hash of a DataNode or Blob payload: BLAKE3 of its canonical bytes.
pub fn compute_canonical_content_hash(
    chunk_kind: u8,
    transform_flags: u16,
    schema_ref: Option<&[u8]>,
    hash_policy: u8,
    raw_payload: &[u8],
) -> (r: Result<Vec<u8>>)
    ensures
        match canonical_payload(
            chunk_kind,
            transform_flags,
            opt_bytes(schema_ref),
            hash_policy,
            raw_payload@,
            cbor_whole(raw_payload@),
        ) {
            Some(p) => r matches Ok(h) && h@ == blake3_digest(p) && h@.len() == 32,
            None => r is Err,
        },
{
    let decoded = if hash_policy == hash_policy::PAYLOAD_INCLUSIVE {
        None
    } else {
        cbor_decode_whole(raw_payload)
    };
    let payload = canonical_content_payload(
        chunk_kind,
        transform_flags,
        schema_ref,
        hash_policy,
        raw_payload,
        decoded,
    )?;
    Ok(blake3_hash(payload.as_slice()))
}

/// Law: a text item is the tag 0x03, a LEB128 length and the UTF-8 bytes of the text in the
/// form written (NFC when the encoder normalizes), and its length prefix delimits exactly
/// those bytes: however the bytes after the tag split into a LEB128 number `n` and the rest,
/// the rest is `n` bytes long and is the text's UTF-8, so it ends the item.
pub proof fn lemma_text_item_delimited(enc: CanonicalEncoder, t: String)
    ensures
        canon_value(enc, CborValue::Text(t)) matches Some(e) && e[0] == 0x03u8 && forall|
            n: nat,
            rest: Seq<u8>,
        |
            e == seq![0x03u8] + #[trigger] (leb128_encoding(n) + rest) ==> rest.len() == n && rest
                == vstd::utf8::encode_utf8(text_form(enc, t@)),
{
    let u = vstd::utf8::encode_utf8(text_form(enc, t@));
    let e = canon_value(enc, CborValue::Text(t)).unwrap();
    assert(e == seq![0x03u8] + leb128_encoding(u.len()) + u);
    assert forall|n: nat, rest: Seq<u8>|
        e == seq![0x03u8] + #[trigger] (leb128_encoding(n) + rest) implies rest.len() == n && rest == u by {
        assert(e.drop_first() =~= leb128_encoding(n) + rest);
        assert(e.drop_first() =~= leb128_encoding(u.len()) + u);
        crate::util::varint::lemma_leb128_prefix_free(n, u.len(), rest, u);
    }
}

/// Law: the bytes a content hash covers determine the chunk kind, the transform flags, the
/// hash policy and the schema reference: for the same payload, two different schema
/// references (or a reference and none), kinds, flag words or policies give different bytes
/// to hash.
pub proof fn lemma_content_payload_determines_schema_ref(
    k1: u8,
    f1: u16,
    p1: u8,
    s1: Option<Seq<u8>>,
    k2: u8,
    f2: u16,
    p2: u8,
    s2: Option<Seq<u8>>,
    raw: Seq<u8>,
    decoded: Option<CborValue>,
)
    ensures
        canonical_payload(k1, f1, s1, p1, raw, decoded) matches Some(a) ==> (canonical_payload(
            k2,
            f2,
            s2,
            p2,
            raw,
            decoded,
        ) matches Some(b) ==> (a == b ==> k1 == k2 && f1 == f2 && p1 == p2 && s1 == s2)),
{
    let m1 = match s1 {
        Some(s) => seq![0x01u8] + leb128_encoding(s.len()) + s,
        None => seq![0x00u8],
    };
    let m2 = match s2 {
        Some(s) => seq![0x01u8] + leb128_encoding(s.len()) + s,
        None => seq![0x00u8],
    };
    if let Some(a) = canonical_payload(k1, f1, s1, p1, raw, decoded) {
        if let Some(b) = canonical_payload(k2, f2, s2, p2, raw, decoded) {
            if a == b {
                let fx1 = seq![k1] + u16_le(f1) + seq![p1];
                let fx2 = seq![k2] + u16_le(f2) + seq![p2];
                let t1 = a.skip((fx1 + m1).len() as int);
                let t2 = b.skip((fx2 + m2).len() as int);
                assert(a =~= fx1 + m1 + t1);
                assert(b =~= fx2 + m2 + t2);
                assert(a[0] == k1 && b[0] == k2);
                assert(a[3] == p1 && b[3] == p2);
                crate::util::le::lemma_u16_le_roundtrip(f1, a.skip(3));
                crate::util::le::lemma_u16_le_roundtrip(f2, b.skip(3));
                assert(a.skip(1) =~= u16_le(f1) + a.skip(3));
                assert(b.skip(1) =~= u16_le(f2) + b.skip(3));
                assert(t1 == t2);
                assert(m1.len() == m2.len());
                assert(m1 =~= a.subrange(4, 4 + m1.len() as int));
                assert(m2 =~= b.subrange(4, 4 + m2.len() as int));
                assert(m1[0] == m2[0]);
                match (s1, s2) {
                    (Some(x), Some(y)) => {
                        assert(m1.drop_first() =~= leb128_encoding(x.len()) + x);
                        assert(m2.drop_first() =~= leb128_encoding(y.len()) + y);
                        crate::util::varint::lemma_leb128_prefix_free(x.len(), y.len(), x, y);
                    },
                    _ => {},
                }
            }
        }
    }
}

} // verus!
