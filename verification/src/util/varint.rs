//! LEB128 variable-length integers and ZigZag signed mapping.

use vstd::prelude::*;
use crate::error::{Result, UnivError};

verus! {

#[verifier::external_type_specification]
#[verifier::external_body]
pub struct ExLeb128ReadError(leb128::read::Error);

/// Unsigned LEB128 encoding of `v`: seven bits per byte, least significant group first,
/// the high bit set on every byte but the last.
pub open spec fn leb128_encoding(v: nat) -> Seq<u8>
    decreases v,
{
    if v < 128 {
        seq![v as u8]
    } else {
        seq![(v % 128 + 128) as u8] + leb128_encoding(v / 128)
    }
}

/// `128` to the power `k`.
pub open spec fn pow128(k: nat) -> nat
    decreases k,
{
    if k == 0 {
        1
    } else {
        128 * pow128((k - 1) as nat)
    }
}

/// A value below `128^k` takes at most `k` LEB128 bytes (for `k >= 1`).
pub proof fn lemma_leb128_len_bound(n: nat, k: nat)
    requires
        k >= 1,
        n < pow128(k),
    ensures
        leb128_encoding(n).len() <= k,
    decreases k,
{
    if n >= 128 {
        let b = pow128((k - 1) as nat);
        if k == 1 {
            assert(pow128(0) == 1);
            assert(false);
        }
        assert(n / 128 < b) by (nonlinear_arith)
            requires
                n < 128 * b,
        ;
        lemma_leb128_len_bound(n / 128, (k - 1) as nat);
    }
}

/// Powers of 128 grow with the exponent.
proof fn lemma_pow128_monotone(a: nat, b: nat)
    requires
        a <= b,
    ensures
        pow128(a) <= pow128(b),
        pow128(a) >= 1,
    decreases b,
{
    if b > 0 {
        if a < b {
            lemma_pow128_monotone(a, (b - 1) as nat);
        }
        lemma_pow128_monotone(0, (b - 1) as nat);
    }
}

/// Law: the LEB128 encoding of `v` has the closed-form length: the fewest bytes `n >= 1`
/// with `v < 128^n` (so one byte for 0, and `ceil(bits / 7)` bytes otherwise), which is at
/// most 10 for a `u64`.
pub proof fn lemma_leb128_encoding_length(v: nat)
    ensures
        leb128_encoding(v).len() >= 1,
        v < pow128(leb128_encoding(v).len()),
        leb128_encoding(v).len() > 1 ==> v >= pow128((leb128_encoding(v).len() - 1) as nat),
        v <= u64::MAX ==> leb128_encoding(v).len() <= 10,
    decreases v,
{
    let n = leb128_encoding(v).len();
    if v < 128 {
        assert(pow128(1) == 128) by {
            reveal_with_fuel(pow128, 2);
        }
    } else {
        let w = v / 128;
        lemma_leb128_encoding_length(w);
        let m = leb128_encoding(w).len();
        assert(n == 1 + m);
        let pm = pow128(m);
        assert(pow128(n) == 128 * pm);
        assert(v < 128 * pm) by (nonlinear_arith)
            requires
                w == v / 128,
                w < pm,
        ;
        if m == 1 {
            assert(pow128(1) == 128) by {
                reveal_with_fuel(pow128, 2);
            }
        } else {
            let pm1 = pow128((m - 1) as nat);
            assert(pow128(m) == 128 * pm1);
            assert(v >= 128 * pm1) by (nonlinear_arith)
                requires
                    w == v / 128,
                    w >= pm1,
            ;
        }
    }
    if v <= u64::MAX && n > 10 {
        lemma_pow128_monotone(10, (n - 1) as nat);
        assert(pow128(10) == 0x4_0000_0000_0000_0000_0000) by {
            reveal_with_fuel(pow128, 11);
        }
    }
}

/// Unsigned LEB128 decoding of the front of `s`, the first byte being group number `depth`.
/// Gives the value and the number of bytes read, or `None` when the input ends before the
/// last byte or when the tenth group holds more than the top bit of a `u64`.
pub open spec fn leb128_decode_at(s: Seq<u8>, depth: nat) -> Option<(nat, nat)>
    decreases s.len(),
{
    if s.len() == 0 {
        None
    } else if depth >= 9 && s[0] > 1 {
        None
    } else if s[0] < 128 {
        Some((s[0] as nat, 1))
    } else {
        match leb128_decode_at(s.drop_first(), depth + 1) {
            Some((v, n)) => Some((((s[0] - 128) + 128 * v) as nat, n + 1)),
            None => None,
        }
    }
}

/// Unsigned LEB128 decoding of the front of `s` into a 64-bit value and a length.
pub open spec fn leb128_decoding(s: Seq<u8>) -> Option<(nat, nat)> {
    leb128_decode_at(s, 0)
}

/// Largest value (exclusive) that the groups from `depth` on can carry in a `u64`.
pub open spec fn leb128_cap(depth: nat) -> nat
    decreases 9 - depth,
{
    if depth >= 9 {
        2
    } else {
        128 * leb128_cap(depth + 1)
    }
}

/// ZigZag mapping of a signed value onto the naturals.
pub open spec fn zigzag_encode_spec(v: int) -> int {
    if v >= 0 {
        2 * v
    } else {
        -2 * v - 1
    }
}

/// Inverse of the ZigZag mapping.
pub open spec fn zigzag_decode_spec(u: int) -> int {
    if u % 2 == 0 {
        u / 2
    } else {
        -(u / 2) - 1
    }
}

/// Concatenated LEB128 encodings of `values`.
pub open spec fn leb128_concat(values: Seq<u64>) -> Seq<u8>
    decreases values.len(),
{
    if values.len() == 0 {
        Seq::empty()
    } else {
        leb128_concat(values.drop_last()) + leb128_encoding(values.last() as nat)
    }
}

/// Array encoding: the element count, then every element, all in LEB128.
pub open spec fn leb128_array_encoding(values: Seq<u64>) -> Seq<u8> {
    leb128_encoding(values.len()) + leb128_concat(values)
}

/// Decoding of `count` consecutive LEB128 values from the front of `s`:
/// the values and the number of bytes read.
pub open spec fn leb128_decode_many(s: Seq<u8>, count: nat) -> Option<(Seq<u64>, nat)>
    decreases count,
{
    if count == 0 {
        Some((Seq::empty(), 0))
    } else {
        match leb128_decode_many(s, (count - 1) as nat) {
            Some((vs, n)) => match leb128_decoding(s.skip(n as int)) {
                Some((v, m)) => Some((vs.push(v as u64), n + m)),
                None => None,
            },
            None => None,
        }
    }
}

/// Array decoding: the element count, then that many values.
pub open spec fn leb128_array_decoding(s: Seq<u8>) -> Option<(Seq<u64>, nat)> {
    match leb128_decoding(s) {
        Some((count, n)) => match leb128_decode_many(s.skip(n as int), count) {
            Some((vs, m)) => Some((vs, n + m)),
            None => None,
        },
        None => None,
    }
}

/// Bounds on the values that the groups left from `depth` can still carry.
pub proof fn lemma_leb128_cap(depth: nat)
    ensures
        depth < 9 ==> leb128_cap(depth) >= 256,
        depth <= 9 ==> leb128_cap(depth) >= 2,
        leb128_cap(0) == 0x1_0000_0000_0000_0000,
    decreases 9 - depth,
{
    if depth < 9 {
        lemma_leb128_cap(depth + 1);
    }
    assert(leb128_cap(0) == 0x1_0000_0000_0000_0000) by {
        reveal_with_fuel(leb128_cap, 10);
    }
}

/// A decoded value fits in the groups left from `depth`, so in a `u64` from depth 0.
pub proof fn lemma_leb128_decode_bound(s: Seq<u8>, depth: nat)
    requires
        depth <= 9,
    ensures
        leb128_decode_at(s, depth) matches Some((v, n)) ==> v < leb128_cap(depth) && 1 <= n
            <= s.len() && n <= 10 - depth,
    decreases s.len(),
{
    lemma_leb128_cap(depth);
    if s.len() > 0 && !(depth >= 9 && s[0] > 1) && s[0] >= 128 {
        lemma_leb128_decode_bound(s.drop_first(), depth + 1);
    }
}

/// A value decoded from `n` bytes re-encodes in at most `n` bytes.
pub proof fn lemma_leb128_decoded_len(s: Seq<u8>, depth: nat)
    ensures
        leb128_decode_at(s, depth) matches Some((v, n)) ==> n >= 1 && v < pow128(n)
            && leb128_encoding(v).len() <= n,
    decreases s.len(),
{
    if let Some((v, n)) = leb128_decode_at(s, depth) {
        if s[0] < 128 {
            assert(pow128(1) == 128) by {
                reveal_with_fuel(pow128, 2);
            }
        } else {
            lemma_leb128_decoded_len(s.drop_first(), depth + 1);
            let (v2, n2) = leb128_decode_at(s.drop_first(), depth + 1).unwrap();
            let p = pow128(n2);
            assert(pow128(n) == 128 * p);
            let b = s[0] - 128;
            assert(v < 128 * p) by (nonlinear_arith)
                requires
                    v == b + 128 * v2,
                    0 <= b < 128,
                    v2 < p,
            ;
        }
        lemma_leb128_len_bound(v, n);
    }
}

/// Law: LEB128 encodings are prefix-free: two values whose encodings start two equal byte
/// strings are equal, and so are the bytes after them.
pub proof fn lemma_leb128_prefix_free(a: nat, b: nat, x: Seq<u8>, y: Seq<u8>)
    requires
        leb128_encoding(a) + x == leb128_encoding(b) + y,
    ensures
        a == b,
        x == y,
    decreases a,
{
    let ea = leb128_encoding(a);
    let eb = leb128_encoding(b);
    let s = ea + x;
    assert(s[0] == ea[0] && s[0] == (eb + y)[0]);
    if a < 128 {
        assert(ea[0] == a as u8);
        if b >= 128 {
            assert(eb[0] == (b % 128 + 128) as u8);
        }
        assert(eb[0] == b as u8);
        assert(x =~= s.drop_first());
        assert(y =~= (eb + y).drop_first());
    } else {
        assert(ea[0] == (a % 128 + 128) as u8);
        if b < 128 {
            assert(eb[0] == b as u8);
        }
        assert(eb[0] == (b % 128 + 128) as u8);
        let ta = leb128_encoding(a / 128);
        let tb = leb128_encoding(b / 128);
        assert(s.drop_first() =~= ta + x);
        assert((eb + y).drop_first() =~= tb + y);
        lemma_leb128_prefix_free(a / 128, b / 128, x, y);
        assert(a == 128 * (a / 128) + a % 128);
        assert(b == 128 * (b / 128) + b % 128);
    }
}

/// Encoding and decoding of one value are inverse, whatever bytes follow.
pub proof fn lemma_leb128_roundtrip_at(v: nat, depth: nat, rest: Seq<u8>)
    requires
        depth <= 9,
        v < leb128_cap(depth),
    ensures
        leb128_decode_at(leb128_encoding(v) + rest, depth) == Some((v, leb128_encoding(v).len())),
    decreases v,
{
    lemma_leb128_cap(depth);
    let e = leb128_encoding(v);
    let s = e + rest;
    if v < 128 {
        assert(s[0] == v as u8);
    } else {
        let tail = leb128_encoding(v / 128);
        lemma_leb128_roundtrip_at(v / 128, depth + 1, rest);
        assert(s.drop_first() =~= tail + rest);
    }
}

/// Law: LEB128 decoding gives back the encoded value and its length.
pub proof fn lemma_leb128_roundtrip(v: u64, rest: Seq<u8>)
    ensures
        leb128_decoding(leb128_encoding(v as nat) + rest) == Some(
            (v as nat, leb128_encoding(v as nat).len()),
        ),
{
    lemma_leb128_cap(0);
    lemma_leb128_roundtrip_at(v as nat, 0, rest);
}

/// An encoding is at least one byte long, and carries at most the groups left from `depth`.
pub proof fn lemma_leb128_encoding_len(v: nat, depth: nat)
    requires
        depth <= 9,
    ensures
        1 <= leb128_encoding(v).len(),
        v < leb128_cap(depth) ==> leb128_encoding(v).len() <= 10 - depth,
    decreases v,
{
    lemma_leb128_cap(depth);
    if v >= 128 {
        if depth < 9 {
            lemma_leb128_encoding_len(v / 128, depth + 1);
        } else {
            lemma_leb128_encoding_len(v / 128, depth);
        }
    }
}

/// Appends the LEB128 encoding of `value` to `buf`, through `leb128::write::unsigned`.
/// Claims that the bytes appended are exactly the unsigned LEB128 encoding of `value`;
/// writing into a `Vec` does not fail.
#[verifier::external_body]
fn leb128_write_unsigned(buf: &mut Vec<u8>, value: u64)
    ensures
        final(buf)@ == old(buf)@ + leb128_encoding(value as nat),
{
    let _ = leb128::write::unsigned(buf, value);
}

/// Reads an unsigned LEB128 value from the front of `data`, through `leb128::read::unsigned`.
/// Claims that it succeeds exactly when `leb128_decoding` does, with the same value, and that
/// the slice it hands back is what follows the bytes read.
#[verifier::external_body]
fn leb128_read_unsigned(data: &[u8]) -> (r: (core::result::Result<u64, leb128::read::Error>, &[u8]))
    ensures
        match leb128_decoding(data@) {
            Some((v, n)) => r.0 matches Ok(x) && x as nat == v && r.1@ == data@.skip(n as int),
            None => r.0 is Err,
        },
{
    let mut rest = data;
    let res = leb128::read::unsigned(&mut rest);
    (res, rest)
}

/// LEB128 codec for single integers.
pub struct VarInt;

impl VarInt {
    /// Encodes an unsigned integer as LEB128.
    pub fn encode_u64(value: u64) -> (r: Result<Vec<u8>>)
        ensures
            r matches Ok(b) && b@ == leb128_encoding(value as nat),
    {
        let mut buf = Vec::new();
        leb128_write_unsigned(&mut buf, value);
        Ok(buf)
    }

    /// Encodes a signed integer as ZigZag followed by LEB128.
    pub fn encode_i64(value: i64) -> (r: Result<Vec<u8>>)
        ensures
            r matches Ok(b) && b@ == leb128_encoding(zigzag_encode_spec(value as int) as nat),
    {
        let zigzag_value = Self::zigzag_encode(value);
        Self::encode_u64(zigzag_value)
    }

    /// Decodes a LEB128 unsigned integer from the front of `data`: the value and the
    /// number of bytes read.
    pub fn decode_u64(data: &[u8]) -> (r: Result<(u64, usize)>)
        ensures
            match leb128_decoding(data@) {
                Some((v, n)) => r matches Ok((x, m)) && x as nat == v && m as nat == n,
                None => r matches Err(UnivError::DeserializationError { .. }),
            },
    {
        proof {
            lemma_leb128_decode_bound(data@, 0);
        }
        let (res, rest) = leb128_read_unsigned(data);
        match res {
            Ok(value) => Ok((value, data.len() - rest.len())),
            Err(_) => Err(UnivError::DeserializationError { reason: "LEB128 decoding failed".to_string() }),
        }
    }

    /// Decodes a ZigZag LEB128 signed integer from the front of `data`.
    pub fn decode_i64(data: &[u8]) -> (r: Result<(i64, usize)>)
        ensures
            match leb128_decoding(data@) {
                Some((v, n)) => r matches Ok((x, m)) && x as int == zigzag_decode_spec(v as int)
                    && m as nat == n,
                None => r matches Err(UnivError::DeserializationError { .. }),
            },
    {
        let (zigzag_value, bytes_read) = Self::decode_u64(data)?;
        let value = Self::zigzag_decode(zigzag_value);
        Ok((value, bytes_read))
    }

    /// ZigZag mapping of a signed integer onto an unsigned one.
    pub fn zigzag_encode(value: i64) -> (r: u64)
        ensures
            r as int == zigzag_encode_spec(value as int),
    {
        let r = ((value << 1u32) ^ (value >> 63u32)) as u64;
        assert(r as int == zigzag_encode_spec(value as int)) by (bit_vector)
            requires
                r == ((value << 1u32) ^ (value >> 63u32)) as u64,
        ;
        r
    }

    /// Inverse ZigZag mapping.
    pub fn zigzag_decode(value: u64) -> (r: i64)
        ensures
            r as int == zigzag_decode_spec(value as int),
    {
        assert(value & 1 <= 1) by (bit_vector);
        let low: i64 = (value & 1) as i64;
        let r = ((value >> 1u32) as i64) ^ (-low);
        assert(r as int == zigzag_decode_spec(value as int)) by (bit_vector)
            requires
                low == (value & 1) as i64,
                r == ((value >> 1u32) as i64) ^ ((-low) as i64),
        ;
        r
    }
}


/// Splitting the values splits their concatenated encodings.
pub proof fn lemma_leb128_concat_split(values: Seq<u64>, k: int)
    requires
        0 <= k <= values.len(),
    ensures
        leb128_concat(values) =~= leb128_concat(values.take(k)) + leb128_concat(values.skip(k)),
    decreases values.len(),
{
    if k < values.len() {
        let dl = values.drop_last();
        lemma_leb128_concat_split(dl, k);
        assert(dl.take(k) =~= values.take(k));
        assert(values.skip(k).drop_last() =~= dl.skip(k));
        assert(values.skip(k).last() == values.last());
    } else {
        assert(values.take(k) =~= values);
        assert(leb128_concat(values.skip(k)) =~= Seq::empty());
    }
}

/// The encoding of a single value.
pub proof fn lemma_leb128_concat_one(values: Seq<u64>)
    requires
        values.len() == 1,
    ensures
        leb128_concat(values) =~= leb128_encoding(values[0] as nat),
{
    assert(values.drop_last() =~= Seq::<u64>::empty());
    assert(leb128_concat(values.drop_last()) =~= Seq::<u8>::empty());
    assert(values.last() == values[0]);
}

/// Decoding `k` values of a concatenation gives back the first `k` values.
pub proof fn lemma_leb128_decode_many_concat(values: Seq<u64>, rest: Seq<u8>, k: nat)
    requires
        k <= values.len(),
    ensures
        leb128_decode_many(leb128_concat(values) + rest, k) == Some(
            (values.take(k as int), leb128_concat(values.take(k as int)).len()),
        ),
    decreases k,
{
    let s = leb128_concat(values) + rest;
    if k == 0 {
        assert(values.take(0) =~= Seq::<u64>::empty());
    } else {
        let j = (k - 1) as nat;
        lemma_leb128_decode_many_concat(values, rest, j);
        let pre = values.take(j as int);
        let w = values.skip(j as int);
        lemma_leb128_concat_split(values, j as int);
        lemma_leb128_concat_split(w, 1);
        lemma_leb128_concat_one(w.take(1));
        let e = leb128_encoding(values[j as int] as nat);
        assert(w.take(1)[0] == values[j as int]);
        assert(s.skip(leb128_concat(pre).len() as int) =~= e + (leb128_concat(w.skip(1)) + rest));
        lemma_leb128_roundtrip(values[j as int], leb128_concat(w.skip(1)) + rest);
        assert(values.take(k as int) =~= pre.push(values[j as int]));
        assert(values.take(k as int).drop_last() =~= pre);
    }
}

/// Law: array decoding gives back the encoded values and the length of their encoding.
pub proof fn lemma_leb128_array_roundtrip(values: Seq<u64>, rest: Seq<u8>)
    requires
        values.len() <= u64::MAX,
    ensures
        leb128_array_decoding(leb128_array_encoding(values) + rest) == Some(
            (values, leb128_array_encoding(values).len()),
        ),
{
    let n = values.len();
    let head = leb128_encoding(n);
    let body = leb128_concat(values);
    let s = leb128_array_encoding(values) + rest;
    assert(s =~= head + (body + rest));
    lemma_leb128_roundtrip(n as u64, body + rest);
    assert(s.skip(head.len() as int) =~= body + rest);
    lemma_leb128_decode_many_concat(values, rest, n);
    assert(values.take(n as int) =~= values);
}

/// Once decoding `k` values fails, decoding more fails too.
pub proof fn lemma_leb128_decode_many_none(s: Seq<u8>, k: nat, k2: nat)
    requires
        k <= k2,
        leb128_decode_many(s, k) is None,
    ensures
        leb128_decode_many(s, k2) is None,
    decreases k2,
{
    if k < k2 {
        lemma_leb128_decode_many_none(s, k, (k2 - 1) as nat);
    }
}

impl VarInt {
    /// Number of bytes of the LEB128 encoding of `value`.
    pub fn encoded_length_u64(value: u64) -> (r: usize)
        ensures
            r as nat == leb128_encoding(value as nat).len(),
    {
        if value == 0 {
            return 1;
        }
        let mut length: usize = 0;
        let mut v = value;
        proof {
            lemma_leb128_cap(0);
            lemma_leb128_encoding_len(value as nat, 0);
        }
        while v > 0
            invariant
                v > 0 ==> length + leb128_encoding(v as nat).len() == leb128_encoding(value as nat).len(),
                v == 0 ==> length == leb128_encoding(value as nat).len(),
                length <= 10,
                v > 0 ==> length + leb128_encoding(v as nat).len() <= 10,
            decreases v,
        {
            proof {
                lemma_leb128_cap(0);
                lemma_leb128_encoding_len(v as nat, 0);
            }
            assert(v >> 7u32 == v / 128) by (bit_vector);
            length += 1;
            v >>= 7u32;
        }
        length
    }

    /// Number of bytes of the ZigZag LEB128 encoding of `value`.
    pub fn encoded_length_i64(value: i64) -> (r: usize)
        ensures
            r as nat == leb128_encoding(zigzag_encode_spec(value as int) as nat).len(),
    {
        let zigzag_value = Self::zigzag_encode(value);
        Self::encoded_length_u64(zigzag_value)
    }
}

/// The ZigZag images of signed values, as unsigned values.
pub open spec fn zigzag_all(values: Seq<i64>) -> Seq<u64> {
    values.map_values(|v: i64| zigzag_encode_spec(v as int) as u64)
}

/// The inverse ZigZag images of unsigned values, as signed values.
pub open spec fn unzigzag_all(values: Seq<u64>) -> Seq<i64> {
    values.map_values(|u: u64| zigzag_decode_spec(u as int) as i64)
}

/// LEB128 codec for integer arrays: the element count, then each element.
pub struct VarIntArray;

impl VarIntArray {
    /// Encodes an unsigned array.
    pub fn encode_u64_array(values: &[u64]) -> (r: Result<Vec<u8>>)
        ensures
            r matches Ok(b) && b@ == leb128_array_encoding(values@),
    {
        let mut buf = Vec::new();
        leb128_write_unsigned(&mut buf, values.len() as u64);
        let mut i: usize = 0;
        while i < values.len()
            invariant
                i <= values.len(),
                buf@ == leb128_encoding(values@.len()) + leb128_concat(values@.take(i as int)),
            decreases values.len() - i,
        {
            let ghost before = buf@;
            leb128_write_unsigned(&mut buf, values[i]);
            assert(values@.take(i + 1).drop_last() =~= values@.take(i as int));
            assert(buf@ =~= leb128_encoding(values@.len()) + leb128_concat(values@.take(i + 1)));
            i += 1;
        }
        assert(values@.take(values.len() as int) =~= values@);
        Ok(buf)
    }

    /// Decodes an unsigned array from the front of `data`: the values and the number of
    /// bytes read.
    pub fn decode_u64_array(data: &[u8]) -> (r: Result<(Vec<u64>, usize)>)
        ensures
            match leb128_array_decoding(data@) {
                Some((vs, n)) => r matches Ok((v, m)) && v@ == vs && m as nat == n,
                None => r matches Err(UnivError::DeserializationError { .. }),
            },
    {
        proof {
            lemma_leb128_decode_bound(data@, 0);
        }
        let (res, after_len) = leb128_read_unsigned(data);
        let length = match res {
            Ok(l) => l,
            Err(_) => {
                return Err(UnivError::DeserializationError {
                    reason: "LEB128 decoding of the array length failed".to_string(),
                });
            },
        };
        let ghost n0: nat = (data.len() - after_len.len()) as nat;
        let ghost s1 = data@.skip(n0 as int);
        let mut values: Vec<u64> = Vec::new();
        let mut rest = after_len;
        let mut total: usize = data.len() - after_len.len();
        let mut i: u64 = 0;
        while i < length
            invariant
                i <= length,
                n0 <= total <= data.len(),
                rest@ == data@.skip(total as int),
                s1 == data@.skip(n0 as int),
                leb128_decoding(data@) == Some((length as nat, n0)),
                leb128_decode_many(s1, i as nat) == Some((values@, (total - n0) as nat)),
            decreases length - i,
        {
            proof {
                lemma_leb128_decode_bound(rest@, 0);
                assert(s1.skip(total - n0) =~= rest@);
            }
            let (res, after) = leb128_read_unsigned(rest);
            match res {
                Ok(value) => {
                    values.push(value);
                    total = total + (rest.len() - after.len());
                    rest = after;
                    assert(rest@ =~= data@.skip(total as int));
                },
                Err(_) => {
                    proof {
                        lemma_leb128_decode_many_none(s1, (i + 1) as nat, length as nat);
                    }
                    return Err(UnivError::DeserializationError {
                        reason: "LEB128 decoding of an array element failed".to_string(),
                    });
                },
            }
            i += 1;
        }
        Ok((values, total))
    }

    /// Encodes a signed array through ZigZag.
    pub fn encode_i64_array(values: &[i64]) -> (r: Result<Vec<u8>>)
        ensures
            r matches Ok(b) && b@ == leb128_array_encoding(zigzag_all(values@)),
    {
        let mut zigzag_values: Vec<u64> = Vec::new();
        let mut i: usize = 0;
        while i < values.len()
            invariant
                i <= values.len(),
                zigzag_values@ == zigzag_all(values@.take(i as int)),
            decreases values.len() - i,
        {
            zigzag_values.push(VarInt::zigzag_encode(values[i]));
            assert(zigzag_values@ =~= zigzag_all(values@.take(i + 1)));
            i += 1;
        }
        assert(values@.take(values.len() as int) =~= values@);
        Self::encode_u64_array(zigzag_values.as_slice())
    }

    /// Decodes a signed array through ZigZag.
    pub fn decode_i64_array(data: &[u8]) -> (r: Result<(Vec<i64>, usize)>)
        ensures
            match leb128_array_decoding(data@) {
                Some((vs, n)) => r matches Ok((v, m)) && v@ == unzigzag_all(vs) && m as nat == n,
                None => r matches Err(UnivError::DeserializationError { .. }),
            },
    {
        let (zigzag_values, bytes_read) = Self::decode_u64_array(data)?;
        let mut values: Vec<i64> = Vec::new();
        let mut i: usize = 0;
        while i < zigzag_values.len()
            invariant
                i <= zigzag_values.len(),
                values@ == unzigzag_all(zigzag_values@.take(i as int)),
            decreases zigzag_values.len() - i,
        {
            values.push(VarInt::zigzag_decode(zigzag_values[i]));
            assert(values@ =~= unzigzag_all(zigzag_values@.take(i + 1)));
            i += 1;
        }
        assert(zigzag_values@.take(zigzag_values.len() as int) =~= zigzag_values@);
        Ok((values, bytes_read))
    }

    /// Number of bytes of the array encoding of `values`.
    pub fn estimated_encoded_length_u64(values: &[u64]) -> (r: usize)
        requires
            values.len() < usize::MAX / 16,
        ensures
            r as nat == leb128_array_encoding(values@).len(),
    {
        proof {
            lemma_leb128_cap(0);
            lemma_leb128_encoding_len(values.len() as nat, 0);
        }
        let mut length = VarInt::encoded_length_u64(values.len() as u64);
        let mut i: usize = 0;
        while i < values.len()
            invariant
                i <= values.len(),
                values.len() < usize::MAX / 16,
                length as nat == leb128_encoding(values@.len()).len() + leb128_concat(
                    values@.take(i as int),
                ).len(),
                length <= 10 * (i + 1),
            decreases values.len() - i,
        {
            proof {
                lemma_leb128_cap(0);
                lemma_leb128_encoding_len(values[i as int] as nat, 0);
                assert(values@.take(i + 1).drop_last() =~= values@.take(i as int));
            }
            length = length + VarInt::encoded_length_u64(values[i]);
            i += 1;
        }
        assert(values@.take(values.len() as int) =~= values@);
        length
    }
}

/// Appends the LEB128 encoding of `value` to `writer`.
pub fn write_varint(writer: &mut Vec<u8>, value: u64) -> (r: Result<()>)
    ensures
        r is Ok,
        final(writer)@ == old(writer)@ + leb128_encoding(value as nat),
{
    leb128_write_unsigned(writer, value);
    Ok(())
}

/// Reads a LEB128 value from the front of `reader` and advances it past the bytes read.
pub fn read_varint(reader: &mut &[u8]) -> (r: Result<u64>)
    ensures
        match leb128_decoding(old(reader)@) {
            Some((v, n)) => r matches Ok(x) && x as nat == v && final(reader)@ == old(reader)@.skip(
                n as int,
            ),
            None => r matches Err(UnivError::DeserializationError { .. }),
        },
{
    let (res, rest) = leb128_read_unsigned(*reader);
    match res {
        Ok(v) => {
            *reader = rest;
            Ok(v)
        },
        Err(_) => Err(UnivError::DeserializationError { reason: "LEB128 read failed".to_string() }),
    }
}

/// ZigZag mapping of a signed integer onto an unsigned one.
pub fn zigzag_encode(value: i64) -> (r: u64)
    ensures
        r as int == zigzag_encode_spec(value as int),
{
    VarInt::zigzag_encode(value)
}

/// Inverse ZigZag mapping.
pub fn zigzag_decode(value: u64) -> (r: i64)
    ensures
        r as int == zigzag_decode_spec(value as int),
{
    VarInt::zigzag_decode(value)
}

/// Law: the ZigZag mapping and its inverse undo each other.
pub proof fn lemma_zigzag_roundtrip(v: i64, u: u64)
    ensures
        zigzag_decode_spec(zigzag_encode_spec(v as int)) == v as int,
        zigzag_encode_spec(zigzag_decode_spec(u as int)) == u as int,
        0 <= zigzag_encode_spec(v as int) <= u64::MAX,
        i64::MIN <= zigzag_decode_spec(u as int) <= i64::MAX,
{
}

} // verus!
