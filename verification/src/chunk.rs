//! Chunks: typed, transformed, compressed and hashed payloads, and their frames.

use vstd::prelude::*;
use std::io::{Read, Write};
use std::sync::Arc;
use crate::canonical::{canonical_payload, compute_canonical_content_hash};
use crate::cbor::cbor_whole;
use crate::constants::{chunk_kinds, codecs, hash_algorithms, hash_policy, CHUNK_MAGIC};
use crate::error::{Result, UnivError};
use crate::transform::{transform_apply, transform_reverse, DataTransformer};
use crate::util::hash::{blake3_digest, crc32c, crc32c_checksum, hash_spec, hex_encode, hex_encoding, HashProvider};
use crate::util::le::{get_u16_le, get_u32_le, le_u16, le_u32, put_u16_le, put_u32_le, u16_le, u32_le};

pub mod parallel;

verus! {

/// Kind of a chunk.
#[derive(Debug, Clone, Copy, PartialEq, Eq, Hash, Structural)]
pub enum ChunkKind {
    /// Data node.
    DataNode,
    /// Binary large object.
    Blob,
    /// Schema definition.
    Schema,
    /// String table.
    StringTable,
    /// Index shard.
    IndexShard,
    /// Attachment.
    Attachment,
    /// A kind code without a meaning here.
    Unknown(u8),
}

impl ChunkKind {
    /// The kind a code names.
    pub open spec fn spec_from_u8(value: u8) -> ChunkKind {
        if value == chunk_kinds::DATA_NODE {
            ChunkKind::DataNode
        } else if value == chunk_kinds::BLOB {
            ChunkKind::Blob
        } else if value == chunk_kinds::SCHEMA {
            ChunkKind::Schema
        } else if value == chunk_kinds::STRING_TABLE {
            ChunkKind::StringTable
        } else if value == chunk_kinds::INDEX_SHARD {
            ChunkKind::IndexShard
        } else if value == chunk_kinds::ATTACHMENT {
            ChunkKind::Attachment
        } else {
            ChunkKind::Unknown(value)
        }
    }

    /// The code of a kind.
    pub open spec fn spec_to_u8(self) -> u8 {
        match self {
            ChunkKind::DataNode => chunk_kinds::DATA_NODE,
            ChunkKind::Blob => chunk_kinds::BLOB,
            ChunkKind::Schema => chunk_kinds::SCHEMA,
            ChunkKind::StringTable => chunk_kinds::STRING_TABLE,
            ChunkKind::IndexShard => chunk_kinds::INDEX_SHARD,
            ChunkKind::Attachment => chunk_kinds::ATTACHMENT,
            ChunkKind::Unknown(v) => v,
        }
    }

    /// An unknown kind does not carry a known code.
    pub open spec fn well_formed(self) -> bool {
        match self {
            ChunkKind::Unknown(v) => !(1 <= v <= 6),
            _ => true,
        }
    }

    /// The kind a code names.
    pub fn from_u8(value: u8) -> (r: Self)
        ensures
            r == Self::spec_from_u8(value),
    {
        if value == chunk_kinds::DATA_NODE {
            ChunkKind::DataNode
        } else if value == chunk_kinds::BLOB {
            ChunkKind::Blob
        } else if value == chunk_kinds::SCHEMA {
            ChunkKind::Schema
        } else if value == chunk_kinds::STRING_TABLE {
            ChunkKind::StringTable
        } else if value == chunk_kinds::INDEX_SHARD {
            ChunkKind::IndexShard
        } else if value == chunk_kinds::ATTACHMENT {
            ChunkKind::Attachment
        } else {
            ChunkKind::Unknown(value)
        }
    }

    /// The code of the kind.
    pub fn to_u8(&self) -> (r: u8)
        ensures
            r == self.spec_to_u8(),
    {
        match self {
            ChunkKind::DataNode => chunk_kinds::DATA_NODE,
            ChunkKind::Blob => chunk_kinds::BLOB,
            ChunkKind::Schema => chunk_kinds::SCHEMA,
            ChunkKind::StringTable => chunk_kinds::STRING_TABLE,
            ChunkKind::IndexShard => chunk_kinds::INDEX_SHARD,
            ChunkKind::Attachment => chunk_kinds::ATTACHMENT,
            ChunkKind::Unknown(value) => *value,
        }
    }

    /// Description of the kind.
    pub fn description(&self) -> (r: &'static str)
        ensures
            r@ == (match self {
                ChunkKind::DataNode => "数据节点"@,
                ChunkKind::Blob => "二进制大对象"@,
                ChunkKind::Schema => "Schema定义"@,
                ChunkKind::StringTable => "字符串表"@,
                ChunkKind::IndexShard => "索引分片"@,
                ChunkKind::Attachment => "附件"@,
                ChunkKind::Unknown(_) => "未知类型"@,
            }),
    {
        match self {
            ChunkKind::DataNode => "数据节点",
            ChunkKind::Blob => "二进制大对象",
            ChunkKind::Schema => "Schema定义",
            ChunkKind::StringTable => "字符串表",
            ChunkKind::IndexShard => "索引分片",
            ChunkKind::Attachment => "附件",
            ChunkKind::Unknown(_) => "未知类型",
        }
    }
}

/// Law: a code read back from a kind gives the kind (for well-formed kinds), and the kind a
/// code names carries that code.
pub proof fn lemma_chunk_kind_code_roundtrip(k: ChunkKind, v: u8)
    ensures
        k.well_formed() ==> ChunkKind::spec_from_u8(k.spec_to_u8()) == k,
        ChunkKind::spec_from_u8(v).spec_to_u8() == v,
        ChunkKind::spec_from_u8(v).well_formed(),
{
}

/// Compression algorithm of a chunk.
#[derive(Debug, Clone, Copy, PartialEq, Eq, Hash, Structural)]
pub enum Codec {
    /// No compression.
    NoCompression,
    /// Zstandard.
    Zstd,
    /// LZ4 with the uncompressed size prepended.
    Lz4,
    /// Raw deflate.
    Deflate,
    /// A codec code without a meaning here.
    Unknown(u8),
}

/// Zstandard compression of `data` at `level`, as `zstd::bulk::compress` computes it.
pub uninterp spec fn zstd_compression(data: Seq<u8>, level: i32) -> Option<Seq<u8>>;

/// Zstandard decompression with an output limit, as `zstd::bulk::decompress` computes it.
pub uninterp spec fn zstd_decompression(data: Seq<u8>, capacity: usize) -> Option<Seq<u8>>;

/// LZ4 block compression with the size prepended, as `lz4_flex::compress_prepend_size`
/// computes it.
pub uninterp spec fn lz4_compression(data: Seq<u8>) -> Seq<u8>;

/// LZ4 decompression of a size-prepended block, as `lz4_flex::decompress_size_prepended`
/// computes it.
pub uninterp spec fn lz4_decompression(data: Seq<u8>) -> Option<Seq<u8>>;

/// Raw deflate compression at a level, as flate2's `DeflateEncoder` computes it.
pub uninterp spec fn deflate_compression(data: Seq<u8>, level: u32) -> Option<Seq<u8>>;

/// Raw deflate decompression, as flate2's `DeflateDecoder` computes it.
pub uninterp spec fn deflate_decompression(data: Seq<u8>) -> Option<Seq<u8>>;

/// `payload` is what Zstandard produced from `data` at some level.
pub open spec fn zstd_holds(payload: Seq<u8>, data: Seq<u8>) -> bool {
    exists|l: i32| #[trigger] zstd_compression(data, l) == Some(payload)
}

/// `payload` is what deflate produced from `data` at some level up to 9.
pub open spec fn deflate_holds(payload: Seq<u8>, data: Seq<u8>) -> bool {
    exists|l: u32| #[trigger] deflate_compression(data, l) == Some(payload) && l <= 9
}

/// Zstandard compression through `zstd::bulk::compress`; `None` where zstd reports an error.
/// Claims the named result.
#[verifier::external_body]
fn zstd_compress(data: &[u8], level: i32) -> (r: Option<Vec<u8>>)
    ensures
        match zstd_compression(data@, level) {
            Some(c) => r matches Some(v) && v@ == c,
            None => r is None,
        },
{
    zstd::bulk::compress(data, level).ok()
}

/// Zstandard decompression through `zstd::bulk::decompress`, with at most `capacity` output
/// bytes; `None` where zstd reports an error. Claims the named result, and that data that
/// zstd compressed from some bytes (at any level) decompresses to those bytes when they fit
/// the capacity. zstd reserves the output buffer up front, which panics above `isize::MAX`
/// bytes, so the capacity stays below that.
#[verifier::external_body]
fn zstd_decompress(data: &[u8], capacity: usize) -> (r: Option<Vec<u8>>)
    requires
        capacity <= isize::MAX,
    ensures
        match zstd_decompression(data@, capacity) {
            Some(d) => r matches Some(v) && v@ == d,
            None => r is None,
        },
        r is None ==> forall|d: Seq<u8>| #[trigger] zstd_holds(data@, d) ==> d.len() > capacity,
        r matches Some(v) ==> forall|d: Seq<u8>|
            #[trigger] zstd_holds(data@, d) && d.len() <= capacity ==> v@ == d,
{
    zstd::bulk::decompress(data, capacity).ok()
}

/// LZ4 compression through `lz4_flex::compress_prepend_size`, which does not fail.
/// Claims the named result.
#[verifier::external_body]
fn lz4_compress(data: &[u8]) -> (r: Vec<u8>)
    ensures
        r@ == lz4_compression(data@),
{
    lz4_flex::compress_prepend_size(data)
}

/// LZ4 decompression through `lz4_flex::decompress_size_prepended`; `None` where it reports
/// an error. Claims the named result, and that the output of `compress_prepend_size` on
/// some bytes of at most `u32::MAX` (whose length the prefix holds exactly) decompresses to
/// those bytes. lz4_flex allocates the size the prefix declares, which panics above
/// `isize::MAX` bytes, so the prefix stays below that.
#[verifier::external_body]
fn lz4_decompress(data: &[u8]) -> (r: Option<Vec<u8>>)
    requires
        lz4_prefix_fits(data@),
    ensures
        match lz4_decompression(data@) {
            Some(d) => r matches Some(v) && v@ == d,
            None => r is None,
        },
        r is None ==> forall|d: Seq<u8>|
            d.len() <= u32::MAX ==> #[trigger] lz4_compression(d) != data@,
        r matches Some(v) ==> forall|d: Seq<u8>|
            d.len() <= u32::MAX && #[trigger] lz4_compression(d) == data@ ==> v@ == d,
{
    lz4_flex::decompress_size_prepended(data).ok()
}

/// Raw deflate compression through flate2's `DeflateEncoder` over a `Vec` at
/// `Compression::new(level)` (write all, then finish); `None` where flate2 reports an error.
/// Claims the named result.
#[verifier::external_body]
fn deflate_compress(data: &[u8], level: u32) -> (r: Option<Vec<u8>>)
    requires
        level <= 9,
    ensures
        match deflate_compression(data@, level) {
            Some(c) => r matches Some(v) && v@ == c,
            None => r is None,
        },
{
    let mut encoder = flate2::write::DeflateEncoder::new(Vec::new(), flate2::Compression::new(level));
    match encoder.write_all(data) {
        Ok(()) => encoder.finish().ok(),
        Err(_) => None,
    }
}

/// Raw deflate decompression through flate2's `DeflateDecoder` (read to end); `None` where
/// flate2 reports an error. Claims the named result, and that what the encoder produced
/// from some bytes at a level up to 9 decompresses to those bytes.
#[verifier::external_body]
fn deflate_decompress(data: &[u8]) -> (r: Option<Vec<u8>>)
    ensures
        match deflate_decompression(data@) {
            Some(d) => r matches Some(v) && v@ == d,
            None => r is None,
        },
        r is None ==> forall|d: Seq<u8>| !#[trigger] deflate_holds(data@, d),
        r matches Some(v) ==> forall|d: Seq<u8>| #[trigger] deflate_holds(data@, d) ==> v@ == d,
{
    let mut decoder = flate2::read::DeflateDecoder::new(data);
    let mut result = Vec::new();
    match decoder.read_to_end(&mut result) {
        Ok(_) => Some(result),
        Err(_) => None,
    }
}

/// Deflate level for an optional requested level: clamped to 0..=9, 6 by default.
pub open spec fn deflate_level(level: Option<i32>) -> u32 {
    match level {
        Some(l) => if l < 0 {
            0
        } else if l > 9 {
            9
        } else {
            l as u32
        },
        None => 6,
    }
}

/// Whether the size declared in an LZ4 block's prefix is one a buffer can have.
fn lz4_prefix_fits_exec(p: &[u8]) -> (r: bool)
    ensures
        r == lz4_prefix_fits(p@),
{
    assert(p@.skip(0) =~= p@);
    p.len() < 4 || get_u32_le(p, 0) as usize <= isize::MAX as usize
}

/// Output limit used for Zstandard: the expected size, or four times the input length (at
/// most `isize::MAX`).
pub open spec fn zstd_capacity(data_len: nat, expected: Option<usize>) -> usize {
    match expected {
        Some(e) => e,
        None => if data_len > isize::MAX / 4 {
            isize::MAX as usize
        } else {
            (data_len * 4) as usize
        },
    }
}

/// The size an LZ4 block declares in its 4-byte prefix is one a buffer can have.
pub open spec fn lz4_prefix_fits(p: Seq<u8>) -> bool {
    p.len() >= 4 ==> le_u32(p) <= isize::MAX
}

/// Compressed bytes of `data` under a codec and an optional level (Zstandard 3 and deflate 6
/// by default; LZ4 has no level), or `None` when compression fails or the codec is unknown.
pub open spec fn codec_compression(codec: Codec, data: Seq<u8>, level: Option<i32>) -> Option<Seq<u8>> {
    match codec {
        Codec::NoCompression => Some(data),
        Codec::Zstd => if data.len() > isize::MAX {
            None
        } else {
            zstd_compression(
                data,
                match level {
                    Some(l) => l,
                    None => 3,
                },
            )
        },
        Codec::Lz4 => if data.len() > u32::MAX || !lz4_prefix_fits(lz4_compression(data)) {
            None
        } else {
            Some(lz4_compression(data))
        },
        Codec::Deflate => deflate_compression(data, deflate_level(level)),
        Codec::Unknown(_) => None,
    }
}

/// Decompressed bytes of `data` under a codec, or `None` when decompression fails, the codec
/// is unknown, or an expected size is given and not met.
pub open spec fn codec_decompression(codec: Codec, data: Seq<u8>, expected: Option<usize>) -> Option<
    Seq<u8>,
> {
    let r = match codec {
        Codec::NoCompression => Some(data),
        Codec::Zstd => if zstd_capacity(data.len(), expected) > isize::MAX {
            None
        } else {
            zstd_decompression(data, zstd_capacity(data.len(), expected))
        },
        Codec::Lz4 => if !lz4_prefix_fits(data) {
            None
        } else {
            lz4_decompression(data)
        },
        Codec::Deflate => deflate_decompression(data),
        Codec::Unknown(_) => None,
    };
    match (r, expected) {
        (Some(x), Some(e)) => if x.len() == e {
            Some(x)
        } else {
            None
        },
        _ => r,
    }
}

/// `payload` is what the codec produced from `data` at some level.
pub open spec fn payload_holds(codec: Codec, payload: Seq<u8>, data: Seq<u8>) -> bool {
    match codec {
        Codec::NoCompression => payload == data,
        Codec::Zstd => zstd_holds(payload, data) && data.len() <= isize::MAX,
        Codec::Lz4 => lz4_compression(data) == payload && data.len() <= u32::MAX && lz4_prefix_fits(
            payload,
        ),
        Codec::Deflate => deflate_holds(payload, data),
        Codec::Unknown(_) => false,
    }
}

impl Codec {
    /// The codec a code names.
    pub open spec fn spec_from_u8(value: u8) -> Codec {
        if value == codecs::NONE {
            Codec::NoCompression
        } else if value == codecs::ZSTD {
            Codec::Zstd
        } else if value == codecs::LZ4 {
            Codec::Lz4
        } else if value == codecs::DEFLATE {
            Codec::Deflate
        } else {
            Codec::Unknown(value)
        }
    }

    /// The code of a codec.
    pub open spec fn spec_to_u8(self) -> u8 {
        match self {
            Codec::NoCompression => codecs::NONE,
            Codec::Zstd => codecs::ZSTD,
            Codec::Lz4 => codecs::LZ4,
            Codec::Deflate => codecs::DEFLATE,
            Codec::Unknown(v) => v,
        }
    }

    /// An unknown codec does not carry a known code.
    pub open spec fn well_formed(self) -> bool {
        match self {
            Codec::Unknown(v) => v > 3,
            _ => true,
        }
    }

    /// The codec a code names.
    pub fn from_u8(value: u8) -> (r: Self)
        ensures
            r == Self::spec_from_u8(value),
    {
        if value == codecs::NONE {
            Codec::NoCompression
        } else if value == codecs::ZSTD {
            Codec::Zstd
        } else if value == codecs::LZ4 {
            Codec::Lz4
        } else if value == codecs::DEFLATE {
            Codec::Deflate
        } else {
            Codec::Unknown(value)
        }
    }

    /// The code of the codec.
    pub fn to_u8(&self) -> (r: u8)
        ensures
            r == self.spec_to_u8(),
    {
        match self {
            Codec::NoCompression => codecs::NONE,
            Codec::Zstd => codecs::ZSTD,
            Codec::Lz4 => codecs::LZ4,
            Codec::Deflate => codecs::DEFLATE,
            Codec::Unknown(value) => *value,
        }
    }

    /// Compresses `data` at the codec's default level.
    pub fn compress(&self, data: &[u8]) -> (r: Result<Vec<u8>>)
        ensures
            match codec_compression(*self, data@, None) {
                Some(c) => r matches Ok(v) && v@ == c,
                None => r is Err,
            },
            *self matches Codec::Unknown(c) ==> (r matches Err(UnivError::UnsupportedCodec { codec })
                && codec == c),
    {
        self.compress_with_level(data, None)
    }

    /// Compresses `data` at `level` (the codec's default when `None`; LZ4 ignores it and
    /// deflate clamps it to 0..=9).
    pub fn compress_with_level(&self, data: &[u8], level: Option<i32>) -> (r: Result<Vec<u8>>)
        ensures
            match codec_compression(*self, data@, level) {
                Some(c) => r matches Ok(v) && v@ == c,
                None => r is Err,
            },
            *self matches Codec::Unknown(c) ==> (r matches Err(UnivError::UnsupportedCodec { codec })
                && codec == c),
            !(*self is Unknown) ==> (r is Err ==> r matches Err(UnivError::CompressionError { .. })),
    {
        match self {
            Codec::NoCompression => Ok(vstd::slice::slice_to_vec(data)),
            Codec::Zstd => {
                if data.len() > isize::MAX as usize {
                    return Err(UnivError::compression_error("zstd compression failed"));
                }
                let compression_level = match level {
                    Some(l) => l,
                    None => 3,
                };
                match zstd_compress(data, compression_level) {
                    Some(v) => Ok(v),
                    None => Err(UnivError::compression_error("zstd compression failed")),
                }
            },
            Codec::Lz4 => {
                if data.len() > u32::MAX as usize {
                    return Err(UnivError::compression_error("LZ4 compression failed"));
                }
                let v = lz4_compress(data);
                if !lz4_prefix_fits_exec(v.as_slice()) {
                    return Err(UnivError::compression_error("LZ4 compression failed"));
                }
                Ok(v)
            },
            Codec::Deflate => {
                let compression_level: u32 = match level {
                    Some(l) => if l < 0 {
                        0
                    } else if l > 9 {
                        9
                    } else {
                        l as u32
                    },
                    None => 6,
                };
                match deflate_compress(data, compression_level) {
                    Some(v) => Ok(v),
                    None => Err(UnivError::compression_error("deflate compression failed")),
                }
            },
            Codec::Unknown(codec) => Err(UnivError::UnsupportedCodec { codec: *codec }),
        }
    }

    /// Decompresses `data`, checking the output length when `expected_size` is given.
    /// Data that the codec produced from some bytes decompresses to those bytes when their
    /// length is the expected size.
    pub fn decompress(&self, data: &[u8], expected_size: Option<usize>) -> (r: Result<Vec<u8>>)
        ensures
            match codec_decompression(*self, data@, expected_size) {
                Some(d) => r matches Ok(v) && v@ == d,
                None => r is Err,
            },
            *self matches Codec::Unknown(c) ==> (r matches Err(UnivError::UnsupportedCodec { codec })
                && codec == c),
            !(*self is Unknown) ==> (r is Err ==> r matches Err(UnivError::CompressionError { .. })),
            forall|d: Seq<u8>|
                #[trigger] payload_holds(*self, data@, d) && (expected_size matches Some(e) && e == d.len())
                    ==> codec_decompression(*self, data@, expected_size) == Some(d),
    {
        let result = match self {
            Codec::NoCompression => vstd::slice::slice_to_vec(data),
            Codec::Zstd => {
                let capacity = match expected_size {
                    Some(e) => e,
                    None => if data.len() > isize::MAX as usize / 4 {
                        isize::MAX as usize
                    } else {
                        data.len() * 4
                    },
                };
                if capacity > isize::MAX as usize {
                    return Err(UnivError::compression_error("zstd decompression failed"));
                }
                match zstd_decompress(data, capacity) {
                    Some(v) => v,
                    None => {
                        return Err(UnivError::compression_error("zstd decompression failed"));
                    },
                }
            },
            Codec::Lz4 => match if lz4_prefix_fits_exec(data) {
                lz4_decompress(data)
            } else {
                None
            } {
                Some(v) => v,
                None => {
                    return Err(UnivError::compression_error("LZ4 decompression failed"));
                },
            },
            Codec::Deflate => match deflate_decompress(data) {
                Some(v) => v,
                None => {
                    return Err(UnivError::compression_error("deflate decompression failed"));
                },
            },
            Codec::Unknown(codec) => {
                return Err(UnivError::UnsupportedCodec { codec: *codec });
            },
        };
        match expected_size {
            Some(expected) => {
                if result.len() != expected {
                    return Err(UnivError::compression_error("decompressed size mismatch"));
                }
            },
            None => {},
        }
        Ok(result)
    }
}

/// Law: a code read back from a codec gives the codec (for well-formed codecs), and the
/// codec a code names carries that code.
pub proof fn lemma_codec_code_roundtrip(c: Codec, v: u8)
    ensures
        c.well_formed() ==> Codec::spec_from_u8(c.spec_to_u8()) == c,
        Codec::spec_from_u8(v).spec_to_u8() == v,
        Codec::spec_from_u8(v).well_formed(),
{
}

/// Law: what a codec compresses, it decompresses back when the expected size is the
/// original length.
pub proof fn lemma_codec_roundtrip(codec: Codec, data: Seq<u8>, level: Option<i32>)
    ensures
        codec_compression(codec, data, level) matches Some(c) ==> payload_holds(codec, c, data),
{
    match codec {
        Codec::Zstd => {
            let l = match level {
                Some(l) => l,
                None => 3i32,
            };
            if let Some(c) = codec_compression(codec, data, level) {
                assert(zstd_compression(data, l) == Some(c));
            }
        },
        Codec::Deflate => {
            let l = deflate_level(level);
            if let Some(c) = codec_compression(codec, data, level) {
                assert(deflate_compression(data, l) == Some(c) && l <= 9);
            }
        },
        _ => {},
    }
}


#[verifier::external_type_specification]
#[verifier::external_body]
pub struct ExBytes(bytes::Bytes);

/// The bytes a `bytes::Bytes` holds.
pub uninterp spec fn bytes_contents(b: bytes::Bytes) -> Seq<u8>;

/// `Bytes::from` on a vector: claims the bytes are the vector's.
#[verifier::external_body]
pub(crate) fn bytes_from_vec(v: Vec<u8>) -> (r: bytes::Bytes)
    ensures
        bytes_contents(r) == v@,
{
    bytes::Bytes::from(v)
}

/// `Bytes::copy_from_slice`: claims the bytes are the slice's.
#[verifier::external_body]
pub(crate) fn bytes_copy_from_slice(s: &[u8]) -> (r: bytes::Bytes)
    ensures
        bytes_contents(r) == s@,
{
    bytes::Bytes::copy_from_slice(s)
}

/// The bytes of a `Bytes` as a slice (`AsRef<[u8]>`): claims the slice holds them.
#[verifier::external_body]
pub(crate) fn bytes_as_slice(b: &bytes::Bytes) -> (r: &[u8])
    ensures
        r@ == bytes_contents(*b),
{
    b.as_ref()
}

/// `Bytes::clone`: claims the clone holds the same bytes.
#[verifier::external_body]
pub(crate) fn bytes_clone(b: &bytes::Bytes) -> (r: bytes::Bytes)
    ensures
        bytes_contents(r) == bytes_contents(*b),
{
    b.clone()
}

/// `Arc::clone` on a shared byte buffer: claims the clone holds the same bytes.
#[verifier::external_body]
pub(crate) fn arc_bytes_clone(a: &Arc<[u8]>) -> (r: Arc<[u8]>)
    ensures
        (*r)@ == (*a)@,
{
    Arc::clone(a)
}

/// A window into a shared byte buffer.
#[derive(Debug)]
pub struct SharedBuffer {
    buffer: Arc<[u8]>,
    offset: usize,
    length: usize,
}

impl View for SharedBuffer {
    type V = Seq<u8>;

    closed spec fn view(&self) -> Seq<u8> {
        (*self.buffer)@.subrange(self.offset as int, self.offset + self.length)
    }
}

impl SharedBuffer {
    #[verifier::type_invariant]
    closed spec fn inv(self) -> bool {
        self.offset + self.length <= (*self.buffer)@.len()
    }

    /// The whole buffer the window looks into.
    pub closed spec fn source(&self) -> Seq<u8> {
        (*self.buffer)@
    }

    /// Where the window starts in the buffer.
    pub closed spec fn start(&self) -> nat {
        self.offset as nat
    }

    /// The window of `length` bytes at `offset` in `buffer`.
    pub fn new(buffer: Arc<[u8]>, offset: usize, length: usize) -> (r: Self)
        requires
            offset + length <= (*buffer)@.len(),
        ensures
            r@ == (*buffer)@.subrange(offset as int, offset + length),
            r.source() == (*buffer)@,
            r.start() == offset,
    {
        SharedBuffer { buffer, offset, length }
    }

    /// The bytes of the window.
    pub fn as_slice(&self) -> (r: &[u8])
        ensures
            r@ == self@,
    {
        proof {
            use_type_invariant(self);
        }
        let buffer_len = self.buffer.len();
        assert(buffer_len == (*self.buffer)@.len());
        &self.buffer[self.offset..self.offset + self.length]
    }

    /// Length of the window.
    pub fn len(&self) -> (r: usize)
        ensures
            r == self@.len(),
    {
        proof {
            use_type_invariant(self);
        }
        self.length
    }

    /// Whether the window is empty.
    pub fn is_empty(&self) -> (r: bool)
        ensures
            r == (self@.len() == 0),
    {
        proof {
            use_type_invariant(self);
        }
        self.length == 0
    }
}

impl Clone for SharedBuffer {
    fn clone(&self) -> (r: Self)
        ensures
            r@ == self@,
    {
        proof {
            use_type_invariant(self);
        }
        SharedBuffer {
            buffer: arc_bytes_clone(&self.buffer),
            offset: self.offset,
            length: self.length,
        }
    }
}

/// How a chunk holds its payload.
#[derive(Debug)]
pub enum ChunkPayload {
    /// Bytes the chunk owns.
    Owned(bytes::Bytes),
    /// A window into the buffer the container was read from.
    Shared(SharedBuffer),
}

impl View for ChunkPayload {
    type V = Seq<u8>;

    open spec fn view(&self) -> Seq<u8> {
        match self {
            ChunkPayload::Owned(b) => bytes_contents(*b),
            ChunkPayload::Shared(s) => s@,
        }
    }
}

impl Clone for ChunkPayload {
    fn clone(&self) -> (r: Self)
        ensures
            r@ == self@,
    {
        match self {
            ChunkPayload::Owned(bytes) => ChunkPayload::Owned(bytes_clone(bytes)),
            ChunkPayload::Shared(buffer) => ChunkPayload::Shared(buffer.clone()),
        }
    }
}

impl ChunkPayload {
    /// The payload is a window into a buffer holding `buf`, not a copy.
    pub open spec fn shared_from(&self, buf: Seq<u8>) -> bool {
        self matches ChunkPayload::Shared(b) && b.source() == buf
    }

    /// The payload is the window at `start` into a buffer holding `buf`.
    pub open spec fn shares(&self, buf: Seq<u8>, start: nat) -> bool {
        self matches ChunkPayload::Shared(b) && b.source() == buf && b.start() == start
    }

    /// The payload bytes.
    pub fn as_slice(&self) -> (r: &[u8])
        ensures
            r@ == self@,
    {
        match self {
            ChunkPayload::Owned(bytes) => bytes_as_slice(bytes),
            ChunkPayload::Shared(buffer) => buffer.as_slice(),
        }
    }

    /// Length of the payload.
    pub fn len(&self) -> (r: usize)
        ensures
            r == self@.len(),
    {
        match self {
            ChunkPayload::Owned(bytes) => bytes_as_slice(bytes).len(),
            ChunkPayload::Shared(buffer) => buffer.len(),
        }
    }

    /// Whether the payload is empty.
    pub fn is_empty(&self) -> (r: bool)
        ensures
            r == (self@.len() == 0),
    {
        self.len() == 0
    }

    /// The payload as owned `Bytes` (a copy for a shared window).
    pub fn to_bytes(&self) -> (r: bytes::Bytes)
        ensures
            bytes_contents(r) == self@,
    {
        match self {
            ChunkPayload::Owned(bytes) => bytes_clone(bytes),
            ChunkPayload::Shared(buffer) => bytes_copy_from_slice(buffer.as_slice()),
        }
    }
}

/// A chunk: kind, codec, transform flags, sizes, hash and payload.
#[derive(Debug, Clone)]
pub struct Chunk {
    /// Kind.
    pub kind: ChunkKind,
    /// Codec of the payload.
    pub codec: Codec,
    /// Transforms applied before compression.
    pub transform_flags: u16,
    /// Length of the raw data (before transforms).
    pub raw_size: u32,
    /// Length of the payload.
    pub compressed_size: u32,
    /// Hash algorithm of the content hash.
    pub hash_algorithm: u8,
    /// Content hash.
    pub content_hash: Vec<u8>,
    /// Compressed payload.
    pub payload: ChunkPayload,
    /// Schema reference the content hash was computed with. The frame does not record it,
    /// so a chunk read from bytes has none.
    pub schema_ref: Option<Vec<u8>>,
}

/// Mathematical value of a chunk.
pub struct ChunkView {
    pub kind: ChunkKind,
    pub codec: Codec,
    pub transform_flags: u16,
    pub raw_size: u32,
    pub compressed_size: u32,
    pub hash_algorithm: u8,
    pub content_hash: Seq<u8>,
    pub payload: Seq<u8>,
    pub schema_ref: Option<Seq<u8>>,
}

impl View for Chunk {
    type V = ChunkView;

    open spec fn view(&self) -> ChunkView {
        ChunkView {
            kind: self.kind,
            codec: self.codec,
            transform_flags: self.transform_flags,
            raw_size: self.raw_size,
            compressed_size: self.compressed_size,
            hash_algorithm: self.hash_algorithm,
            content_hash: self.content_hash@,
            payload: self.payload@,
            schema_ref: match self.schema_ref {
                Some(v) => Some(v@),
                None => None,
            },
        }
    }
}

/// Content hash of raw chunk data: for BLAKE3, the BLAKE3 digest of the canonical payload
/// under the data-only policy; for the other algorithms, their digest of the raw bytes.
pub open spec fn chunk_content_hash(
    kind: ChunkKind,
    transform_flags: u16,
    schema_ref: Option<Seq<u8>>,
    hash_algorithm: u8,
    raw: Seq<u8>,
) -> Option<Seq<u8>> {
    if hash_algorithm == hash_algorithms::BLAKE3 {
        match canonical_payload(
            kind.spec_to_u8(),
            transform_flags,
            schema_ref,
            hash_policy::DATA_ONLY,
            raw,
            cbor_whole(raw),
        ) {
            Some(p) => Some(blake3_digest(p)),
            None => None,
        }
    } else {
        hash_spec(hash_algorithm, raw)
    }
}

/// The chunk built from raw data: the data transformed and compressed, its length (cut to
/// 32 bits) as raw size, and its content hash; `None` when compression or hashing fails.
pub open spec fn chunk_new_spec(
    kind: ChunkKind,
    raw: Seq<u8>,
    codec: Codec,
    transform_flags: u16,
    hash_algorithm: u8,
    schema_ref: Option<Seq<u8>>,
) -> Option<ChunkView> {
    match (
        codec_compression(codec, transform_apply(transform_flags, raw), None),
        chunk_content_hash(kind, transform_flags, schema_ref, hash_algorithm, raw),
    ) {
        (Some(p), Some(h)) => Some(
            ChunkView {
                kind,
                codec,
                transform_flags,
                raw_size: raw.len() as u32,
                compressed_size: p.len() as u32,
                hash_algorithm,
                content_hash: h,
                payload: p,
                schema_ref,
            },
        ),
        _ => None,
    }
}

/// The raw data a chunk gives back: the payload decompressed to the raw size, the transforms
/// undone, and the content hash (with the chunk's schema reference) checked; `None` when any
/// step fails.
pub open spec fn chunk_raw_data(c: ChunkView) -> Option<Seq<u8>> {
    match codec_decompression(c.codec, c.payload, Some(c.raw_size as usize)) {
        None => None,
        Some(t) => {
            let d = transform_reverse(c.transform_flags, t);
            if chunk_content_hash(c.kind, c.transform_flags, c.schema_ref, c.hash_algorithm, d) == Some(
                c.content_hash,
            ) {
                Some(d)
            } else {
                None
            }
        },
    }
}

/// The chunk's payload is `d` transformed and compressed under the chunk's codec, and its
/// hash is the content hash of `d`.
pub open spec fn chunk_decodes_to(c: ChunkView, d: Seq<u8>) -> bool {
    &&& d.len() == c.raw_size
    &&& payload_holds(c.codec, c.payload, transform_apply(c.transform_flags, d))
    &&& chunk_content_hash(c.kind, c.transform_flags, c.schema_ref, c.hash_algorithm, d) == Some(
        c.content_hash,
    )
}

/// Whether the chunk checks out: the payload decompresses to the raw size, and with the
/// transforms undone the content hash matches (see `chunk_raw_data`).
pub open spec fn chunk_verify_ok(c: ChunkView) -> bool {
    chunk_raw_data(c) is Some
}

/// Law: a chunk built from raw data (of at most `u32::MAX` bytes), with or without a schema
/// reference, decodes to that data: its payload is the transformed data compressed under its
/// codec, its raw size is the data's length, and its hash is the data's content hash.
pub proof fn lemma_chunk_new_roundtrip(
    kind: ChunkKind,
    raw: Seq<u8>,
    codec: Codec,
    transform_flags: u16,
    hash_algorithm: u8,
    schema_ref: Option<Seq<u8>>,
)
    requires
        raw.len() <= u32::MAX,
    ensures
        chunk_new_spec(kind, raw, codec, transform_flags, hash_algorithm, schema_ref) matches Some(c)
            ==> chunk_decodes_to(c, raw),
{
    if let Some(c) = chunk_new_spec(kind, raw, codec, transform_flags, hash_algorithm, schema_ref) {
        let t = transform_apply(transform_flags, raw);
        lemma_codec_roundtrip(codec, t, None);
        crate::transform::lemma_transform_len(transform_flags, raw);
    }
}


/// Bytes of a chunk frame before its CRC: "CK01", kind, codec, little-endian transform flags,
/// raw size and payload size, hash algorithm, hash length (cut to 8 bits), hash, two zero
/// reserved bytes, payload.
pub open spec fn chunk_frame_body(c: ChunkView) -> Seq<u8> {
    CHUNK_MAGIC@ + seq![c.kind.spec_to_u8(), c.codec.spec_to_u8()] + u16_le(c.transform_flags)
        + u32_le(c.raw_size) + u32_le(c.compressed_size) + seq![
        c.hash_algorithm,
        c.content_hash.len() as u8,
    ] + c.content_hash + seq![0u8, 0u8] + c.payload
}

/// Bytes of a chunk frame: its body and the little-endian CRC-32C of the body.
#[verifier::opaque]
pub open spec fn chunk_frame(c: ChunkView) -> Seq<u8> {
    chunk_frame_body(c) + u32_le(crc32c_checksum(chunk_frame_body(c)))
}

/// Length a frame at the front of `d` claims: header with hash, payload, CRC.
pub open spec fn chunk_frame_total(d: Seq<u8>) -> nat {
    20 + d[17] as nat + le_u32(d.skip(12)) as nat + 4
}

/// The input starts like a frame and ends inside its two reserved bytes.
#[verifier::opaque]
pub open spec fn chunk_frame_cut_in_reserved(d: Seq<u8>) -> bool {
    &&& d.len() >= 23
    &&& d.take(4) == CHUNK_MAGIC@
    &&& 18 + d[17] <= d.len() < 20 + d[17]
}

/// The chunk framed at the front of `d` and the frame's length, or `None` when the input is
/// too short, the magic is wrong, or the CRC does not match.
#[verifier::opaque]
pub open spec fn chunk_frame_parse(d: Seq<u8>) -> Option<(ChunkView, nat)> {
    if d.len() < 23 || d.take(4) != CHUNK_MAGIC@ || d.len() < 20 + d[17] {
        None
    } else {
        let hs = 20 + d[17] as nat;
        let cs = le_u32(d.skip(12));
        let total = chunk_frame_total(d);
        if d.len() < total {
            None
        } else if le_u32(d.skip(total - 4)) != crc32c_checksum(d.take(total - 4)) {
            None
        } else {
            Some(
                (
                    ChunkView {
                        kind: ChunkKind::spec_from_u8(d[4]),
                        codec: Codec::spec_from_u8(d[5]),
                        transform_flags: le_u16(d.skip(6)),
                        raw_size: le_u32(d.skip(8)),
                        compressed_size: cs,
                        hash_algorithm: d[16],
                        content_hash: d.subrange(18, 18 + d[17] as int),
                        payload: d.subrange(hs as int, hs + cs),
                        schema_ref: None,
                    },
                    total,
                ),
            )
        }
    }
}

/// A parsed frame is at least 24 bytes long and lies within the input.
pub proof fn lemma_chunk_frame_total_bound(d: Seq<u8>)
    ensures
        chunk_frame_parse(d) matches Some((c, n)) ==> 24 <= n <= d.len(),
{
    reveal(chunk_frame_parse);
}

/// Fields of a checked frame header.
struct FrameHeader {
    kind: ChunkKind,
    codec: Codec,
    transform_flags: u16,
    raw_size: u32,
    compressed_size: u32,
    hash_algorithm: u8,
    content_hash: Vec<u8>,
    header_size: usize,
    total: usize,
}

/// Reads and checks the frame at the front of `data`: everything but the payload itself.
fn parse_frame_header(data: &[u8]) -> (r: Result<FrameHeader>)
    ensures
        chunk_frame_cut_in_reserved(data@) ==> r matches Err(UnivError::IncompleteData { .. }),
        match chunk_frame_parse(data@) {
            Some((c, n)) => r matches Ok(h) && h.kind == c.kind && h.codec == c.codec
                && h.transform_flags == c.transform_flags && h.raw_size == c.raw_size
                && h.compressed_size == c.compressed_size && h.hash_algorithm == c.hash_algorithm
                && h.content_hash@ == c.content_hash && h.total == n && h.header_size == 20
                + data@[17] && h.header_size + h.compressed_size + 4 == h.total && h.total
                <= data@.len(),
            None => r is Err,
        },
        data@.len() < 23 ==> (r matches Err(UnivError::IncompleteData { expected, actual })
            && expected == 23 && actual == data@.len()),
        data@.len() >= 23 && data@.take(4) != CHUNK_MAGIC@ ==> r matches Err(
            UnivError::ChunkParseError { .. },
        ),
        data@.len() >= 23 && data@.take(4) == CHUNK_MAGIC@ && 20 + data@[17] <= data@.len()
            && chunk_frame_total(data@) <= data@.len() && le_u32(
            data@.skip(chunk_frame_total(data@) - 4),
        ) != crc32c_checksum(data@.take(chunk_frame_total(data@) - 4)) ==> (r matches Err(
            UnivError::CrcMismatch { expected, actual },
        ) && expected == le_u32(data@.skip(chunk_frame_total(data@) - 4)) && actual
            == crc32c_checksum(data@.take(chunk_frame_total(data@) - 4))),
{
    reveal(chunk_frame_parse);
    reveal(chunk_frame_cut_in_reserved);
    if data.len() < crate::constants::CHUNK_FRAME_HEADER_SIZE + crate::constants::CHUNK_FRAME_CRC_SIZE {
        return Err(UnivError::IncompleteData {
            expected: crate::constants::CHUNK_FRAME_HEADER_SIZE + crate::constants::CHUNK_FRAME_CRC_SIZE,
            actual: data.len(),
        });
    }
    let frame_magic: [u8; 4] = [data[0], data[1], data[2], data[3]];
    assert(frame_magic@ =~= data@.take(4));
    if !crate::profile::codes_equal(&frame_magic, &CHUNK_MAGIC) {
        return Err(UnivError::chunk_parse_error("无效的块帧头"));
    }
    let kind = ChunkKind::from_u8(data[4]);
    let codec = Codec::from_u8(data[5]);
    let transform_flags = get_u16_le(data, 6);
    let raw_size = get_u32_le(data, 8);
    let compressed_size = get_u32_le(data, 12);
    let hash_algorithm = data[16];
    let hash_len = data[17] as usize;
    let remaining = data.len() - 18;
    if remaining < hash_len {
        return Err(UnivError::IncompleteData { expected: hash_len, actual: remaining });
    }
    let content_hash = vstd::slice::slice_to_vec(&data[18..18 + hash_len]);
    let header_size = 20 + hash_len;
    let total_frame_size: u64 = header_size as u64 + compressed_size as u64 + 4;
    if (data.len() as u64) < total_frame_size {
        return Err(UnivError::IncompleteData {
            expected: total_frame_size as usize,
            actual: data.len(),
        });
    }
    let total = total_frame_size as usize;
    let expected_crc = get_u32_le(data, total - 4);
    let actual_crc = crc32c(&data[0..total - 4]);
    assert(data@.subrange(0, total - 4) =~= data@.take(total - 4));
    if expected_crc != actual_crc {
        return Err(UnivError::CrcMismatch { expected: expected_crc, actual: actual_crc });
    }
    Ok(
        FrameHeader {
            kind,
            codec,
            transform_flags,
            raw_size,
            compressed_size,
            hash_algorithm,
            content_hash,
            header_size,
            total,
        },
    )
}

impl Chunk {
    /// A chunk of raw data: transformed, compressed with `codec` and hashed with
    /// `hash_algorithm`, without a schema reference.
    pub fn new(
        kind: ChunkKind,
        raw_data: &[u8],
        codec: Codec,
        transform_flags: u16,
        hash_algorithm: u8,
    ) -> (r: Result<Self>)
        ensures
            match chunk_new_spec(kind, raw_data@, codec, transform_flags, hash_algorithm, None) {
                Some(c) => r matches Ok(x) && x@ == c,
                None => r is Err,
            },
            r matches Ok(x) ==> x@.content_hash.len() <= 32,
    {
        Self::new_with_schema_ref(kind, raw_data, codec, transform_flags, hash_algorithm, None)
    }

    /// A chunk of raw data whose content hash covers a schema reference; the chunk keeps the
    /// reference so that it checks its own hash.
    pub fn new_with_schema_ref(
        kind: ChunkKind,
        raw_data: &[u8],
        codec: Codec,
        transform_flags: u16,
        hash_algorithm: u8,
        schema_ref: Option<&[u8]>,
    ) -> (r: Result<Self>)
        ensures
            match chunk_new_spec(
                kind,
                raw_data@,
                codec,
                transform_flags,
                hash_algorithm,
                crate::canonical::opt_bytes(schema_ref),
            ) {
                Some(c) => r matches Ok(x) && x@ == c,
                None => r is Err,
            },
            r matches Ok(x) ==> x@.content_hash.len() <= 32,
    {
        let original_raw_size = raw_data.len() as u32;
        let transformed_data = if transform_flags != 0 {
            let transformer = DataTransformer::new(transform_flags);
            transformer.apply(raw_data)?
        } else {
            assert(transform_flags & crate::constants::transform_flags::DELTA == 0) by (bit_vector)
                requires
                    transform_flags == 0,
            ;
            vstd::slice::slice_to_vec(raw_data)
        };
        let compressed_data = codec.compress(transformed_data.as_slice())?;
        let hash_bytes = if hash_algorithm == hash_algorithms::BLAKE3 {
            compute_canonical_content_hash(
                kind.to_u8(),
                transform_flags,
                schema_ref,
                hash_policy::DATA_ONLY,
                raw_data,
            )?
        } else {
            HashProvider::hash(hash_algorithm, raw_data)?
        };
        let compressed_size = compressed_data.len() as u32;
        Ok(
            Chunk {
                kind,
                codec,
                transform_flags,
                raw_size: original_raw_size,
                compressed_size,
                hash_algorithm,
                content_hash: hash_bytes,
                payload: ChunkPayload::Owned(bytes_from_vec(compressed_data)),
                schema_ref: match schema_ref {
                    Some(sr) => Some(vstd::slice::slice_to_vec(sr)),
                    None => None,
                },
            },
        )
    }

    /// A chunk from its parts, the payload already compressed.
    pub fn from_parts(
        kind: ChunkKind,
        codec: Codec,
        transform_flags: u16,
        raw_size: u32,
        hash_algorithm: u8,
        content_hash: Vec<u8>,
        payload: bytes::Bytes,
    ) -> (r: Self)
        ensures
            r@ == (ChunkView {
                kind,
                codec,
                transform_flags,
                raw_size,
                compressed_size: bytes_contents(payload).len() as u32,
                hash_algorithm,
                content_hash: content_hash@,
                payload: bytes_contents(payload),
                schema_ref: None,
            }),
    {
        let compressed_size = bytes_as_slice(&payload).len() as u32;
        Chunk {
            kind,
            codec,
            transform_flags,
            raw_size,
            compressed_size,
            hash_algorithm,
            content_hash,
            payload: ChunkPayload::Owned(payload),
            schema_ref: None,
        }
    }

    /// A chunk whose payload is a window into a shared buffer.
    pub fn from_shared_buffer(
        kind: ChunkKind,
        codec: Codec,
        transform_flags: u16,
        raw_size: u32,
        hash_algorithm: u8,
        content_hash: Vec<u8>,
        shared_buffer: SharedBuffer,
    ) -> (r: Self)
        ensures
            r@ == (ChunkView {
                kind,
                codec,
                transform_flags,
                raw_size,
                compressed_size: shared_buffer@.len() as u32,
                hash_algorithm,
                content_hash: content_hash@,
                payload: shared_buffer@,
                schema_ref: None,
            }),
            r.payload.shares(shared_buffer.source(), shared_buffer.start()),
    {
        let compressed_size = shared_buffer.len() as u32;
        Chunk {
            kind,
            codec,
            transform_flags,
            raw_size,
            compressed_size,
            hash_algorithm,
            content_hash,
            payload: ChunkPayload::Shared(shared_buffer),
            schema_ref: None,
        }
    }

    /// The raw data: the payload decompressed to the raw size, the transforms undone and the
    /// content hash checked.
    pub fn get_raw_data(&self) -> (r: Result<Vec<u8>>)
        ensures
            match chunk_raw_data(self@) {
                Some(d) => r matches Ok(x) && x@ == d,
                None => r is Err,
            },
            forall|d: Seq<u8>| #[trigger] chunk_decodes_to(self@, d) ==> (r matches Ok(x) && x@ == d),
    {
        let payload_data = self.payload.as_slice();
        let decompressed = self.codec.decompress(payload_data, Some(self.raw_size as usize));
        proof {
            assert forall|d: Seq<u8>| #[trigger] chunk_decodes_to(self@, d) implies chunk_raw_data(
                self@,
            ) == Some(d) by {
                let t = transform_apply(self.transform_flags, d);
                crate::transform::lemma_transform_roundtrip(self.transform_flags, d);
                crate::transform::lemma_transform_len(self.transform_flags, d);
                assert(payload_holds(self.codec, payload_data@, t));
            }
        }
        let decompressed = decompressed?;
        let raw_data = if self.transform_flags != 0 {
            let transformer = DataTransformer::new(self.transform_flags);
            transformer.reverse(decompressed.as_slice())?
        } else {
            let f = self.transform_flags;
            assert(f & crate::constants::transform_flags::DELTA == 0) by (bit_vector)
                requires
                    f == 0,
            ;
            decompressed
        };
        self.verify_content_hash(raw_data.as_slice())?;
        Ok(raw_data)
    }

    /// Checks raw data against the content hash (computed with the chunk's schema reference).
    fn verify_content_hash(&self, raw_data: &[u8]) -> (r: Result<()>)
        ensures
            match chunk_content_hash(
                self.kind,
                self.transform_flags,
                self@.schema_ref,
                self.hash_algorithm,
                raw_data@,
            ) {
                Some(h) => if h == self.content_hash@ {
                    r is Ok
                } else {
                    r matches Err(UnivError::HashMismatch { expected, actual }) && expected@
                        == hex_encoding(self.content_hash@) && actual@ == hex_encoding(h)
                },
                None => r is Err,
            },
    {
        let schema_ref: Option<&[u8]> = match &self.schema_ref {
            Some(v) => Some(v.as_slice()),
            None => None,
        };
        assert(crate::canonical::opt_bytes(schema_ref) == self@.schema_ref);
        let computed_hash = if self.hash_algorithm == hash_algorithms::BLAKE3 {
            compute_canonical_content_hash(
                self.kind.to_u8(),
                self.transform_flags,
                schema_ref,
                hash_policy::DATA_ONLY,
                raw_data,
            )?
        } else {
            HashProvider::hash(self.hash_algorithm, raw_data)?
        };
        if !crate::util::hash::bytes_equal(computed_hash.as_slice(), self.content_hash.as_slice()) {
            return Err(UnivError::HashMismatch {
                expected: hex_encode(self.content_hash.as_slice()),
                actual: hex_encode(computed_hash.as_slice()),
            });
        }
        Ok(())
    }

    /// Checks the chunk: the payload decompresses to the raw size and, with the transforms
    /// undone, the content hash matches; the same check as `verify_traditional`.
    pub fn verify_streaming(&self) -> (r: Result<()>)
        ensures
            r is Ok <==> chunk_verify_ok(self@),
            forall|d: Seq<u8>| #[trigger] chunk_decodes_to(self@, d) ==> r is Ok,
    {
        self.get_raw_data()?;
        Ok(())
    }

    /// Checks the chunk (see `verify_streaming`).
    pub fn verify(&self) -> (r: Result<()>)
        ensures
            r is Ok <==> chunk_verify_ok(self@),
            forall|d: Seq<u8>| #[trigger] chunk_decodes_to(self@, d) ==> r is Ok,
    {
        self.verify_streaming()
    }

    /// Checks the chunk by recovering its raw data.
    pub fn verify_traditional(&self) -> (r: Result<()>)
        ensures
            r is Ok <==> chunk_raw_data(self@) is Some,
    {
        self.get_raw_data()?;
        Ok(())
    }

    /// Whether any transform of `flag` is applied.
    pub fn has_transform(&self, flag: u16) -> (r: bool)
        ensures
            r == (self.transform_flags & flag != 0),
    {
        self.transform_flags & flag != 0
    }

    /// Length of the serialized frame.
    pub fn estimated_serialized_size(&self) -> (r: usize)
        requires
            26 + self.content_hash@.len() + self.payload@.len() <= usize::MAX,
        ensures
            r == 26 + self.content_hash@.len() + self.payload@.len(),
    {
        crate::constants::CHUNK_FRAME_HEADER_SIZE + 1 + self.content_hash.len() + 2
            + self.payload.len() + crate::constants::CHUNK_FRAME_CRC_SIZE
    }

    /// Serializes the chunk as a frame.
    pub fn serialize(&self) -> (r: Result<Vec<u8>>)
        ensures
            r matches Ok(b) && b@ == chunk_frame(self@),
    {
        let mut buf: Vec<u8> = Vec::new();
        buf.push(CHUNK_MAGIC[0]);
        buf.push(CHUNK_MAGIC[1]);
        buf.push(CHUNK_MAGIC[2]);
        buf.push(CHUNK_MAGIC[3]);
        buf.push(self.kind.to_u8());
        buf.push(self.codec.to_u8());
        put_u16_le(&mut buf, self.transform_flags);
        put_u32_le(&mut buf, self.raw_size);
        put_u32_le(&mut buf, self.compressed_size);
        buf.push(self.hash_algorithm);
        let hash_len = self.content_hash.len() as u8;
        buf.push(hash_len);
        buf.extend_from_slice(self.content_hash.as_slice());
        put_u16_le(&mut buf, 0);
        buf.extend_from_slice(self.payload.as_slice());
        assert(u16_le(0) =~= seq![0u8, 0u8]) by {
            assert((0u16 & 0xff) as u8 == 0 && ((0u16 >> 8u16) & 0xff) as u8 == 0) by (bit_vector);
        }
        assert(buf@ =~= chunk_frame_body(self@));
        let crc = crc32c(buf.as_slice());
        put_u32_le(&mut buf, crc);
        proof {
            reveal(chunk_frame);
        }
        Ok(buf)
    }

    /// Parses the chunk framed at the front of `data`: the chunk (with an owned copy of the
    /// payload) and the frame's length.
    pub fn deserialize(data: &[u8]) -> (r: Result<(Self, usize)>)
        ensures
            chunk_frame_cut_in_reserved(data@) ==> r matches Err(UnivError::IncompleteData { .. }),
            match chunk_frame_parse(data@) {
                Some((c, n)) => r matches Ok((x, m)) && x@ == c && m == n,
                None => r is Err,
            },
            data@.len() < 23 ==> (r matches Err(UnivError::IncompleteData { expected, actual })
                && expected == 23 && actual == data@.len()),
            data@.len() >= 23 && data@.take(4) != CHUNK_MAGIC@ ==> r matches Err(
                UnivError::ChunkParseError { .. },
            ),
            data@.len() >= 23 && data@.take(4) == CHUNK_MAGIC@ && 20 + data@[17] <= data@.len()
                && chunk_frame_total(data@) <= data@.len() && le_u32(
                data@.skip(chunk_frame_total(data@) - 4),
            ) != crc32c_checksum(data@.take(chunk_frame_total(data@) - 4)) ==> (r matches Err(
                UnivError::CrcMismatch { expected, actual },
            ) && expected == le_u32(data@.skip(chunk_frame_total(data@) - 4)) && actual
                == crc32c_checksum(data@.take(chunk_frame_total(data@) - 4))),
    {
        let h = parse_frame_header(data)?;
        let cs = h.compressed_size as usize;
        let payload = bytes_copy_from_slice(&data[h.header_size..h.header_size + cs]);
        let chunk = Self::from_parts(
            h.kind,
            h.codec,
            h.transform_flags,
            h.raw_size,
            h.hash_algorithm,
            h.content_hash,
            payload,
        );
        proof {
            reveal(chunk_frame_parse);
        }
        Ok((chunk, h.total))
    }

    /// Parses the chunk framed at `offset` in a shared buffer, its payload a window into
    /// the buffer: the chunk and the frame's length.
    pub fn deserialize_zero_copy(shared_buffer: Arc<[u8]>, offset: usize) -> (r: Result<(Self, usize)>)
        requires
            offset <= (*shared_buffer)@.len(),
        ensures
            chunk_frame_cut_in_reserved((*shared_buffer)@.skip(offset as int)) ==> r matches Err(
                UnivError::IncompleteData { .. },
            ),
            match chunk_frame_parse((*shared_buffer)@.skip(offset as int)) {
                Some((c, n)) => r matches Ok((x, m)) && x@ == c && m == n && x.payload.shares(
                    (*shared_buffer)@,
                    (offset + 20 + (*shared_buffer)@[offset + 17]) as nat,
                ),
                None => r is Err,
            },
    {
        let buffer_len = shared_buffer.len();
        let data = &shared_buffer[offset..buffer_len];
        assert(data@ =~= (*shared_buffer)@.skip(offset as int));
        let h = parse_frame_header(data)?;
        let cs = h.compressed_size as usize;
        let payload_buffer = SharedBuffer::new(
            arc_bytes_clone(&shared_buffer),
            offset + h.header_size,
            cs,
        );
        assert(payload_buffer@ =~= data@.subrange(h.header_size as int, h.header_size + cs));
        let chunk = Self::from_shared_buffer(
            h.kind,
            h.codec,
            h.transform_flags,
            h.raw_size,
            h.hash_algorithm,
            h.content_hash,
            payload_buffer,
        );
        proof {
            reveal(chunk_frame_parse);
        }
        Ok((chunk, h.total))
    }
}

/// Law: a chunk frame reads back as the chunk, whatever follows it, and reading takes the
/// whole frame. It holds when the kind and codec are well formed, the hash has at most 255
/// bytes, the payload's length is the recorded compressed size, and the chunk carries no
/// schema reference (which the frame does not record).
pub proof fn lemma_chunk_frame_roundtrip(c: ChunkView, rest: Seq<u8>)
    requires
        c.kind.well_formed(),
        c.codec.well_formed(),
        c.content_hash.len() <= 255,
        c.payload.len() == c.compressed_size,
        c.schema_ref is None,
    ensures
        chunk_frame_parse(chunk_frame(c) + rest) == Some((c, chunk_frame(c).len())),
        !chunk_frame_cut_in_reserved(chunk_frame(c) + rest),
{
    reveal(chunk_frame);
    reveal(chunk_frame_parse);
    reveal(chunk_frame_cut_in_reserved);
    let body = chunk_frame_body(c);
    let d = chunk_frame(c) + rest;
    let hl: int = c.content_hash.len() as int;
    assert(body.len() == 20 + hl + c.payload.len());
    assert(d.take(4) =~= CHUNK_MAGIC@);
    assert(d[17] == hl as u8);
    assert((hl as u8) as int == hl);
    crate::util::le::lemma_u16_le_roundtrip(c.transform_flags, d.skip(8));
    assert(d.skip(6) =~= u16_le(c.transform_flags) + d.skip(8));
    crate::util::le::lemma_u32_le_roundtrip(c.raw_size, d.skip(12));
    assert(d.skip(8) =~= u32_le(c.raw_size) + d.skip(12));
    crate::util::le::lemma_u32_le_roundtrip(c.compressed_size, d.skip(16));
    assert(d.skip(12) =~= u32_le(c.compressed_size) + d.skip(16));
    let total = chunk_frame_total(d);
    assert(total == body.len() + 4);
    crate::util::le::lemma_u32_le_roundtrip(crc32c_checksum(body), rest);
    assert(d.skip(total - 4) =~= u32_le(crc32c_checksum(body)) + rest);
    assert(d.take(total - 4) =~= body);
    assert(d.subrange(18, 18 + hl) =~= c.content_hash);
    assert(d.subrange(20 + hl, 20 + hl + c.payload.len()) =~= c.payload);
    lemma_chunk_kind_code_roundtrip(c.kind, 0);
    lemma_codec_code_roundtrip(c.codec, 0);
}


/// One compression level tried by `Chunk::try_recompress`.
#[derive(Debug, Clone, Copy, PartialEq, Eq)]
pub struct CompressionLevelStats {
    /// Level tried.
    pub level: i32,
    /// Compressed size at that level (cut to 32 bits).
    pub compressed_size: u32,
    /// Bytes saved against the size before recompression (0 when none).
    pub improvement_bytes: u32,
}

/// Outcome of `Chunk::try_recompress`; the improvement ratio is
/// `improvement_bytes / original_size` in percent.
#[derive(Debug, Clone)]
pub struct CompressionStats {
    /// Payload size before.
    pub original_size: u32,
    /// Payload size after.
    pub final_size: u32,
    /// Bytes saved.
    pub improvement_bytes: u32,
    /// The levels that compressed successfully, in the order tried.
    pub levels_tested: Vec<CompressionLevelStats>,
}

/// Byte counts of a chunk frame's parts; the metadata ratio is
/// `total_metadata_bytes / (total_metadata_bytes + payload_bytes)` in percent.
#[derive(Debug, Clone, Copy)]
pub struct StructuralOverhead {
    /// Fixed frame header.
    pub header_bytes: u32,
    /// Hash length byte and hash.
    pub hash_bytes: u32,
    /// CRC trailer.
    pub crc_bytes: u32,
    /// All metadata.
    pub total_metadata_bytes: u32,
    /// Payload.
    pub payload_bytes: u32,
}

/// `a - b`, or 0 when `b` is larger.
pub open spec fn saturating_sub_u32(a: u32, b: u32) -> u32 {
    if a > b {
        (a - b) as u32
    } else {
        0
    }
}

/// Levels `try_recompress` tries for a codec.
pub open spec fn recompress_levels(codec: Codec) -> Seq<i32> {
    match codec {
        Codec::Zstd => seq![1i32, 3, 6, 9, 12, 15, 19, 22],
        Codec::Deflate => seq![1i32, 3, 6, 9],
        _ => Seq::empty(),
    }
}

/// The levels of `levels` at which `raw` compresses, each with its output, in order.
pub open spec fn recompress_trials(codec: Codec, raw: Seq<u8>, levels: Seq<i32>) -> Seq<(i32, Seq<u8>)>
    decreases levels.len(),
{
    if levels.len() == 0 {
        Seq::empty()
    } else {
        let prev = recompress_trials(codec, raw, levels.drop_last());
        match codec_compression(codec, raw, Some(levels.last())) {
            Some(c) => prev.push((levels.last(), c)),
            None => prev,
        }
    }
}

/// The smallest output among the trials, starting from a given size and payload; an
/// output replaces the best so far only when strictly smaller (sizes cut to 32 bits).
pub open spec fn best_trial(trials: Seq<(i32, Seq<u8>)>, size: u32, payload: Seq<u8>) -> (u32, Seq<u8>)
    decreases trials.len(),
{
    if trials.len() == 0 {
        (size, payload)
    } else {
        let (bs, bp) = best_trial(trials.drop_last(), size, payload);
        let c = trials.last().1;
        if (c.len() as u32) < bs {
            (c.len() as u32, c)
        } else {
            (bs, bp)
        }
    }
}

/// The statistics line of each trial.
pub open spec fn trial_stats(trials: Seq<(i32, Seq<u8>)>, original: u32) -> Seq<CompressionLevelStats> {
    trials.map_values(
        |t: (i32, Seq<u8>)|
            CompressionLevelStats {
                level: t.0,
                compressed_size: t.1.len() as u32,
                improvement_bytes: saturating_sub_u32(original, t.1.len() as u32),
            },
    )
}

/// What `Chunk::try_recompress` does: with raw data to read, it reports every level that
/// compressed, and takes the smallest output when that saves at least `min_improvement`
/// bytes; without, it fails and leaves the chunk as it was.
pub open spec fn recompressed(
    before: Chunk,
    after: Chunk,
    r: Result<CompressionStats>,
    min_improvement: u32,
) -> bool {
    match chunk_raw_data(before@) {
        None => r is Err && after@ == before@,
        Some(raw) => {
            let trials = recompress_trials(
                before.codec,
                transform_apply(before.transform_flags, raw),
                recompress_levels(before.codec),
            );
            let (bs, bp) = best_trial(trials, before.compressed_size, before@.payload);
            let improvement = saturating_sub_u32(before.compressed_size, bs);
            &&& r matches Ok(stats)
            &&& stats.original_size == before.compressed_size
            &&& stats.levels_tested@ == trial_stats(trials, before.compressed_size)
            &&& if improvement >= min_improvement && bs < before.compressed_size {
                &&& after@ == (ChunkView {
                    compressed_size: bs,
                    payload: bp,
                    ..before@
                })
                &&& stats.final_size == bs
                &&& stats.improvement_bytes == improvement
                &&& chunk_decodes_to(after@, raw)
                &&& bs == bp.len() as u32
            } else {
                &&& after@ == before@
                &&& stats.final_size == before.compressed_size
                &&& stats.improvement_bytes == 0
            }
        },
    }
}

/// The best trial is no larger than the starting size and than any trial, and it is the
/// starting payload or one of the trials.
proof fn lemma_best_trial_smallest(trials: Seq<(i32, Seq<u8>)>, size: u32, payload: Seq<u8>)
    ensures
        ({
            let (bs, bp) = best_trial(trials, size, payload);
            &&& bs <= size
            &&& forall|i: int| 0 <= i < trials.len() ==> bs <= (#[trigger] trials[i]).1.len() as u32
            &&& (bs == size && bp == payload) || exists|i: int|
                0 <= i < trials.len() && bs == (#[trigger] trials[i]).1.len() as u32 && bp == trials[i].1
        }),
    decreases trials.len(),
{
    if trials.len() > 0 {
        let prev = trials.drop_last();
        lemma_best_trial_smallest(prev, size, payload);
        let (ps, pp) = best_trial(prev, size, payload);
        let last = trials.len() - 1;
        assert(trials.last() == trials[last]);
        assert forall|i: int| 0 <= i < prev.len() implies #[trigger] prev[i] == trials[i] by {}
        let (bs, bp) = best_trial(trials, size, payload);
        assert forall|i: int| 0 <= i < trials.len() implies bs <= (#[trigger] trials[i]).1.len() as u32 by {
            if i < last {
                assert(prev[i] == trials[i]);
            }
        }
        if !(bs == size && bp == payload) {
            if (trials[last].1.len() as u32) < ps {
                assert(bs == trials[last].1.len() as u32 && bp == trials[last].1);
            } else {
                let j = choose|j: int| 0 <= j < prev.len() && ps == (#[trigger] prev[j]).1.len() as u32 && pp == prev[j].1;
                assert(prev[j] == trials[j]);
            }
        }
    }
}

/// Law: recompression keeps the smallest output. The size after is at most the size before
/// and the bytes saved are their difference; when the chunk shrank, its new size is that of
/// one of the tested levels, no tested level gave a smaller output, and it saved at least the
/// minimum asked for; when some tested level saves at least that minimum, the chunk shrinks;
/// and with no minimum saving asked for, no tested level is smaller than the size after.
pub proof fn lemma_recompress_keeps_smallest(
    before: Chunk,
    after: Chunk,
    r: Result<CompressionStats>,
    min_improvement: u32,
)
    requires
        recompressed(before, after, r, min_improvement),
    ensures
        r matches Ok(stats) ==> {
            let tested = stats.levels_tested@;
            &&& stats.original_size == before.compressed_size
            &&& after@.compressed_size == stats.final_size
            &&& stats.final_size <= stats.original_size
            &&& stats.improvement_bytes == stats.original_size - stats.final_size
            &&& stats.final_size < stats.original_size ==> (forall|i: int|
                0 <= i < tested.len() ==> stats.final_size <= (#[trigger] tested[i]).compressed_size)
                && exists|i: int| 0 <= i < tested.len() && (#[trigger] tested[i]).compressed_size == stats.final_size
            &&& min_improvement == 0 ==> forall|i: int|
                0 <= i < tested.len() ==> stats.final_size <= (#[trigger] tested[i]).compressed_size
            &&& stats.final_size < stats.original_size ==> stats.original_size - stats.final_size
                >= min_improvement
            &&& (exists|i: int|
                0 <= i < tested.len() && (#[trigger] tested[i]).compressed_size < stats.original_size
                    && stats.original_size - tested[i].compressed_size >= min_improvement)
                ==> stats.final_size < stats.original_size
        },
{
    if let Some(raw) = chunk_raw_data(before@) {
        let trials = recompress_trials(
            before.codec,
            transform_apply(before.transform_flags, raw),
            recompress_levels(before.codec),
        );
        lemma_best_trial_smallest(trials, before.compressed_size, before@.payload);
        let stats = r.unwrap();
        let tested = stats.levels_tested@;
        assert(tested == trial_stats(trials, before.compressed_size));
        assert(tested.len() == trials.len());
        assert forall|i: int| 0 <= i < tested.len() implies (#[trigger] tested[i]).compressed_size
            == trials[i].1.len() as u32 by {}
        let (bs, bp) = best_trial(trials, before.compressed_size, before@.payload);
        if exists|i: int|
            0 <= i < tested.len() && (#[trigger] tested[i]).compressed_size < stats.original_size
                && stats.original_size - tested[i].compressed_size >= min_improvement {
            let i = choose|i: int|
                0 <= i < tested.len() && (#[trigger] tested[i]).compressed_size < stats.original_size
                    && stats.original_size - tested[i].compressed_size >= min_improvement;
            assert(bs <= trials[i].1.len() as u32);
        }
        if stats.final_size < stats.original_size {
            if !(bs == before.compressed_size && bp == before@.payload) {
                let j = choose|j: int|
                    0 <= j < trials.len() && bs == (#[trigger] trials[j]).1.len() as u32 && bp == trials[j].1;
                assert(tested[j].compressed_size == stats.final_size);
            }
        }
    }
}

/// The best of the trials is the starting payload or an output of the codec from `t`.
proof fn lemma_best_trial_holds(codec: Codec, t: Seq<u8>, levels: Seq<i32>, size: u32, payload: Seq<u8>)
    ensures
        ({
            let (bs, bp) = best_trial(recompress_trials(codec, t, levels), size, payload);
            (bs == size && bp == payload) || (payload_holds(codec, bp, t) && bs == bp.len() as u32)
        }),
    decreases levels.len(),
{
    if levels.len() > 0 {
        let prev = recompress_trials(codec, t, levels.drop_last());
        lemma_best_trial_holds(codec, t, levels.drop_last(), size, payload);
        lemma_codec_roundtrip(codec, t, Some(levels.last()));
        match codec_compression(codec, t, Some(levels.last())) {
            Some(c) => {
                let cur = prev.push((levels.last(), c));
                assert(cur.drop_last() =~= prev);
                assert(cur.last() == (levels.last(), c));
            },
            None => {},
        }
    }
}

impl Chunk {
    /// Tries the codec's compression levels on the chunk's transformed data (what the payload
    /// decompresses to) and keeps the smallest output when it saves at least
    /// `min_improvement_bytes`; the chunk then still decodes to the same raw data.
    pub fn try_recompress(&mut self, min_improvement_bytes: u32) -> (r: Result<CompressionStats>)
        ensures
            recompressed(*old(self), *final(self), r, min_improvement_bytes),
    {
        let raw_data = self.get_raw_data()?;
        let raw_data = DataTransformer::new(self.transform_flags).apply(raw_data.as_slice())?;
        let ghost raw = raw_data@;
        let original_compressed_size = self.compressed_size;
        let mut best_compressed_data = vstd::slice::slice_to_vec(self.payload.as_slice());
        let mut best_size = self.compressed_size;
        let mut levels_tested: Vec<CompressionLevelStats> = Vec::new();
        let levels_to_test: Vec<i32> = match self.codec {
            Codec::Zstd => vec![1, 3, 6, 9, 12, 15, 19, 22],
            Codec::Deflate => vec![1, 3, 6, 9],
            _ => Vec::new(),
        };
        let ghost levels = recompress_levels(self.codec);
        assert(levels_to_test@ =~= levels);
        let mut i: usize = 0;
        assert(levels.take(0) =~= Seq::<i32>::empty());
        assert(levels_tested@ =~= trial_stats(Seq::empty(), original_compressed_size));
        while i < levels_to_test.len()
            invariant
                i <= levels_to_test@.len(),
                levels_to_test@ == levels,
                raw_data@ == raw,
                self.codec == old(self).codec,
                *self == *old(self),
                original_compressed_size == old(self).compressed_size,
                levels_tested@ == trial_stats(
                    recompress_trials(self.codec, raw, levels.take(i as int)),
                    original_compressed_size,
                ),
                (best_size, best_compressed_data@) == best_trial(
                    recompress_trials(self.codec, raw, levels.take(i as int)),
                    original_compressed_size,
                    old(self)@.payload,
                ),
            decreases levels_to_test@.len() - i,
        {
            let level = levels_to_test[i];
            let ghost prev = recompress_trials(self.codec, raw, levels.take(i as int));
            assert(levels.take(i + 1).drop_last() =~= levels.take(i as int));
            assert(levels.take(i + 1).last() == level);
            match self.codec.compress_with_level(raw_data.as_slice(), Some(level)) {
                Ok(compressed_data) => {
                    let size = compressed_data.len() as u32;
                    let improvement = if original_compressed_size > size {
                        original_compressed_size - size
                    } else {
                        0
                    };
                    levels_tested.push(
                        CompressionLevelStats { level, compressed_size: size, improvement_bytes: improvement },
                    );
                    let ghost cur = prev.push((level, compressed_data@));
                    assert(trial_stats(cur, original_compressed_size) =~= trial_stats(
                        prev,
                        original_compressed_size,
                    ).push(CompressionLevelStats { level, compressed_size: size, improvement_bytes: improvement }));
                    assert(cur.drop_last() =~= prev);
                    if size < best_size {
                        best_compressed_data = compressed_data;
                        best_size = size;
                    }
                },
                Err(_) => {},
            }
            i += 1;
        }
        assert(levels.take(i as int) =~= levels);
        let improvement = if original_compressed_size > best_size {
            original_compressed_size - best_size
        } else {
            0
        };
        let mut stats = CompressionStats {
            original_size: original_compressed_size,
            final_size: original_compressed_size,
            improvement_bytes: 0,
            levels_tested,
        };
        proof {
            let rd = chunk_raw_data(old(self)@).unwrap();
            lemma_best_trial_holds(
                old(self).codec,
                raw,
                levels,
                original_compressed_size,
                old(self)@.payload,
            );
            crate::transform::lemma_transform_len(old(self).transform_flags, rd);
            crate::transform::lemma_transform_len(
                old(self).transform_flags,
                codec_decompression(old(self).codec, old(self)@.payload, Some(old(self).raw_size as usize)).unwrap(),
            );
        }
        if improvement >= min_improvement_bytes && best_size < original_compressed_size {
            self.compressed_size = best_size;
            self.payload = ChunkPayload::Owned(bytes_from_vec(best_compressed_data));
            stats.final_size = best_size;
            stats.improvement_bytes = improvement;
        }
        Ok(stats)
    }

    /// Byte counts of the frame's parts.
    pub fn get_structural_overhead(&self) -> (r: StructuralOverhead)
        requires
            self.content_hash@.len() + 24 <= usize::MAX,
        ensures
            r.header_bytes == 19,
            r.hash_bytes == (1 + self.content_hash@.len()) as u32,
            r.crc_bytes == 4,
            r.total_metadata_bytes == (24 + self.content_hash@.len()) as u32,
            r.payload_bytes == self.compressed_size,
    {
        let header_size = crate::constants::CHUNK_FRAME_HEADER_SIZE;
        let hash_size = 1 + self.content_hash.len();
        let crc_size = crate::constants::CHUNK_FRAME_CRC_SIZE;
        let total_metadata_size = header_size + hash_size + crc_size;
        StructuralOverhead {
            header_bytes: header_size as u32,
            hash_bytes: hash_size as u32,
            crc_bytes: crc_size as u32,
            total_metadata_bytes: total_metadata_size as u32,
            payload_bytes: self.compressed_size,
        }
    }
}


#[verifier::external_type_specification]
#[verifier::external_body]
pub struct ExBlake3Hasher(blake3::Hasher);

/// The bytes fed so far to a `blake3::Hasher`.
pub uninterp spec fn blake3_hasher_input(h: blake3::Hasher) -> Seq<u8>;

/// `blake3::Hasher::new`: claims nothing has been fed yet.
#[verifier::external_body]
fn blake3_hasher_new() -> (r: blake3::Hasher)
    ensures
        blake3_hasher_input(r) == Seq::<u8>::empty(),
{
    blake3::Hasher::new()
}

/// `blake3::Hasher::update`: claims the bytes are appended to what was fed.
#[verifier::external_body]
fn blake3_hasher_update(h: &mut blake3::Hasher, data: &[u8])
    ensures
        blake3_hasher_input(*final(h)) == blake3_hasher_input(*old(h)) + data@,
{
    h.update(data);
}

/// `blake3::Hasher::finalize`: claims the digest is BLAKE3 of everything fed, as one call
/// of `blake3::hash` on it would give.
#[verifier::external_body]
fn blake3_hasher_finalize(h: &blake3::Hasher) -> (r: Vec<u8>)
    ensures
        r@ == blake3_digest(blake3_hasher_input(*h)),
{
    h.finalize().as_bytes().to_vec()
}

/// Incremental SHA-256 state (`sha2::Sha256`), which Verus cannot declare as it stands.
#[verifier::external_body]
pub struct Sha256State {
    inner: sha2::Sha256,
}

/// The bytes fed so far to a SHA-256 state.
pub uninterp spec fn sha256_state_input(s: Sha256State) -> Seq<u8>;

/// `Sha256::new`: claims nothing has been fed yet.
#[verifier::external_body]
fn sha256_state_new() -> (r: Sha256State)
    ensures
        sha256_state_input(r) == Seq::<u8>::empty(),
{
    Sha256State { inner: <sha2::Sha256 as sha2::Digest>::new() }
}

/// `Digest::update` on a SHA-256 state: claims the bytes are appended to what was fed.
#[verifier::external_body]
fn sha256_state_update(s: &mut Sha256State, data: &[u8])
    ensures
        sha256_state_input(*final(s)) == sha256_state_input(*old(s)) + data@,
{
    sha2::Digest::update(&mut s.inner, data);
}

/// `Digest::finalize` on a SHA-256 state: claims the digest is SHA-256 of everything fed.
#[verifier::external_body]
fn sha256_state_finalize(s: Sha256State) -> (r: Vec<u8>)
    ensures
        r@ == crate::util::hash::sha256_digest(sha256_state_input(s)),
{
    sha2::Digest::finalize(s.inner).to_vec()
}

/// Hash state of a streaming verifier.
enum StreamingHashState {
    Blake3(blake3::Hasher),
    Sha256(Sha256State),
}

/// Verifies a hash over data fed in pieces.
pub struct StreamingHashVerifier {
    state: StreamingHashState,
}

impl StreamingHashVerifier {
    /// The algorithm and the bytes fed so far.
    pub closed spec fn fed(&self) -> Seq<u8> {
        match self.state {
            StreamingHashState::Blake3(h) => blake3_hasher_input(h),
            StreamingHashState::Sha256(s) => sha256_state_input(s),
        }
    }

    /// The hash algorithm code.
    pub closed spec fn spec_algorithm(&self) -> u8 {
        match self.state {
            StreamingHashState::Blake3(_) => hash_algorithms::BLAKE3,
            StreamingHashState::Sha256(_) => hash_algorithms::SHA256,
        }
    }

    /// A verifier for BLAKE3 or SHA-256.
    pub fn new(algorithm: u8) -> (r: Result<Self>)
        ensures
            algorithm == hash_algorithms::BLAKE3 || algorithm == hash_algorithms::SHA256 ==> (r matches Ok(
                v,
            ) && v.spec_algorithm() == algorithm && v.fed() == Seq::<u8>::empty()),
            !(algorithm == hash_algorithms::BLAKE3 || algorithm == hash_algorithms::SHA256) ==> (r matches Err(
                UnivError::UnsupportedHashAlgorithm { algorithm: a },
            ) && a == algorithm),
    {
        let state = if algorithm == hash_algorithms::BLAKE3 {
            StreamingHashState::Blake3(blake3_hasher_new())
        } else if algorithm == hash_algorithms::SHA256 {
            StreamingHashState::Sha256(sha256_state_new())
        } else {
            return Err(UnivError::UnsupportedHashAlgorithm { algorithm });
        };
        Ok(StreamingHashVerifier { state })
    }

    /// Feeds more bytes.
    pub fn update(&mut self, data: &[u8])
        ensures
            final(self).fed() == old(self).fed() + data@,
            final(self).spec_algorithm() == old(self).spec_algorithm(),
    {
        match &mut self.state {
            StreamingHashState::Blake3(hasher) => blake3_hasher_update(hasher, data),
            StreamingHashState::Sha256(hasher) => sha256_state_update(hasher, data),
        }
    }

    /// The hash algorithm code.
    pub fn algorithm(&self) -> (r: u8)
        ensures
            r == self.spec_algorithm(),
    {
        match &self.state {
            StreamingHashState::Blake3(_) => hash_algorithms::BLAKE3,
            StreamingHashState::Sha256(_) => hash_algorithms::SHA256,
        }
    }

    /// Checks the digest of everything fed against `expected_hash`.
    pub fn finalize_and_verify(self, expected_hash: &[u8]) -> (r: Result<()>)
        ensures
            match hash_spec(self.spec_algorithm(), self.fed()) {
                Some(h) => if h == expected_hash@ {
                    r is Ok
                } else {
                    r matches Err(UnivError::HashMismatch { expected, actual }) && expected@
                        == hex_encoding(expected_hash@) && actual@ == hex_encoding(h)
                },
                None => false,
            },
    {
        let computed = match self.state {
            StreamingHashState::Blake3(hasher) => blake3_hasher_finalize(&hasher),
            StreamingHashState::Sha256(hasher) => sha256_state_finalize(hasher),
        };
        if !crate::util::hash::bytes_equal(computed.as_slice(), expected_hash) {
            return Err(UnivError::HashMismatch {
                expected: hex_encode(expected_hash),
                actual: hex_encode(computed.as_slice()),
            });
        }
        Ok(())
    }
}


/// Whether the four bytes at `i` are the chunk frame magic.
pub open spec fn magic_at(d: Seq<u8>, i: int) -> bool {
    0 <= i && i + 4 <= d.len() && d.subrange(i, i + 4) == CHUNK_MAGIC@
}

/// Positions below `n` at which the frame magic starts, in order.
pub open spec fn magic_positions(d: Seq<u8>, n: int) -> Seq<usize>
    decreases n,
{
    if n <= 0 {
        Seq::empty()
    } else if magic_at(d, n - 1) {
        magic_positions(d, n - 1).push((n - 1) as usize)
    } else {
        magic_positions(d, n - 1)
    }
}

/// Whether the magic starts at `i` in `data`.
fn magic_at_exec(data: &[u8], i: usize) -> (r: bool)
    requires
        i + 4 <= data@.len(),
    ensures
        r == magic_at(data@, i as int),
{
    let r = data[i] == CHUNK_MAGIC[0] && data[i + 1] == CHUNK_MAGIC[1] && data[i + 2] == CHUNK_MAGIC[2]
        && data[i + 3] == CHUNK_MAGIC[3];
    if r {
        assert(data@.subrange(i as int, i + 4) =~= CHUNK_MAGIC@);
    } else {
        assert(data@.subrange(i as int, i + 4)[0] == data@[i as int]);
        assert(data@.subrange(i as int, i + 4)[1] == data@[i + 1]);
        assert(data@.subrange(i as int, i + 4)[2] == data@[i + 2]);
        assert(data@.subrange(i as int, i + 4)[3] == data@[i + 3]);
    }
    r
}

/// Positions of the chunk frame magic in `data`, in order.
pub fn scan_frame_headers(data: &[u8]) -> (r: Vec<usize>)
    ensures
        r@ == magic_positions(data@, data@.len() - 3),
{
    let mut positions: Vec<usize> = Vec::new();
    let end = if data.len() >= 3 {
        data.len() - 3
    } else {
        0
    };
    let mut i: usize = 0;
    while i < end
        invariant
            i <= end,
            end == (if data@.len() >= 3 {
                data@.len() - 3
            } else {
                0
            }),
            positions@ == magic_positions(data@, i as int),
        decreases end - i,
    {
        if magic_at_exec(data, i) {
            positions.push(i);
        }
        i += 1;
    }
    if data.len() < 3 {
        assert(magic_positions(data@, data@.len() - 3) == Seq::<usize>::empty());
    }
    positions
}

/// Block-wise scan for the chunk frame magic: 32-byte blocks, 28 bytes apart, each checked
/// at the 28 starts whose four bytes lie inside it, then the bytes after the last block one
/// by one. It finds the same positions as `scan_frame_headers`, each once.
pub fn scan_frame_headers_simd(data: &[u8]) -> (r: Vec<usize>)
    ensures
        r@ == magic_positions(data@, data@.len() - 3),
{
    if data.len() < 32 {
        return scan_frame_headers(data);
    }
    let mut positions: Vec<usize> = Vec::new();
    let mut i: usize = 0;
    while i <= data.len() - 32
        invariant
            data.len() >= 32,
            i + 3 <= data.len(),
            positions@ == magic_positions(data@, i as int),
        decreases data@.len() - i,
    {
        let mut offset: usize = 0;
        while offset < 28
            invariant
                offset <= 28,
                i + 32 <= data.len(),
                positions@ == magic_positions(data@, i + offset),
            decreases 28 - offset,
        {
            if magic_at_exec(data, i + offset) {
                positions.push(i + offset);
            }
            offset += 1;
        }
        i += 28;
    }
    while i <= data.len() - 4
        invariant
            data.len() >= 32,
            i + 3 <= data.len(),
            positions@ == magic_positions(data@, i as int),
        decreases data@.len() - i,
    {
        if magic_at_exec(data, i) {
            positions.push(i);
        }
        i += 1;
    }
    assert(i == data@.len() - 3);
    positions
}


/// Totals over a list of chunks; the average compression ratio is
/// `total_raw_size / total_compressed_size` (1 when nothing is compressed).
#[derive(Debug, Clone, Copy)]
pub struct ProcessingStats {
    /// Number of chunks.
    pub total_chunks: usize,
    /// Chunks under 64 KiB of raw data.
    pub small_chunks: usize,
    /// Chunks of 64 KiB of raw data or more.
    pub large_chunks: usize,
    /// Sum of the raw sizes.
    pub total_raw_size: u64,
    /// Sum of the payload sizes.
    pub total_compressed_size: u64,
}

/// A chunk under this raw size counts as small.
pub const SMALL_CHUNK_LIMIT: u32 = 64 * 1024;

} // verus!
