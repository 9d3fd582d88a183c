//! Error type of the library.

use vstd::prelude::*;
use vstd::string::*;
use crate::util::hash::{hex_encode, hex_encoding};
use crate::util::le::{put_u32_be, u32_be};
use crate::util::text::{decimal_chars, decimal_string};

verus! {

#[verifier::external_type_specification]
#[verifier::external_body]
pub struct ExUtf8Error(std::str::Utf8Error);

#[verifier::external_type_specification]
#[verifier::external_body]
pub struct ExIoError(std::io::Error);

#[verifier::external_type_specification]
#[verifier::external_body]
#[verifier::reject_recursive_types(T)]
pub struct ExCborDeError<T>(ciborium::de::Error<T>);

#[verifier::external_type_specification]
#[verifier::external_body]
pub struct ExAnyhowError(anyhow::Error);

/// Result type of the library.
pub type Result<T> = core::result::Result<T, UnivError>;

/// Errors of the library.
#[derive(Debug)]
pub enum UnivError {
    /// Wrong magic number.
    InvalidMagic { expected: [u8; 4], actual: [u8; 4] },
    /// Unsupported profile code.
    UnsupportedProfile { profile: [u8; 4] },
    /// Malformed header.
    InvalidHeader { reason: String },
    /// Malformed chunk.
    ChunkParseError { reason: String },
    /// Compression or decompression failure.
    CompressionError { reason: String },
    /// Content hash mismatch (hex strings).
    HashMismatch { expected: String, actual: String },
    /// CRC mismatch.
    CrcMismatch { expected: u32, actual: u32 },
    /// A security limit was exceeded.
    SecurityLimitExceeded { limit_type: String, max_value: u64 },
    /// A reference cycle was found.
    CircularReference { node_id: String },
    /// Reference depth exceeded.
    ReferenceDepthExceeded { current: u32, max: u32 },
    /// Invalid transform configuration.
    InvalidTransform { reason: String },
    /// Schema error.
    SchemaError { reason: String },
    /// Corrupt or missing index.
    IndexError { reason: String },
    /// Unsupported codec.
    UnsupportedCodec { codec: u8 },
    /// Unsupported hash algorithm.
    UnsupportedHashAlgorithm { algorithm: u8 },
    /// Incompatible version.
    VersionIncompatible { file_version: String, lib_version: String },
    /// Truncated data.
    IncompleteData { expected: usize, actual: usize },
    /// Invalid UTF-8.
    InvalidUtf8(std::str::Utf8Error),
    /// Invalid CBOR.
    CborError(ciborium::de::Error<std::io::Error>),
    /// I/O error.
    IoError(std::io::Error),
    /// Serialization error.
    SerializationError { reason: String },
    /// Deserialization error.
    DeserializationError { reason: String },
    /// Generic runtime error.
    RuntimeError(anyhow::Error),
}

impl UnivError {
    /// Builds an `InvalidHeader` error.
    pub fn invalid_header<S: Into<String>>(reason: S) -> (r: Self)
        ensures
            r matches UnivError::InvalidHeader { reason: text } && call_ensures(S::into, (reason,), text),
    {
        UnivError::InvalidHeader { reason: reason.into() }
    }

    /// Builds a `ChunkParseError` error.
    pub fn chunk_parse_error<S: Into<String>>(reason: S) -> (r: Self)
        ensures
            r matches UnivError::ChunkParseError { reason: text } && call_ensures(S::into, (reason,), text),
    {
        UnivError::ChunkParseError { reason: reason.into() }
    }

    /// Builds a `CompressionError` error.
    pub fn compression_error<S: Into<String>>(reason: S) -> (r: Self)
        ensures
            r matches UnivError::CompressionError { reason: text } && call_ensures(S::into, (reason,), text),
    {
        UnivError::CompressionError { reason: reason.into() }
    }

    /// Builds a `SecurityLimitExceeded` error.
    pub fn security_limit_exceeded<S: Into<String>>(limit_type: S, max_value: u64) -> (r: Self)
        ensures
            r matches UnivError::SecurityLimitExceeded { limit_type: text, max_value: m } && m
                == max_value && call_ensures(S::into, (limit_type,), text),
    {
        UnivError::SecurityLimitExceeded { limit_type: limit_type.into(), max_value }
    }

    /// Builds a `SchemaError` error.
    pub fn schema_error<S: Into<String>>(reason: S) -> (r: Self)
        ensures
            r matches UnivError::SchemaError { reason: text } && call_ensures(S::into, (reason,), text),
    {
        UnivError::SchemaError { reason: reason.into() }
    }

    /// Builds an `IndexError` error.
    pub fn index_error<S: Into<String>>(reason: S) -> (r: Self)
        ensures
            r matches UnivError::IndexError { reason: text } && call_ensures(S::into, (reason,), text),
    {
        UnivError::IndexError { reason: reason.into() }
    }

    /// Builds a `SerializationError` error.
    pub fn serialization_error<S: Into<String>>(reason: S) -> (r: Self)
        ensures
            r matches UnivError::SerializationError { reason: text } && call_ensures(S::into, (reason,), text),
    {
        UnivError::SerializationError { reason: reason.into() }
    }

    /// Builds a `DeserializationError` error.
    pub fn deserialization_error<S: Into<String>>(reason: S) -> (r: Self)
        ensures
            r matches UnivError::DeserializationError { reason: text } && call_ensures(S::into, (reason,), text),
    {
        UnivError::DeserializationError { reason: reason.into() }
    }

    /// The security-related variants.
    pub open spec fn spec_is_security_error(&self) -> bool {
        ||| self is SecurityLimitExceeded
        ||| self is CircularReference
        ||| self is ReferenceDepthExceeded
        ||| self is HashMismatch
        ||| self is CrcMismatch
    }

    /// The data-format variants.
    pub open spec fn spec_is_format_error(&self) -> bool {
        ||| self is InvalidMagic
        ||| self is InvalidHeader
        ||| self is ChunkParseError
        ||| self is IncompleteData
        ||| self is InvalidUtf8
        ||| self is CborError
    }

    /// The configuration variants.
    pub open spec fn spec_is_configuration_error(&self) -> bool {
        ||| self is UnsupportedProfile
        ||| self is UnsupportedCodec
        ||| self is UnsupportedHashAlgorithm
        ||| self is InvalidTransform
        ||| self is VersionIncompatible
    }

    /// Whether this error is security related.
    pub fn is_security_error(&self) -> (r: bool)
        ensures
            r == self.spec_is_security_error(),
    {
        match self {
            UnivError::SecurityLimitExceeded { .. } | UnivError::CircularReference { .. }
            | UnivError::ReferenceDepthExceeded { .. } | UnivError::HashMismatch { .. }
            | UnivError::CrcMismatch { .. } => true,
            _ => false,
        }
    }

    /// Whether this error is a data-format error.
    pub fn is_format_error(&self) -> (r: bool)
        ensures
            r == self.spec_is_format_error(),
    {
        match self {
            UnivError::InvalidMagic { .. } | UnivError::InvalidHeader { .. }
            | UnivError::ChunkParseError { .. } | UnivError::IncompleteData { .. }
            | UnivError::InvalidUtf8(_) | UnivError::CborError(_) => true,
            _ => false,
        }
    }

    /// Whether this error is a configuration error.
    pub fn is_configuration_error(&self) -> (r: bool)
        ensures
            r == self.spec_is_configuration_error(),
    {
        match self {
            UnivError::UnsupportedProfile { .. } | UnivError::UnsupportedCodec { .. }
            | UnivError::UnsupportedHashAlgorithm { .. } | UnivError::InvalidTransform { .. }
            | UnivError::VersionIncompatible { .. } => true,
            _ => false,
        }
    }
}


/// The text `{:?}` gives for four bytes: `[a, b, c, d]` in decimal.
pub open spec fn byte_array_text(b: Seq<u8>) -> Seq<char> {
    "["@ + decimal_chars(b[0] as nat) + ", "@ + decimal_chars(b[1] as nat) + ", "@ + decimal_chars(
        b[2] as nat,
    ) + ", "@ + decimal_chars(b[3] as nat) + "]"@
}

/// Eight lower-case hex digits of a `u32`.
pub open spec fn hex8_text(v: u32) -> Seq<char> {
    hex_encoding(u32_be(v))
}

/// The message of an error; for an error that wraps an outside error, the part before the
/// outside error's own text.
pub open spec fn error_text(e: UnivError) -> Seq<char> {
    match e {
        UnivError::InvalidMagic { expected, actual } => "无效的 UNIV 魔数: 期望 "@ + byte_array_text(
            expected@,
        ) + ", 实际 "@ + byte_array_text(actual@),
        UnivError::UnsupportedProfile { profile } => "不支持的 Profile 类型: "@ + byte_array_text(
            profile@,
        ),
        UnivError::InvalidHeader { reason } => "无效的文件头: "@ + reason@,
        UnivError::ChunkParseError { reason } => "块解析失败: "@ + reason@,
        UnivError::CompressionError { reason } => "压缩操作失败: "@ + reason@,
        UnivError::HashMismatch { expected, actual } => "哈希验证失败: 期望 "@ + expected@
            + ", 实际 "@ + actual@,
        UnivError::CrcMismatch { expected, actual } => "CRC 校验失败: 期望 "@ + hex8_text(expected)
            + ", 实际 "@ + hex8_text(actual),
        UnivError::SecurityLimitExceeded { limit_type, max_value } => "超出安全限制: "@
            + limit_type@ + " 超过 "@ + decimal_chars(max_value as nat),
        UnivError::CircularReference { node_id } => "检测到引用循环: "@ + node_id@,
        UnivError::ReferenceDepthExceeded { current, max } => "引用深度超限: 当前深度 "@
            + decimal_chars(current as nat) + ", 最大允许 "@ + decimal_chars(max as nat),
        UnivError::InvalidTransform { reason } => "无效的变换配置: "@ + reason@,
        UnivError::SchemaError { reason } => "Schema 错误: "@ + reason@,
        UnivError::IndexError { reason } => "索引错误: "@ + reason@,
        UnivError::UnsupportedCodec { codec } => "不支持的编解码器: "@ + decimal_chars(codec as nat),
        UnivError::UnsupportedHashAlgorithm { algorithm } => "不支持的哈希算法: "@ + decimal_chars(
            algorithm as nat,
        ),
        UnivError::VersionIncompatible { file_version, lib_version } => "版本不兼容: 文件版本 "@
            + file_version@ + ", 库版本 "@ + lib_version@,
        UnivError::IncompleteData { expected, actual } => "数据不完整: 期望 "@ + decimal_chars(
            expected as nat,
        ) + " 字节, 实际 "@ + decimal_chars(actual as nat) + " 字节"@,
        UnivError::InvalidUtf8(_) => "无效的 UTF-8 编码: "@,
        UnivError::CborError(_) => "CBOR 解析失败: "@,
        UnivError::IoError(_) => "I/O 错误: "@,
        UnivError::SerializationError { reason } => "序列化错误: "@ + reason@,
        UnivError::DeserializationError { reason } => "反序列化错误: "@ + reason@,
        UnivError::RuntimeError(_) => "运行时错误: "@,
    }
}

/// Whether the error wraps an outside error, whose text ends its message.
pub open spec fn wraps_outside_error(e: UnivError) -> bool {
    e is InvalidUtf8 || e is CborError || e is IoError || e is RuntimeError
}

/// The `Display` text of a UTF-8 error, through `ToString::to_string`; nothing is claimed of it.
#[verifier::external_body]
fn utf8_error_text(e: &std::str::Utf8Error) -> String {
    e.to_string()
}

/// The `Display` text of a ciborium decoding error, through `ToString::to_string`; nothing is
/// claimed of it.
#[verifier::external_body]
fn cbor_error_text(e: &ciborium::de::Error<std::io::Error>) -> String {
    e.to_string()
}

/// The `Display` text of an I/O error, through `ToString::to_string`; nothing is claimed of it.
#[verifier::external_body]
fn io_error_text(e: &std::io::Error) -> String {
    e.to_string()
}

/// The `Display` text of an `anyhow::Error`, through `ToString::to_string`; nothing is claimed
/// of it.
#[verifier::external_body]
fn anyhow_error_text(e: &anyhow::Error) -> String {
    e.to_string()
}

fn byte_array_string(b: &[u8; 4]) -> (r: String)
    ensures
        r@ == byte_array_text(b@),
{
    let mut s = String::from_str("[");
    s.append(decimal_string(b[0] as u64).as_str());
    s.append(", ");
    s.append(decimal_string(b[1] as u64).as_str());
    s.append(", ");
    s.append(decimal_string(b[2] as u64).as_str());
    s.append(", ");
    s.append(decimal_string(b[3] as u64).as_str());
    s.append("]");
    s
}

fn hex8_string(v: u32) -> (r: String)
    ensures
        r@ == hex8_text(v),
{
    let mut buf: Vec<u8> = Vec::new();
    put_u32_be(&mut buf, v);
    assert(buf@ =~= u32_be(v));
    hex_encode(buf.as_slice())
}

fn joined(a: &str, b: &str) -> (r: String)
    ensures
        r@ == a@ + b@,
{
    let mut s = String::from_str(a);
    s.append(b);
    s
}

impl UnivError {
    /// The message of the error.
    pub fn to_string(&self) -> (r: String)
        ensures
            !wraps_outside_error(*self) ==> r@ == error_text(*self),
            wraps_outside_error(*self) ==> r@.len() >= error_text(*self).len() && r@.take(
                error_text(*self).len() as int,
            ) == error_text(*self),
    {
        match self {
            UnivError::InvalidMagic { expected, actual } => {
                let mut s = joined("无效的 UNIV 魔数: 期望 ", byte_array_string(expected).as_str());
                s.append(", 实际 ");
                s.append(byte_array_string(actual).as_str());
                s
            },
            UnivError::UnsupportedProfile { profile } => joined(
                "不支持的 Profile 类型: ",
                byte_array_string(profile).as_str(),
            ),
            UnivError::InvalidHeader { reason } => joined("无效的文件头: ", reason.as_str()),
            UnivError::ChunkParseError { reason } => joined("块解析失败: ", reason.as_str()),
            UnivError::CompressionError { reason } => joined("压缩操作失败: ", reason.as_str()),
            UnivError::HashMismatch { expected, actual } => {
                let mut s = joined("哈希验证失败: 期望 ", expected.as_str());
                s.append(", 实际 ");
                s.append(actual.as_str());
                s
            },
            UnivError::CrcMismatch { expected, actual } => {
                let mut s = joined("CRC 校验失败: 期望 ", hex8_string(*expected).as_str());
                s.append(", 实际 ");
                s.append(hex8_string(*actual).as_str());
                s
            },
            UnivError::SecurityLimitExceeded { limit_type, max_value } => {
                let mut s = joined("超出安全限制: ", limit_type.as_str());
                s.append(" 超过 ");
                s.append(decimal_string(*max_value).as_str());
                s
            },
            UnivError::CircularReference { node_id } => joined("检测到引用循环: ", node_id.as_str()),
            UnivError::ReferenceDepthExceeded { current, max } => {
                let mut s = joined("引用深度超限: 当前深度 ", decimal_string(*current as u64).as_str());
                s.append(", 最大允许 ");
                s.append(decimal_string(*max as u64).as_str());
                s
            },
            UnivError::InvalidTransform { reason } => joined("无效的变换配置: ", reason.as_str()),
            UnivError::SchemaError { reason } => joined("Schema 错误: ", reason.as_str()),
            UnivError::IndexError { reason } => joined("索引错误: ", reason.as_str()),
            UnivError::UnsupportedCodec { codec } => joined(
                "不支持的编解码器: ",
                decimal_string(*codec as u64).as_str(),
            ),
            UnivError::UnsupportedHashAlgorithm { algorithm } => joined(
                "不支持的哈希算法: ",
                decimal_string(*algorithm as u64).as_str(),
            ),
            UnivError::VersionIncompatible { file_version, lib_version } => {
                let mut s = joined("版本不兼容: 文件版本 ", file_version.as_str());
                s.append(", 库版本 ");
                s.append(lib_version.as_str());
                s
            },
            UnivError::IncompleteData { expected, actual } => {
                let mut s = joined("数据不完整: 期望 ", decimal_string(*expected as u64).as_str());
                s.append(" 字节, 实际 ");
                s.append(decimal_string(*actual as u64).as_str());
                s.append(" 字节");
                s
            },
            UnivError::InvalidUtf8(e) => {
                let r = joined("无效的 UTF-8 编码: ", utf8_error_text(e).as_str());
                assert(r@.take(error_text(*self).len() as int) =~= error_text(*self));
                r
            },
            UnivError::CborError(e) => {
                let r = joined("CBOR 解析失败: ", cbor_error_text(e).as_str());
                assert(r@.take(error_text(*self).len() as int) =~= error_text(*self));
                r
            },
            UnivError::IoError(e) => {
                let r = joined("I/O 错误: ", io_error_text(e).as_str());
                assert(r@.take(error_text(*self).len() as int) =~= error_text(*self));
                r
            },
            UnivError::SerializationError { reason } => joined("序列化错误: ", reason.as_str()),
            UnivError::DeserializationError { reason } => joined("反序列化错误: ", reason.as_str()),
            UnivError::RuntimeError(e) => {
                let r = joined("运行时错误: ", anyhow_error_text(e).as_str());
                assert(r@.take(error_text(*self).len() as int) =~= error_text(*self));
                r
            },
        }
    }
}

} // verus!
