//! The container header: magic, profile, version, flags and extension entries.

use vstd::prelude::*;
use std::collections::HashMap;
use core::time::Duration;
use std::time::SystemTime;
use vstd::utf8::{decode_utf8, encode_utf8, valid_utf8};
use crate::constants::{header_ext_types, header_flags, MAGIC};
use crate::error::{Result, UnivError};
use crate::profile::Profile;
use crate::util::le::{le_u32, le_u64, put_u32_le, put_u64_le, u32_le, u64_le, u16_le, le_u16, put_u16_le, get_u16_le, get_u32_le, get_u64_le};
use crate::util::varint::{leb128_decoding, leb128_encoding, lemma_leb128_len_bound, pow128};

verus! {

broadcast use vstd::std_specs::hash::group_hash_axioms;

/// Value of a header extension entry.
#[derive(Debug, Clone, PartialEq)]
pub enum HeaderExtension {
    /// Producer (UTF-8).
    Producer(String),
    /// Creation timestamp (UTC nanoseconds).
    CreationTimestamp(u64),
    /// Application hint (UTF-8).
    AppHint(String),
    /// Default codec and its parameters.
    DefaultCodec { codec: u8, params: Vec<u8> },
    /// Default hash algorithm.
    DefaultHashAlg(u8),
    /// Profile minor version / options (CBOR bytes).
    ProfileMinorOptions(Vec<u8>),
    /// Namespace root (UTF-8).
    NamespaceRoot(String),
    /// Resolver hints (CBOR bytes).
    ResolverHints(Vec<u8>),
    /// Window size in seconds (TSDB).
    WindowSizeSeconds(u32),
    /// Column group hint (UTF-8, TABL).
    ColumnGroupHint(String),
    /// Entry of an unknown type (raw bytes).
    Unknown(Vec<u8>),
}

/// Mathematical value of a header extension entry.
pub enum ExtensionView {
    Producer(Seq<char>),
    CreationTimestamp(u64),
    AppHint(Seq<char>),
    DefaultCodec { codec: u8, params: Seq<u8> },
    DefaultHashAlg(u8),
    ProfileMinorOptions(Seq<u8>),
    NamespaceRoot(Seq<char>),
    ResolverHints(Seq<u8>),
    WindowSizeSeconds(u32),
    ColumnGroupHint(Seq<char>),
    Unknown(Seq<u8>),
}

impl View for HeaderExtension {
    type V = ExtensionView;

    open spec fn view(&self) -> ExtensionView {
        match self {
            HeaderExtension::Producer(s) => ExtensionView::Producer(s@),
            HeaderExtension::CreationTimestamp(t) => ExtensionView::CreationTimestamp(*t),
            HeaderExtension::AppHint(s) => ExtensionView::AppHint(s@),
            HeaderExtension::DefaultCodec { codec, params } => ExtensionView::DefaultCodec {
                codec: *codec,
                params: params@,
            },
            HeaderExtension::DefaultHashAlg(a) => ExtensionView::DefaultHashAlg(*a),
            HeaderExtension::ProfileMinorOptions(d) => ExtensionView::ProfileMinorOptions(d@),
            HeaderExtension::NamespaceRoot(s) => ExtensionView::NamespaceRoot(s@),
            HeaderExtension::ResolverHints(d) => ExtensionView::ResolverHints(d@),
            HeaderExtension::WindowSizeSeconds(w) => ExtensionView::WindowSizeSeconds(*w),
            HeaderExtension::ColumnGroupHint(s) => ExtensionView::ColumnGroupHint(s@),
            HeaderExtension::Unknown(d) => ExtensionView::Unknown(d@),
        }
    }
}

/// Serialized bytes of an extension value.
pub open spec fn ext_payload(e: ExtensionView) -> Seq<u8> {
    match e {
        ExtensionView::Producer(s) => encode_utf8(s),
        ExtensionView::CreationTimestamp(t) => u64_le(t),
        ExtensionView::AppHint(s) => encode_utf8(s),
        ExtensionView::DefaultCodec { codec, params } => seq![codec] + params,
        ExtensionView::DefaultHashAlg(a) => seq![a],
        ExtensionView::ProfileMinorOptions(d) => d,
        ExtensionView::NamespaceRoot(s) => encode_utf8(s),
        ExtensionView::ResolverHints(d) => d,
        ExtensionView::WindowSizeSeconds(w) => u32_le(w),
        ExtensionView::ColumnGroupHint(s) => encode_utf8(s),
        ExtensionView::Unknown(d) => d,
    }
}

/// Whether an extension type code carries UTF-8 text.
pub open spec fn is_text_ext_type(t: u8) -> bool {
    t == header_ext_types::PRODUCER || t == header_ext_types::APP_HINT || t
        == header_ext_types::NAMESPACE_ROOT || t == header_ext_types::COLUMN_GROUP_HINT
}

/// Value of the extension entry of type `t` whose bytes are `d`, or `None` when the bytes
/// do not fit the type (invalid UTF-8, wrong fixed length, empty codec entry).
pub open spec fn ext_parse(t: u8, d: Seq<u8>) -> Option<ExtensionView> {
    if t == header_ext_types::PRODUCER {
        if valid_utf8(d) { Some(ExtensionView::Producer(decode_utf8(d))) } else { None }
    } else if t == header_ext_types::CREATION_TIMESTAMP {
        if d.len() == 8 { Some(ExtensionView::CreationTimestamp(le_u64(d))) } else { None }
    } else if t == header_ext_types::APP_HINT {
        if valid_utf8(d) { Some(ExtensionView::AppHint(decode_utf8(d))) } else { None }
    } else if t == header_ext_types::DEFAULT_CODEC {
        if d.len() > 0 {
            Some(ExtensionView::DefaultCodec { codec: d[0], params: d.skip(1) })
        } else {
            None
        }
    } else if t == header_ext_types::DEFAULT_HASH_ALG {
        if d.len() == 1 { Some(ExtensionView::DefaultHashAlg(d[0])) } else { None }
    } else if t == header_ext_types::PROFILE_MINOR_OPTIONS {
        Some(ExtensionView::ProfileMinorOptions(d))
    } else if t == header_ext_types::NAMESPACE_ROOT {
        if valid_utf8(d) { Some(ExtensionView::NamespaceRoot(decode_utf8(d))) } else { None }
    } else if t == header_ext_types::RESOLVER_HINTS {
        Some(ExtensionView::ResolverHints(d))
    } else if t == header_ext_types::WINDOW_SIZE_SECONDS {
        if d.len() == 4 { Some(ExtensionView::WindowSizeSeconds(le_u32(d))) } else { None }
    } else if t == header_ext_types::COLUMN_GROUP_HINT {
        if valid_utf8(d) { Some(ExtensionView::ColumnGroupHint(decode_utf8(d))) } else { None }
    } else {
        Some(ExtensionView::Unknown(d))
    }
}

/// The extension value is the one its type code stands for (`Unknown` for the codes
/// without a meaning), so that writing and reading it back agree.
pub open spec fn ext_matches_type(t: u8, e: ExtensionView) -> bool {
    match e {
        ExtensionView::Producer(_) => t == header_ext_types::PRODUCER,
        ExtensionView::CreationTimestamp(_) => t == header_ext_types::CREATION_TIMESTAMP,
        ExtensionView::AppHint(_) => t == header_ext_types::APP_HINT,
        ExtensionView::DefaultCodec { .. } => t == header_ext_types::DEFAULT_CODEC,
        ExtensionView::DefaultHashAlg(_) => t == header_ext_types::DEFAULT_HASH_ALG,
        ExtensionView::ProfileMinorOptions(_) => t == header_ext_types::PROFILE_MINOR_OPTIONS,
        ExtensionView::NamespaceRoot(_) => t == header_ext_types::NAMESPACE_ROOT,
        ExtensionView::ResolverHints(_) => t == header_ext_types::RESOLVER_HINTS,
        ExtensionView::WindowSizeSeconds(_) => t == header_ext_types::WINDOW_SIZE_SECONDS,
        ExtensionView::ColumnGroupHint(_) => t == header_ext_types::COLUMN_GROUP_HINT,
        ExtensionView::Unknown(_) => !(1 <= t <= 6 || 10 <= t <= 13),
    }
}

/// Bytes of one extension entry: type code, LEB128 length, value bytes.
pub open spec fn ext_entry_bytes(t: u8, e: ExtensionView) -> Seq<u8> {
    seq![t] + leb128_encoding(ext_payload(e).len()) + ext_payload(e)
}

/// Bytes of the entries of `m` with type codes from `k` on, in ascending code order.
pub open spec fn ext_stream_from(m: Map<u8, ExtensionView>, k: nat) -> Seq<u8>
    decreases 256 - k,
{
    if k >= 256 {
        Seq::empty()
    } else if m.contains_key(k as u8) {
        ext_entry_bytes(k as u8, m[k as u8]) + ext_stream_from(m, k + 1)
    } else {
        ext_stream_from(m, k + 1)
    }
}

/// Reads the extension entries of `d` into `acc`; a later entry of a type replaces an
/// earlier one.
pub open spec fn ext_stream_parse(d: Seq<u8>, acc: Map<u8, ExtensionView>) -> Option<
    Map<u8, ExtensionView>,
>
    decreases d.len(),
{
    if d.len() == 0 {
        Some(acc)
    } else {
        let rest = d.drop_first();
        match leb128_decoding(rest) {
            None => None,
            Some((len, n)) => if n == 0 || n > rest.len() || len > rest.len() - n {
                None
            } else {
                match ext_parse(d[0], rest.subrange(n as int, (n + len) as int)) {
                    None => None,
                    Some(e) => ext_stream_parse(rest.skip((n + len) as int), acc.insert(d[0], e)),
                }
            },
        }
    }
}

/// The UTF-8 bytes of `text` through `str::from_utf8`.
/// Claims success exactly on valid UTF-8, with the decoded text.
#[verifier::external_body]
pub(crate) fn str_from_utf8(data: &[u8]) -> (r: core::result::Result<&str, std::str::Utf8Error>)
    ensures
        r is Ok <==> valid_utf8(data@),
        r matches Ok(s) ==> s@ == decode_utf8(data@),
{
    std::str::from_utf8(data)
}

impl HeaderExtension {
    /// Serializes the extension value.
    fn serialize(&self) -> (r: Result<Vec<u8>>)
        ensures
            r matches Ok(b) && b@ == ext_payload(self@),
    {
        match self {
            HeaderExtension::Producer(s) => Ok(vstd::slice::slice_to_vec(s.as_str().as_bytes())),
            HeaderExtension::CreationTimestamp(ts) => {
                let mut buf = Vec::new();
                put_u64_le(&mut buf, *ts);
                Ok(buf)
            },
            HeaderExtension::AppHint(s) => Ok(vstd::slice::slice_to_vec(s.as_str().as_bytes())),
            HeaderExtension::DefaultCodec { codec, params } => {
                let mut buf = vec![*codec];
                buf.extend_from_slice(params.as_slice());
                Ok(buf)
            },
            HeaderExtension::DefaultHashAlg(alg) => Ok(vec![*alg]),
            HeaderExtension::ProfileMinorOptions(data) => Ok(data.clone()),
            HeaderExtension::NamespaceRoot(s) => Ok(vstd::slice::slice_to_vec(s.as_str().as_bytes())),
            HeaderExtension::ResolverHints(data) => Ok(data.clone()),
            HeaderExtension::WindowSizeSeconds(size) => {
                let mut buf = Vec::new();
                put_u32_le(&mut buf, *size);
                Ok(buf)
            },
            HeaderExtension::ColumnGroupHint(s) => Ok(vstd::slice::slice_to_vec(s.as_str().as_bytes())),
            HeaderExtension::Unknown(data) => Ok(data.clone()),
        }
    }
}

impl HeaderExtension {
    /// Parses the value of an extension entry of type `ext_type`.
    fn deserialize(ext_type: u8, data: &[u8]) -> (r: Result<Self>)
        ensures
            match ext_parse(ext_type, data@) {
                Some(e) => r matches Ok(x) && x@ == e,
                None => r is Err,
            },
            is_text_ext_type(ext_type) ==> (r matches Err(e) ==> e is InvalidUtf8),
            !is_text_ext_type(ext_type) ==> (r matches Err(e) ==> e is DeserializationError),
    {
        if ext_type == header_ext_types::PRODUCER {
            match str_from_utf8(data) {
                Ok(s) => Ok(HeaderExtension::Producer(s.to_owned())),
                Err(e) => Err(UnivError::InvalidUtf8(e)),
            }
        } else if ext_type == header_ext_types::CREATION_TIMESTAMP {
            if data.len() != 8 {
                return Err(UnivError::DeserializationError { reason: "时间戳长度错误".to_string() });
            }
            Ok(HeaderExtension::CreationTimestamp(get_u64_le(data, 0)))
        } else if ext_type == header_ext_types::APP_HINT {
            match str_from_utf8(data) {
                Ok(s) => Ok(HeaderExtension::AppHint(s.to_owned())),
                Err(e) => Err(UnivError::InvalidUtf8(e)),
            }
        } else if ext_type == header_ext_types::DEFAULT_CODEC {
            if data.len() == 0 {
                return Err(UnivError::DeserializationError { reason: "编解码器数据为空".to_string() });
            }
            let codec = data[0];
            let params = vstd::slice::slice_to_vec(&data[1..data.len()]);
            Ok(HeaderExtension::DefaultCodec { codec, params })
        } else if ext_type == header_ext_types::DEFAULT_HASH_ALG {
            if data.len() != 1 {
                return Err(UnivError::DeserializationError { reason: "哈希算法长度错误".to_string() });
            }
            Ok(HeaderExtension::DefaultHashAlg(data[0]))
        } else if ext_type == header_ext_types::PROFILE_MINOR_OPTIONS {
            Ok(HeaderExtension::ProfileMinorOptions(vstd::slice::slice_to_vec(data)))
        } else if ext_type == header_ext_types::NAMESPACE_ROOT {
            match str_from_utf8(data) {
                Ok(s) => Ok(HeaderExtension::NamespaceRoot(s.to_owned())),
                Err(e) => Err(UnivError::InvalidUtf8(e)),
            }
        } else if ext_type == header_ext_types::RESOLVER_HINTS {
            Ok(HeaderExtension::ResolverHints(vstd::slice::slice_to_vec(data)))
        } else if ext_type == header_ext_types::WINDOW_SIZE_SECONDS {
            if data.len() != 4 {
                return Err(UnivError::DeserializationError { reason: "窗口大小长度错误".to_string() });
            }
            Ok(HeaderExtension::WindowSizeSeconds(get_u32_le(data, 0)))
        } else if ext_type == header_ext_types::COLUMN_GROUP_HINT {
            match str_from_utf8(data) {
                Ok(s) => Ok(HeaderExtension::ColumnGroupHint(s.to_owned())),
                Err(e) => Err(UnivError::InvalidUtf8(e)),
            }
        } else {
            Ok(HeaderExtension::Unknown(vstd::slice::slice_to_vec(data)))
        }
    }

    /// Estimated serialized length of the value.
    fn estimated_size(&self) -> (r: usize)
        requires
            ext_payload(self@).len() <= usize::MAX,
        ensures
            r as nat == ext_payload(self@).len(),
    {
        match self {
            HeaderExtension::Producer(s) => s.as_str().len(),
            HeaderExtension::CreationTimestamp(_) => 8,
            HeaderExtension::AppHint(s) => s.as_str().len(),
            HeaderExtension::DefaultCodec { params, .. } => 1 + params.len(),
            HeaderExtension::DefaultHashAlg(_) => 1,
            HeaderExtension::ProfileMinorOptions(data) => data.len(),
            HeaderExtension::NamespaceRoot(s) => s.as_str().len(),
            HeaderExtension::ResolverHints(data) => data.len(),
            HeaderExtension::WindowSizeSeconds(_) => 4,
            HeaderExtension::ColumnGroupHint(s) => s.as_str().len(),
            HeaderExtension::Unknown(data) => data.len(),
        }
    }
}

/// Container header.
#[derive(Debug, Clone)]
pub struct Header {
    /// Profile.
    pub profile: Profile,
    /// Major format version.
    pub major_version: u8,
    /// Minor format version.
    pub minor_version: u8,
    /// Flag word.
    pub flags: u16,
    /// Extension entries by type code.
    pub extensions: HashMap<u8, HeaderExtension>,
}

/// Mathematical value of a header.
pub struct HeaderView {
    pub profile: Profile,
    pub major_version: u8,
    pub minor_version: u8,
    pub flags: u16,
    pub extensions: Map<u8, ExtensionView>,
}

/// Values of a map of extension entries.
pub open spec fn ext_views(m: Map<u8, HeaderExtension>) -> Map<u8, ExtensionView> {
    m.map_values(|e: HeaderExtension| e@)
}

impl View for Header {
    type V = HeaderView;

    open spec fn view(&self) -> HeaderView {
        HeaderView {
            profile: self.profile,
            major_version: self.major_version,
            minor_version: self.minor_version,
            flags: self.flags,
            extensions: ext_views(self.extensions@),
        }
    }
}

/// Whether the extension flag is set in a flag word.
pub open spec fn has_ext_flag(flags: u16) -> bool {
    flags & header_flags::HAS_HEADER_EXT != 0
}

/// Bytes of the extension block of a header view.
pub open spec fn ext_block(h: HeaderView) -> Seq<u8> {
    ext_stream_from(h.extensions, 0)
}

/// Serialized bytes of a header: magic, profile code, versions, little-endian flags, and,
/// when the extension flag is set, the little-endian block length and the extension block.
pub open spec fn header_bytes(h: HeaderView) -> Seq<u8> {
    MAGIC@ + h.profile.spec_to_code() + seq![h.major_version, h.minor_version] + u16_le(h.flags) + (
    if has_ext_flag(h.flags) {
        u32_le(ext_block(h).len() as u32) + ext_block(h)
    } else {
        Seq::empty()
    })
}

/// Parse of a header at the front of `d`: the header and the number of bytes it takes.
pub open spec fn header_parse(d: Seq<u8>) -> Option<(HeaderView, nat)> {
    if d.len() < 12 || d.take(4) != MAGIC@ {
        None
    } else {
        match Profile::spec_from_code(d.subrange(4, 8)) {
            None => None,
            Some(p) => {
                let flags = le_u16(d.skip(10));
                if has_ext_flag(flags) {
                    if d.len() < 16 {
                        None
                    } else {
                        let len = le_u32(d.skip(12)) as nat;
                        if d.len() - 16 < len {
                            None
                        } else {
                            match ext_stream_parse(d.subrange(16, 16 + len as int), Map::empty()) {
                                None => None,
                                Some(m) => Some(
                                    (
                                        HeaderView {
                                            profile: p,
                                            major_version: d[8],
                                            minor_version: d[9],
                                            flags,
                                            extensions: m,
                                        },
                                        16 + len,
                                    ),
                                ),
                            }
                        }
                    }
                } else {
                    Some(
                        (
                            HeaderView {
                                profile: p,
                                major_version: d[8],
                                minor_version: d[9],
                                flags,
                                extensions: Map::empty(),
                            },
                            12,
                        ),
                    )
                }
            },
        }
    }
}

/// Estimated serialized size of a header: the fixed twelve bytes, and, with the extension
/// flag, four length bytes and for every entry one type byte, five length bytes and its value.
pub open spec fn header_estimated_size(h: HeaderView) -> nat {
    if has_ext_flag(h.flags) {
        16 + ext_estimate_from(h.extensions, 0)
    } else {
        12
    }
}

/// Sum of `6 + value length` over the entries of `m` with type codes from `k` on.
pub open spec fn ext_estimate_from(m: Map<u8, ExtensionView>, k: nat) -> nat
    decreases 256 - k,
{
    if k >= 256 {
        0
    } else if m.contains_key(k as u8) {
        6 + ext_payload(m[k as u8]).len() + ext_estimate_from(m, k + 1)
    } else {
        ext_estimate_from(m, k + 1)
    }
}

/// The entries' bytes take no more than their estimate when each value is below 2^35 bytes.
proof fn lemma_ext_stream_estimate(m: Map<u8, ExtensionView>, k: nat)
    requires
        forall|t: u8| m.contains_key(t) ==> ext_payload(#[trigger] m[t]).len() < pow128(5),
    ensures
        ext_stream_from(m, k).len() <= ext_estimate_from(m, k),
    decreases 256 - k,
{
    if k < 256 {
        lemma_ext_stream_estimate(m, k + 1);
        if m.contains_key(k as u8) {
            lemma_leb128_len_bound(ext_payload(m[k as u8]).len(), 5);
        }
    }
}

/// Law: the estimated size of a header is at least the length of its serialized bytes,
/// when every extension value is shorter than 2^35 bytes (longer ones take more than the
/// five length bytes the estimate allows).
pub proof fn lemma_estimated_size_covers(h: HeaderView)
    requires
        forall|t: u8| h.extensions.contains_key(t) ==> ext_payload(#[trigger] h.extensions[t]).len()
            < 0x8_0000_0000,
    ensures
        header_bytes(h).len() <= header_estimated_size(h),
{
    assert(pow128(5) == 0x8_0000_0000) by {
        reveal_with_fuel(pow128, 6);
    }
    lemma_ext_stream_estimate(h.extensions, 0);
}

impl Header {
    /// Serializes the extension entries in ascending type-code order.
    fn serialize_extensions(&self) -> (r: Result<Vec<u8>>)
        ensures
            r matches Ok(b) && b@ == ext_block(self@),
    {
        let ghost m = ext_views(self.extensions@);
        let mut buf: Vec<u8> = Vec::new();
        let mut k: u16 = 0;
        while k < 256
            invariant
                k <= 256,
                m == ext_views(self.extensions@),
                buf@ + ext_stream_from(m, k as nat) == ext_stream_from(m, 0),
            decreases 256 - k,
        {
            let t = k as u8;
            match self.extensions.get(&t) {
                Some(extension) => {
                    let ghost before = buf@;
                    buf.push(t);
                    let ext_data = extension.serialize()?;
                    crate::util::varint::write_varint(&mut buf, ext_data.len() as u64)?;
                    buf.extend_from_slice(ext_data.as_slice());
                    assert(buf@ =~= before + ext_entry_bytes(t, m[t]));
                },
                None => {},
            }
            k += 1;
        }
        assert(buf@ =~= buf@ + ext_stream_from(m, 256));
        Ok(buf)
    }

    /// Parses a block of extension entries.
    fn deserialize_extensions(data: &[u8]) -> (r: Result<HashMap<u8, HeaderExtension>>)
        ensures
            match ext_stream_parse(data@, Map::empty()) {
                Some(m) => r matches Ok(x) && ext_views(x@) == m,
                None => r is Err,
            },
    {
        let mut extensions: HashMap<u8, HeaderExtension> = HashMap::new();
        let mut pos: usize = 0;
        assert(data@.skip(0) =~= data@);
        assert(ext_views(extensions@) =~= Map::empty());
        while pos < data.len()
            invariant
                pos <= data.len(),
                ext_stream_parse(data@, Map::empty()) == ext_stream_parse(
                    data@.skip(pos as int),
                    ext_views(extensions@),
                ),
            decreases data.len() - pos,
        {
            let ghost d = data@.skip(pos as int);
            let ghost acc = ext_views(extensions@);
            let ext_type = data[pos];
            let rest = &data[pos + 1..data.len()];
            assert(rest@ =~= d.drop_first());
            proof {
                crate::util::varint::lemma_leb128_decode_bound(rest@, 0);
            }
            let (ext_len, len_bytes) = crate::util::varint::VarInt::decode_u64(rest)?;
            if ext_len > (rest.len() - len_bytes) as u64 {
                return Err(UnivError::IncompleteData {
                    expected: ext_len as usize,
                    actual: rest.len() - len_bytes,
                });
            }
            let ext_end = len_bytes + ext_len as usize;
            let ext_data = &rest[len_bytes..ext_end];
            let extension = HeaderExtension::deserialize(ext_type, ext_data)?;
            let ghost e = extension@;
            extensions.insert(ext_type, extension);
            assert(ext_views(extensions@) =~= acc.insert(ext_type, e));
            pos = pos + 1 + ext_end;
            assert(data@.skip(pos as int) =~= d.drop_first().skip(ext_end as int));
        }
        assert(data@.skip(pos as int) =~= Seq::<u8>::empty());
        Ok(extensions)
    }
}


/// Law: reading an extension entry after writing it gives what was written (so
/// `get_producer` after `set_producer(p)` gives `p`, and likewise for the namespace root and
/// the creation timestamp); the entries of other types, the profile and the version stay as
/// they were.
pub proof fn lemma_extension_read_after_write(h: HeaderView, t: u8, e: ExtensionView, other: u8)
    ensures
        h.with_extension(t, e).extensions.get(t) == Some(e),
        other != t ==> h.with_extension(t, e).extensions.get(other) == h.extensions.get(other),
        h.with_extension(t, e).profile == h.profile,
        h.with_extension(t, e).major_version == h.major_version,
        h.with_extension(t, e).minor_version == h.minor_version,
{
}

impl HeaderView {
    /// The header after adding the entry `e` under type code `t`: the entry replaces any
    /// earlier one of that type and the extension flag is set.
    pub open spec fn with_extension(self, t: u8, e: ExtensionView) -> HeaderView {
        HeaderView {
            profile: self.profile,
            major_version: self.major_version,
            minor_version: self.minor_version,
            flags: self.flags | header_flags::HAS_HEADER_EXT,
            extensions: self.extensions.insert(t, e),
        }
    }

    /// The header with another flag word.
    pub open spec fn with_flags(self, flags: u16) -> HeaderView {
        HeaderView {
            profile: self.profile,
            major_version: self.major_version,
            minor_version: self.minor_version,
            flags,
            extensions: self.extensions,
        }
    }
}

impl Header {
    /// A header for `profile`: format version 1.1, no flags, no extensions.
    pub fn new(profile: Profile) -> (r: Self)
        ensures
            r@ == (HeaderView {
                profile,
                major_version: 1,
                minor_version: 1,
                flags: 0,
                extensions: Map::empty(),
            }),
    {
        let h = Header {
            profile,
            major_version: 1,
            minor_version: 1,
            flags: 0,
            extensions: HashMap::new(),
        };
        assert(ext_views(h.extensions@) =~= Map::empty());
        h
    }

    /// Sets the bits of `flag`.
    pub fn set_flag(&mut self, flag: u16)
        ensures
            final(self)@ == old(self)@.with_flags(old(self).flags | flag),
    {
        self.flags = self.flags | flag;
    }

    /// Clears the bits of `flag`.
    pub fn clear_flag(&mut self, flag: u16)
        ensures
            final(self)@ == old(self)@.with_flags(old(self).flags & !flag),
    {
        self.flags = self.flags & !flag;
    }

    /// Whether any bit of `flag` is set.
    pub fn has_flag(&self, flag: u16) -> (r: bool)
        ensures
            r == (self.flags & flag != 0),
    {
        self.flags & flag != 0
    }

    /// Adds (or replaces) the extension entry of type `ext_type` and sets the extension flag.
    pub fn add_extension(&mut self, ext_type: u8, extension: HeaderExtension)
        ensures
            final(self)@ == old(self)@.with_extension(ext_type, extension@),
    {
        let ghost e = extension@;
        self.extensions.insert(ext_type, extension);
        self.flags = self.flags | header_flags::HAS_HEADER_EXT;
        assert(ext_views(self.extensions@) =~= ext_views(old(self).extensions@).insert(ext_type, e));
    }

    /// The extension entry of type `ext_type`, if there is one.
    pub fn get_extension(&self, ext_type: u8) -> (r: Option<&HeaderExtension>)
        ensures
            match r {
                Some(e) => self@.extensions.contains_key(ext_type) && e@ == self@.extensions[ext_type],
                None => !self@.extensions.contains_key(ext_type),
            },
    {
        self.extensions.get(&ext_type)
    }

    /// Sets the producer entry.
    pub fn set_producer(&mut self, producer: &str)
        ensures
            final(self)@ == old(self)@.with_extension(
                header_ext_types::PRODUCER,
                ExtensionView::Producer(producer@),
            ),
    {
        self.add_extension(header_ext_types::PRODUCER, HeaderExtension::Producer(producer.to_owned()));
    }

    /// Sets the creation timestamp entry (UTC nanoseconds).
    pub fn set_creation_timestamp(&mut self, timestamp: u64)
        ensures
            final(self)@ == old(self)@.with_extension(
                header_ext_types::CREATION_TIMESTAMP,
                ExtensionView::CreationTimestamp(timestamp),
            ),
    {
        self.add_extension(
            header_ext_types::CREATION_TIMESTAMP,
            HeaderExtension::CreationTimestamp(timestamp),
        );
    }

    /// Sets the namespace root entry.
    pub fn set_namespace_root(&mut self, namespace: &str)
        ensures
            final(self)@ == old(self)@.with_extension(
                header_ext_types::NAMESPACE_ROOT,
                ExtensionView::NamespaceRoot(namespace@),
            ),
    {
        self.add_extension(
            header_ext_types::NAMESPACE_ROOT,
            HeaderExtension::NamespaceRoot(namespace.to_owned()),
        );
    }

    /// The producer text, when the producer entry is there.
    pub fn get_producer(&self) -> (r: Option<&str>)
        ensures
            match self@.extensions.get(header_ext_types::PRODUCER) {
                Some(ExtensionView::Producer(p)) => r matches Some(s) && s@ == p,
                _ => r is None,
            },
    {
        match self.get_extension(header_ext_types::PRODUCER) {
            Some(HeaderExtension::Producer(producer)) => Some(producer.as_str()),
            _ => None,
        }
    }

    /// The namespace root text, when that entry is there.
    pub fn get_namespace_root(&self) -> (r: Option<&str>)
        ensures
            match self@.extensions.get(header_ext_types::NAMESPACE_ROOT) {
                Some(ExtensionView::NamespaceRoot(p)) => r matches Some(s) && s@ == p,
                _ => r is None,
            },
    {
        match self.get_extension(header_ext_types::NAMESPACE_ROOT) {
            Some(HeaderExtension::NamespaceRoot(namespace)) => Some(namespace.as_str()),
            _ => None,
        }
    }

    /// Serializes the header.
    pub fn serialize(&self) -> (r: Result<Vec<u8>>)
        ensures
            r matches Ok(b) && b@ == header_bytes(self@),
    {
        let mut buf: Vec<u8> = Vec::new();
        buf.push(MAGIC[0]);
        buf.push(MAGIC[1]);
        buf.push(MAGIC[2]);
        buf.push(MAGIC[3]);
        let code = self.profile.to_code();
        buf.push(code[0]);
        buf.push(code[1]);
        buf.push(code[2]);
        buf.push(code[3]);
        buf.push(self.major_version);
        buf.push(self.minor_version);
        put_u16_le(&mut buf, self.flags);
        let ghost fixed = buf@;
        assert(fixed =~= MAGIC@ + self.profile.spec_to_code() + seq![self.major_version, self.minor_version] + u16_le(self.flags));
        if self.has_flag(header_flags::HAS_HEADER_EXT) {
            let ext_data = self.serialize_extensions()?;
            put_u32_le(&mut buf, ext_data.len() as u32);
            buf.extend_from_slice(ext_data.as_slice());
            assert(buf@ =~= fixed + (u32_le(ext_block(self@).len() as u32) + ext_block(self@)));
        } else {
            assert(buf@ =~= fixed + Seq::<u8>::empty());
        }
        Ok(buf)
    }

    /// Parses a header at the front of `data`: the header and the number of bytes it takes.
    pub fn deserialize(data: &[u8]) -> (r: Result<(Self, usize)>)
        ensures
            match header_parse(data@) {
                Some((h, n)) => r matches Ok((x, m)) && x@ == h && m as nat == n,
                None => r is Err,
            },
            data@.len() < 12 ==> (r matches Err(UnivError::IncompleteData { expected, actual })
                && expected == 12 && actual == data@.len()),
            data@.len() >= 12 && data@.take(4) != MAGIC@ ==> (r matches Err(
                UnivError::InvalidMagic { expected, actual },
            ) && expected == MAGIC && actual@ == data@.take(4)),
            data@.len() >= 12 && data@.take(4) == MAGIC@ && Profile::spec_from_code(
                data@.subrange(4, 8),
            ) is None ==> r matches Err(UnivError::UnsupportedProfile { .. }),
    {
        if data.len() < 12 {
            return Err(UnivError::IncompleteData { expected: 12, actual: data.len() });
        }
        let magic: [u8; 4] = [data[0], data[1], data[2], data[3]];
        assert(magic@ =~= data@.take(4));
        if !crate::profile::codes_equal(&magic, &MAGIC) {
            return Err(UnivError::InvalidMagic { expected: MAGIC, actual: magic });
        }
        let profile_code: [u8; 4] = [data[4], data[5], data[6], data[7]];
        assert(profile_code@ =~= data@.subrange(4, 8));
        let profile = match Profile::from_code(&profile_code) {
            Ok(p) => p,
            Err(e) => return Err(e),
        };
        let major_version = data[8];
        let minor_version = data[9];
        let flags = get_u16_le(data, 10);
        let mut extensions: HashMap<u8, HeaderExtension> = HashMap::new();
        let mut consumed: usize = 12;
        if flags & header_flags::HAS_HEADER_EXT != 0 {
            if data.len() - 12 < 4 {
                return Err(UnivError::IncompleteData { expected: 4, actual: data.len() - 12 });
            }
            let ext_len = get_u32_le(data, 12) as usize;
            if data.len() - 16 < ext_len {
                return Err(UnivError::IncompleteData { expected: ext_len, actual: data.len() - 16 });
            }
            extensions = Self::deserialize_extensions(&data[16..16 + ext_len])?;
            consumed = 16 + ext_len;
        } else {
            assert(ext_views(extensions@) =~= Map::empty());
        }
        let header = Header { profile, major_version, minor_version, flags, extensions };
        Ok((header, consumed))
    }

    /// Estimated serialized size: twelve fixed bytes, and with the extension flag four length
    /// bytes and, per entry, one type byte, five length bytes and the value's length.
    pub fn estimated_size(&self) -> (r: usize)
        requires
            header_estimated_size(self@) <= usize::MAX,
        ensures
            r as nat == header_estimated_size(self@),
    {
        let mut size: usize = 12;
        if self.has_flag(header_flags::HAS_HEADER_EXT) {
            size = size + 4;
            let ghost m = ext_views(self.extensions@);
            let mut k: u16 = 0;
            while k < 256
                invariant
                    k <= 256,
                    m == ext_views(self.extensions@),
                    size + ext_estimate_from(m, k as nat) == 16 + ext_estimate_from(m, 0),
                    16 + ext_estimate_from(m, 0) <= usize::MAX,
                decreases 256 - k,
            {
                let t = k as u8;
                match self.extensions.get(&t) {
                    Some(extension) => {
                        let n = extension.estimated_size();
                        size = size + 6 + n;
                    },
                    None => {},
                }
                k += 1;
            }
        }
        size
    }
}

#[verifier::external_type_specification]
#[verifier::external_body]
pub struct ExSystemTime(std::time::SystemTime);

/// The system clock's current time, through `SystemTime::now`. Nothing is claimed of it: it
/// is the clock's reading.
#[verifier::external_body]
fn system_time_now() -> SystemTime {
    SystemTime::now()
}

/// The time from the Unix epoch to `t`, through `SystemTime::duration_since(UNIX_EPOCH)`;
/// `None` when `t` is earlier than the epoch. Nothing is claimed of the duration: it comes
/// from a clock reading.
#[verifier::external_body]
fn since_unix_epoch(t: SystemTime) -> Option<Duration> {
    t.duration_since(std::time::UNIX_EPOCH).ok()
}

/// The whole nanoseconds of a duration, through `Duration::as_nanos`. Nothing is claimed of
/// the value: the duration is opaque here.
#[verifier::external_body]
fn duration_nanos(d: &Duration) -> u128 {
    d.as_nanos()
}

impl Header {
    /// Sets the creation timestamp entry to the current time in UTC nanoseconds since the Unix
    /// epoch (0 when the clock reads before the epoch, or the time does not fit in an `i64`
    /// of nanoseconds).
    pub fn set_creation_timestamp_now(&mut self)
        ensures
            final(self)@.extensions.get(header_ext_types::CREATION_TIMESTAMP) matches Some(
                ExtensionView::CreationTimestamp(_),
            ),
            final(self)@ == old(self)@.with_extension(
                header_ext_types::CREATION_TIMESTAMP,
                final(self)@.extensions[header_ext_types::CREATION_TIMESTAMP],
            ),
    {
        let t: u64 = match since_unix_epoch(system_time_now()) {
            Some(d) => {
                let nanos = duration_nanos(&d);
                if nanos <= i64::MAX as u128 {
                    nanos as u64
                } else {
                    0
                }
            },
            None => 0,
        };
        self.set_creation_timestamp(t);
    }

    /// The creation timestamp in UTC nanoseconds, when that entry is there.
    pub fn get_creation_timestamp(&self) -> (r: Option<u64>)
        ensures
            match self@.extensions.get(header_ext_types::CREATION_TIMESTAMP) {
                Some(ExtensionView::CreationTimestamp(t)) => r == Some(t),
                _ => r is None,
            },
    {
        match self.get_extension(header_ext_types::CREATION_TIMESTAMP) {
            Some(HeaderExtension::CreationTimestamp(timestamp)) => Some(*timestamp),
            _ => None,
        }
    }
}

/// Merge of the entries of `m` with type codes from `k` on into `acc`.
pub open spec fn ext_merge_from(acc: Map<u8, ExtensionView>, m: Map<u8, ExtensionView>, k: nat) -> Map<
    u8,
    ExtensionView,
> {
    Map::new(
        |t: u8| acc.contains_key(t) || (m.contains_key(t) && t as nat >= k),
        |t: u8| if m.contains_key(t) && t as nat >= k { m[t] } else { acc[t] },
    )
}

/// Every entry of `m` is stored under the type code its value stands for.
pub open spec fn ext_entries_match_types(m: Map<u8, ExtensionView>) -> bool {
    forall|t: u8| #[trigger] m.contains_key(t) ==> ext_matches_type(t, m[t])
}

/// Law: one extension value, written (`ext_payload`) and read back under its own type code
/// (`ext_parse`), gives the value.
pub proof fn lemma_ext_payload_roundtrip(t: u8, e: ExtensionView)
    requires
        ext_matches_type(t, e),
    ensures
        ext_parse(t, ext_payload(e)) == Some(e),
{
    broadcast use vstd::utf8::group_utf8_lib;

    match e {
        ExtensionView::CreationTimestamp(v) => {
            crate::util::le::lemma_u64_le_roundtrip(v, Seq::empty());
            assert(u64_le(v) + Seq::<u8>::empty() =~= u64_le(v));
        },
        ExtensionView::WindowSizeSeconds(v) => {
            crate::util::le::lemma_u32_le_roundtrip(v, Seq::empty());
            assert(u32_le(v) + Seq::<u8>::empty() =~= u32_le(v));
        },
        ExtensionView::DefaultCodec { codec, params } => {
            assert((seq![codec] + params).skip(1) =~= params);
        },
        _ => {},
    }
}

/// Reading the entries of `m` from code `k` on into `acc` merges them into `acc`.
proof fn lemma_ext_stream_roundtrip(m: Map<u8, ExtensionView>, k: nat, acc: Map<u8, ExtensionView>)
    requires
        ext_entries_match_types(m),
        k <= 256,
        ext_stream_from(m, k).len() <= u32::MAX,
    ensures
        ext_stream_parse(ext_stream_from(m, k), acc) == Some(ext_merge_from(acc, m, k)),
    decreases 256 - k,
{
    if k >= 256 {
        assert(ext_merge_from(acc, m, k) =~= acc);
    } else {
        let t = k as u8;
        let s2 = ext_stream_from(m, k + 1);
        if m.contains_key(t) {
            let e = m[t];
            let p = ext_payload(e);
            let enc = leb128_encoding(p.len());
            let d = ext_stream_from(m, k);
            assert(d =~= seq![t] + enc + p + s2);
            crate::util::varint::lemma_leb128_cap(0);
            crate::util::varint::lemma_leb128_roundtrip_at(p.len(), 0, p + s2);
            let rest = d.drop_first();
            assert(rest =~= enc + (p + s2));
            crate::util::varint::lemma_leb128_decode_bound(rest, 0);
            assert(rest.subrange(enc.len() as int, (enc.len() + p.len()) as int) =~= p);
            lemma_ext_payload_roundtrip(t, e);
            assert(rest.skip((enc.len() + p.len()) as int) =~= s2);
            lemma_ext_stream_roundtrip(m, k + 1, acc.insert(t, e));
            assert(ext_merge_from(acc.insert(t, e), m, k + 1) =~= ext_merge_from(acc, m, k));
        } else {
            lemma_ext_stream_roundtrip(m, k + 1, acc);
            assert(ext_merge_from(acc, m, k + 1) =~= ext_merge_from(acc, m, k));
        }
    }
}

/// Law: a header reads back from its serialized bytes, whatever follows them, and reading
/// takes exactly those bytes. It holds when the profile is well formed, each extension entry
/// sits under the type code its value stands for, the extension block fits its 32-bit
/// length field, and extensions are only present with the extension flag set.
pub proof fn lemma_header_roundtrip(h: HeaderView, rest: Seq<u8>)
    requires
        h.profile.well_formed(),
        ext_entries_match_types(h.extensions),
        ext_block(h).len() <= u32::MAX,
        has_ext_flag(h.flags) || h.extensions == Map::<u8, ExtensionView>::empty(),
    ensures
        header_parse(header_bytes(h) + rest) == Some((h, header_bytes(h).len())),
{
    let d = header_bytes(h) + rest;
    let code = h.profile.spec_to_code();
    crate::profile::lemma_profile_code_roundtrip(h.profile);
    assert(d.take(4) =~= MAGIC@);
    assert(d.subrange(4, 8) =~= code);
    assert(d[8] == h.major_version && d[9] == h.minor_version);
    crate::util::le::lemma_u16_le_roundtrip(h.flags, d.skip(12));
    assert(d.skip(10) =~= u16_le(h.flags) + d.skip(12));
    if has_ext_flag(h.flags) {
        let blk = ext_block(h);
        let len = blk.len() as u32;
        assert(d.skip(12) =~= u32_le(len) + (blk + rest));
        crate::util::le::lemma_u32_le_roundtrip(len, blk + rest);
        assert(d.subrange(16, 16 + blk.len() as int) =~= blk);
        lemma_ext_stream_roundtrip(h.extensions, 0, Map::empty());
        assert(ext_merge_from(Map::empty(), h.extensions, 0) =~= h.extensions);
    } else {
        assert(header_bytes(h).len() == 12);
    }
}

/// No entries give no bytes.
pub(crate) proof fn lemma_empty_ext_stream(k: nat)
    ensures
        ext_stream_from(Map::<u8, ExtensionView>::empty(), k) == Seq::<u8>::empty(),
    decreases 256 - k,
{
    if k < 256 {
        lemma_empty_ext_stream(k + 1);
    }
}

/// A value read from bytes under a type code is the value that code stands for, and it
/// writes back to as many bytes.
proof fn lemma_ext_parse_writes_back(t: u8, d: Seq<u8>)
    ensures
        ext_parse(t, d) matches Some(e) ==> ext_matches_type(t, e) && ext_payload(e).len() == d.len(),
{
    broadcast use vstd::utf8::group_utf8_lib;

    if let Some(e) = ext_parse(t, d) {
        if t == header_ext_types::DEFAULT_CODEC {
            assert(seq![d[0]] + d.skip(1) =~= d);
        }
    }
}

/// Two entry maps that agree on the codes from `k` on give the same bytes from `k` on.
proof fn lemma_ext_stream_same_from(m1: Map<u8, ExtensionView>, m2: Map<u8, ExtensionView>, k: nat)
    requires
        forall|t: u8| t >= k ==> (#[trigger] m1.contains_key(t) == m2.contains_key(t) && (
        m1.contains_key(t) ==> m1[t] == m2[t])),
    ensures
        ext_stream_from(m1, k) == ext_stream_from(m2, k),
    decreases 256 - k,
{
    if k < 256 {
        assert(m1.contains_key(k as u8) == m2.contains_key(k as u8));
        lemma_ext_stream_same_from(m1, m2, k + 1);
    }
}

/// Adding one entry adds at most its own bytes.
proof fn lemma_ext_stream_insert_len(acc: Map<u8, ExtensionView>, t: u8, e: ExtensionView, k: nat)
    ensures
        ext_stream_from(acc.insert(t, e), k).len() <= ext_stream_from(acc, k).len()
            + ext_entry_bytes(t, e).len(),
    decreases 256 - k,
{
    let ins = acc.insert(t, e);
    if k < 256 {
        if k > t {
            lemma_ext_stream_same_from(ins, acc, k);
        } else if k == t {
            lemma_ext_stream_same_from(ins, acc, k + 1);
            assert(ins.contains_key(t) && ins[t] == e);
        } else {
            lemma_ext_stream_insert_len(acc, t, e, k + 1);
            assert(ins.contains_key(k as u8) == acc.contains_key(k as u8));
        }
    }
}

/// Entries read from `d` into `acc` sit under their own type codes (when those of `acc`
/// do) and write back to at most the bytes of `acc` and of `d`.
proof fn lemma_ext_stream_parse_writes_back(d: Seq<u8>, acc: Map<u8, ExtensionView>)
    ensures
        ext_stream_parse(d, acc) matches Some(m) ==> ext_stream_from(m, 0).len() <= ext_stream_from(
            acc,
            0,
        ).len() + d.len() && (ext_entries_match_types(acc) ==> ext_entries_match_types(m)),
    decreases d.len(),
{
    if d.len() > 0 {
        let rest = d.drop_first();
        if let Some((len, n)) = leb128_decoding(rest) {
            if !(n == 0 || n > rest.len() || len > rest.len() - n) {
                let body = rest.subrange(n as int, (n + len) as int);
                if let Some(e) = ext_parse(d[0], body) {
                    let acc2 = acc.insert(d[0], e);
                    let tail = rest.skip((n + len) as int);
                    crate::util::varint::lemma_leb128_decoded_len(rest, 0);
                    lemma_ext_parse_writes_back(d[0], body);
                    lemma_ext_stream_insert_len(acc, d[0], e, 0);
                    lemma_ext_stream_parse_writes_back(tail, acc2);
                    assert(ext_entry_bytes(d[0], e).len() <= 1 + n + len);
                    if ext_entries_match_types(acc) {
                        assert forall|t: u8| #[trigger] acc2.contains_key(t) implies ext_matches_type(
                            t,
                            acc2[t],
                        ) by {
                            if t != d[0] {
                                assert(acc.contains_key(t));
                            }
                        }
                    }
                }
            }
        }
    }
}

/// Law: a header read from bytes writes back to bytes that read as it: its profile is well
/// formed, each extension sits under its own type code, the extension block fits its 32-bit
/// length field, and extensions come only with the extension flag.
pub proof fn lemma_parsed_header_writes_back(d: Seq<u8>)
    ensures
        header_parse(d) matches Some((h, n)) ==> {
            &&& h.profile.well_formed()
            &&& ext_entries_match_types(h.extensions)
            &&& ext_block(h).len() <= u32::MAX
            &&& has_ext_flag(h.flags) || h.extensions == Map::<u8, ExtensionView>::empty()
        },
{
    if let Some((h, n)) = header_parse(d) {
        let code = d.subrange(4, 8);
        let arr = [code[0], code[1], code[2], code[3]];
        assert(arr@ =~= code);
        crate::profile::lemma_profile_code_parse_inverse(arr);
        lemma_empty_ext_stream(0);
        if has_ext_flag(h.flags) {
            let len = le_u32(d.skip(12)) as nat;
            lemma_ext_stream_parse_writes_back(d.subrange(16, 16 + len as int), Map::empty());
        } else {
            assert(ext_block(h) == Seq::<u8>::empty());
        }
    }
}

} // verus!
