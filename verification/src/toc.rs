//! Table of contents: chunk, node, reference and root indexes, and the TOC footer.

use vstd::prelude::*;
use vstd::string::*;
use crate::cbor::{
    cbor_decode, cbor_decoding, cbor_encode, cbor_field, cbor_plain, cbor_plain_entries,
    cbor_plain_items, cbor_text, cbor_uint, cbor_depth, cbor_depth_entries, cbor_depth_items, find_field, push_text_entry, text_entry, text_value,
    uint_value,
    CborValue,
};
use crate::constants::TOC_MAGIC;
use crate::error::{Result, UnivError};
use crate::util::hash::{crc32c, crc32c_checksum};
use crate::util::le::{get_u32_le, get_u64_le, le_u32, le_u64, put_u32_le, put_u64_le, u32_le, u64_le};
use crate::util::string_map::{entries_insert, key_position, key_value, keys_distinct, StringMap};
use crate::util::text::str_eq;
use crate::util::varint::{leb128_decoding, leb128_encoding, VarInt};

verus! {

/// A record read from and written as a CBOR data item.
pub trait CborRecord: View + Sized {
    /// The record a data item describes, if any.
    spec fn spec_from_cbor(v: CborValue) -> Option<Self::V>;

    /// How deep arrays and maps nest in the data item describing a record.
    spec fn cbor_nesting() -> nat;

    /// Reads the record a data item describes.
    fn from_cbor(v: &CborValue) -> (r: Option<Self>)
        ensures
            match Self::spec_from_cbor(*v) {
                Some(w) => r matches Some(x) && x@ == w,
                None => r is None,
            },
    ;

    /// The data item describing the record.
    fn to_cbor(&self) -> (r: CborValue)
        ensures
            Self::spec_from_cbor(r) == Some(self@),
            cbor_plain(r),
            cbor_depth(r) <= Self::cbor_nesting(),
    ;
}

impl CborRecord for String {
    open spec fn cbor_nesting() -> nat {
        0
    }

    open spec fn spec_from_cbor(v: CborValue) -> Option<Seq<char>> {
        cbor_text(Some(v))
    }

    fn from_cbor(v: &CborValue) -> (r: Option<Self>) {
        text_value(Some(v))
    }

    fn to_cbor(&self) -> (r: CborValue) {
        CborValue::Text(self.clone())
    }
}

impl CborRecord for u32 {
    open spec fn cbor_nesting() -> nat {
        0
    }

    open spec fn spec_from_cbor(v: CborValue) -> Option<u32> {
        match cbor_uint(Some(v), u32::MAX as int) {
            Some(i) => Some(i as u32),
            None => None,
        }
    }

    fn from_cbor(v: &CborValue) -> (r: Option<Self>) {
        match uint_value(Some(v), u32::MAX as u64) {
            Some(i) => Some(i as u32),
            None => None,
        }
    }

    fn to_cbor(&self) -> (r: CborValue) {
        CborValue::Integer(*self as i128)
    }
}

/// Entries read from the entries of a CBOR map: text keys, values through `f`, a later
/// entry of a key replacing the value of an earlier one in place.
pub open spec fn map_entries_from_cbor<W>(
    es: Seq<(CborValue, CborValue)>,
    f: spec_fn(CborValue) -> Option<W>,
) -> Option<Seq<(Seq<char>, W)>>
    decreases es.len(),
{
    if es.len() == 0 {
        Some(Seq::empty())
    } else {
        match map_entries_from_cbor(es.drop_last(), f) {
            None => None,
            Some(prev) => match (es.last().0, f(es.last().1)) {
                (CborValue::Text(k), Some(w)) => Some(entries_insert(prev, k@, w)),
                _ => None,
            },
        }
    }
}

/// The string map a CBOR item describes.
pub open spec fn string_map_from_cbor<V: CborRecord>(v: Option<CborValue>) -> Option<
    Seq<(Seq<char>, V::V)>,
> {
    match v {
        Some(CborValue::Dict(es)) => map_entries_from_cbor(es@, |x: CborValue| V::spec_from_cbor(x)),
        _ => None,
    }
}

/// Reads a string map from a CBOR map.
pub(crate) fn read_string_map<V: CborRecord>(v: Option<&CborValue>) -> (r: Option<StringMap<V>>)
    ensures
        match string_map_from_cbor::<V>(
            match v {
                Some(x) => Some(*x),
                None => None,
            },
        ) {
            Some(w) => r matches Some(m) && m@ == w,
            None => r is None,
        },
{
    let es = match v {
        Some(CborValue::Dict(es)) => es,
        _ => {
            return None;
        },
    };
    let ghost f = |x: CborValue| V::spec_from_cbor(x);
    let mut m: StringMap<V> = StringMap::new();
    let mut i: usize = 0;
    assert(es@.take(0) =~= Seq::<(CborValue, CborValue)>::empty());
    while i < es.len()
        invariant
            i <= es@.len(),
            f == (|x: CborValue| V::spec_from_cbor(x)),
            map_entries_from_cbor(es@.take(i as int), f) == Some(m@),
            string_map_from_cbor::<V>(
                match v {
                    Some(x) => Some(*x),
                    None => None,
                },
            ) == map_entries_from_cbor(es@, f),
        decreases es@.len() - i,
    {
        assert(es@.take(i + 1).drop_last() =~= es@.take(i as int));
        assert(es@.take(i + 1).last() == es@[i as int]);
        let key = match &es[i].0 {
            CborValue::Text(t) => t.clone(),
            _ => {
                proof {
                    assert(map_entries_from_cbor(es@.take(i + 1), f) is None);
                    lemma_map_entries_prefix_none(es@, f, i + 1);
                }
                return None;
            },
        };
        let value = match V::from_cbor(&es[i].1) {
            Some(x) => x,
            None => {
                proof {
                    assert(f(es@[i as int].1) is None);
                    assert(map_entries_from_cbor(es@.take(i + 1), f) is None);
                    lemma_map_entries_prefix_none(es@, f, i + 1);
                }
                return None;
            },
        };
        let ghost kv = key@;
        let ghost vv = value@;
        m.insert(key, value);
        assert(f(es@[i as int].1) == Some(vv));
        i += 1;
    }
    assert(es@.take(i as int) =~= es@);
    Some(m)
}

proof fn lemma_map_entries_prefix_none<W>(
    es: Seq<(CborValue, CborValue)>,
    f: spec_fn(CborValue) -> Option<W>,
    k: int,
)
    requires
        0 <= k <= es.len(),
        map_entries_from_cbor(es.take(k), f) is None,
    ensures
        map_entries_from_cbor(es, f) is None,
    decreases es.len() - k,
{
    if k < es.len() {
        assert(es.take(k + 1).drop_last() =~= es.take(k));
        lemma_map_entries_prefix_none(es, f, k + 1);
    } else {
        assert(es.take(k) =~= es);
    }
}

/// Writes a string map as a CBOR map, entries in order.
pub(crate) fn write_string_map<V: CborRecord>(m: &StringMap<V>) -> (r: CborValue)
    ensures
        string_map_from_cbor::<V>(Some(r)) == Some(m@),
        cbor_plain(r),
        cbor_depth(r) <= 1 + V::cbor_nesting(),
{
    let ghost f = |x: CborValue| V::spec_from_cbor(x);
    let n = m.len();
    let mut es: Vec<(CborValue, CborValue)> = Vec::new();
    let mut i: usize = 0;
    assert(m@.take(0) =~= Seq::<(Seq<char>, V::V)>::empty());
    while i < n
        invariant
            i <= n,
            n == m@.len(),
            keys_distinct(m@),
            f == (|x: CborValue| V::spec_from_cbor(x)),
            es@.len() == i,
            map_entries_from_cbor(es@, f) == Some(m@.take(i as int)),
            cbor_plain_entries(es@),
            cbor_depth_entries(es@) <= V::cbor_nesting(),
        decreases n - i,
    {
        let key = m.key_at(i);
        let value = m.value_at(i).to_cbor();
        let entry = text_entry(key, value);
        let ghost prev = es@;
        es.push(entry);
        proof {
            assert(es@.drop_last() =~= prev);
            assert(cbor_plain(es@.last().0));
            assert(cbor_plain(es@.last().1));
            assert(cbor_depth(es@.last().0) == 0);
            let k = m@[i as int].0;
            assert forall|j: int| 0 <= j < i implies m@.take(i as int)[j].0 != k by {
                assert(m@.take(i as int)[j] == m@[j]);
            }
            assert(key_position(m@.take(i as int), k) is None);
            assert(m@.take(i + 1) =~= m@.take(i as int).push((k, m@[i as int].1)));
        }
        i += 1;
    }
    assert(m@.take(n as int) =~= m@);
    CborValue::Dict(es)
}

/// Entry of the chunk index.
#[derive(Debug, Clone)]
pub struct ChunkIndex {
    /// Chunk identifier.
    pub chunk_id: String,
    /// Offset of the chunk in the container.
    pub offset: u64,
    /// Size of the chunk frame.
    pub size: u32,
    /// Kind code.
    pub kind: u8,
    /// Codec code.
    pub codec: u8,
    /// Raw size.
    pub raw_size: u32,
}

/// Mathematical value of a chunk index entry.
pub struct ChunkIndexView {
    pub chunk_id: Seq<char>,
    pub offset: u64,
    pub size: u32,
    pub kind: u8,
    pub codec: u8,
    pub raw_size: u32,
}

impl View for ChunkIndex {
    type V = ChunkIndexView;

    open spec fn view(&self) -> ChunkIndexView {
        ChunkIndexView {
            chunk_id: self.chunk_id@,
            offset: self.offset,
            size: self.size,
            kind: self.kind,
            codec: self.codec,
            raw_size: self.raw_size,
        }
    }
}

impl CborRecord for ChunkIndex {
    open spec fn cbor_nesting() -> nat {
        1
    }

    open spec fn spec_from_cbor(v: CborValue) -> Option<ChunkIndexView> {
        match v {
            CborValue::Dict(es) => {
                let id = cbor_text(cbor_field(es@, "chunk_id"@));
                let offset = cbor_uint(cbor_field(es@, "offset"@), u64::MAX as int);
                let size = cbor_uint(cbor_field(es@, "size"@), u32::MAX as int);
                let kind = cbor_uint(cbor_field(es@, "kind"@), u8::MAX as int);
                let codec = cbor_uint(cbor_field(es@, "codec"@), u8::MAX as int);
                let raw_size = cbor_uint(cbor_field(es@, "raw_size"@), u32::MAX as int);
                if id is Some && offset is Some && size is Some && kind is Some && codec is Some
                    && raw_size is Some {
                    Some(
                        ChunkIndexView {
                            chunk_id: id->0,
                            offset: offset->0 as u64,
                            size: size->0 as u32,
                            kind: kind->0 as u8,
                            codec: codec->0 as u8,
                            raw_size: raw_size->0 as u32,
                        },
                    )
                } else {
                    None
                }
            },
            _ => None,
        }
    }

    fn from_cbor(v: &CborValue) -> (r: Option<Self>) {
        match v {
            CborValue::Dict(es) => {
                let id = text_value(find_field(es, "chunk_id"));
                let offset = uint_value(find_field(es, "offset"), u64::MAX);
                let size = uint_value(find_field(es, "size"), u32::MAX as u64);
                let kind = uint_value(find_field(es, "kind"), u8::MAX as u64);
                let codec = uint_value(find_field(es, "codec"), u8::MAX as u64);
                let raw_size = uint_value(find_field(es, "raw_size"), u32::MAX as u64);
                match (id, offset, size, kind, codec, raw_size) {
                    (Some(id), Some(offset), Some(size), Some(kind), Some(codec), Some(raw_size)) => {
                        Some(
                            ChunkIndex {
                                chunk_id: id,
                                offset,
                                size: size as u32,
                                kind: kind as u8,
                                codec: codec as u8,
                                raw_size: raw_size as u32,
                            },
                        )
                    },
                    _ => None,
                }
            },
            _ => None,
        }
    }

    fn to_cbor(&self) -> (r: CborValue) {
        proof {
            reveal_strlit("chunk_id");
            reveal_strlit("offset");
            reveal_strlit("size");
            reveal_strlit("kind");
            reveal_strlit("codec");
            reveal_strlit("raw_size");
            assert("chunk_id"@.len() == 8 && "chunk_id"@[0] == 'c');
            assert("offset"@.len() == 6);
            assert("size"@.len() == 4 && "size"@[0] == 's');
            assert("kind"@.len() == 4 && "kind"@[0] == 'k');
            assert("codec"@.len() == 5);
            assert("raw_size"@.len() == 8 && "raw_size"@[0] == 'r');
        }
        let mut es: Vec<(CborValue, CborValue)> = Vec::new();
        push_text_entry(&mut es, "chunk_id", CborValue::Text(self.chunk_id.clone()));
        push_text_entry(&mut es, "offset", CborValue::Integer(self.offset as i128));
        push_text_entry(&mut es, "size", CborValue::Integer(self.size as i128));
        push_text_entry(&mut es, "kind", CborValue::Integer(self.kind as i128));
        push_text_entry(&mut es, "codec", CborValue::Integer(self.codec as i128));
        push_text_entry(&mut es, "raw_size", CborValue::Integer(self.raw_size as i128));
        CborValue::Dict(es)
    }
}


/// Entry of the node index.
#[derive(Debug, Clone)]
pub struct NodeIndex {
    /// Node identifier.
    pub node_id: String,
    /// Chunk holding the node.
    pub chunk_id: String,
    /// Node type.
    pub node_type: String,
    /// Hash policy code.
    pub hash_policy: u8,
}

/// Mathematical value of a node index entry.
pub struct NodeIndexView {
    pub node_id: Seq<char>,
    pub chunk_id: Seq<char>,
    pub node_type: Seq<char>,
    pub hash_policy: u8,
}

impl View for NodeIndex {
    type V = NodeIndexView;

    open spec fn view(&self) -> NodeIndexView {
        NodeIndexView {
            node_id: self.node_id@,
            chunk_id: self.chunk_id@,
            node_type: self.node_type@,
            hash_policy: self.hash_policy,
        }
    }
}

impl CborRecord for NodeIndex {
    open spec fn cbor_nesting() -> nat {
        1
    }

    open spec fn spec_from_cbor(v: CborValue) -> Option<NodeIndexView> {
        match v {
            CborValue::Dict(es) => {
                let node_id = cbor_text(cbor_field(es@, "node_id"@));
                let chunk_id = cbor_text(cbor_field(es@, "chunk_id"@));
                let node_type = cbor_text(cbor_field(es@, "node_type"@));
                let hash_policy = cbor_uint(cbor_field(es@, "hash_policy"@), u8::MAX as int);
                if node_id is Some && chunk_id is Some && node_type is Some && hash_policy is Some {
                    Some(
                        NodeIndexView {
                            node_id: node_id->0,
                            chunk_id: chunk_id->0,
                            node_type: node_type->0,
                            hash_policy: hash_policy->0 as u8,
                        },
                    )
                } else {
                    None
                }
            },
            _ => None,
        }
    }

    fn from_cbor(v: &CborValue) -> (r: Option<Self>) {
        match v {
            CborValue::Dict(es) => {
                let node_id = text_value(find_field(es, "node_id"));
                let chunk_id = text_value(find_field(es, "chunk_id"));
                let node_type = text_value(find_field(es, "node_type"));
                let hash_policy = uint_value(find_field(es, "hash_policy"), u8::MAX as u64);
                match (node_id, chunk_id, node_type, hash_policy) {
                    (Some(node_id), Some(chunk_id), Some(node_type), Some(hash_policy)) => {
                        Some(NodeIndex { node_id, chunk_id, node_type, hash_policy: hash_policy as u8 })
                    },
                    _ => None,
                }
            },
            _ => None,
        }
    }

    fn to_cbor(&self) -> (r: CborValue) {
        proof {
            reveal_strlit("node_id");
            reveal_strlit("chunk_id");
            reveal_strlit("node_type");
            reveal_strlit("hash_policy");
            assert("node_id"@.len() == 7);
            assert("chunk_id"@.len() == 8);
            assert("node_type"@.len() == 9);
            assert("hash_policy"@.len() == 11);
        }
        let mut es: Vec<(CborValue, CborValue)> = Vec::new();
        push_text_entry(&mut es, "node_id", CborValue::Text(self.node_id.clone()));
        push_text_entry(&mut es, "chunk_id", CborValue::Text(self.chunk_id.clone()));
        push_text_entry(&mut es, "node_type", CborValue::Text(self.node_type.clone()));
        push_text_entry(&mut es, "hash_policy", CborValue::Integer(self.hash_policy as i128));
        CborValue::Dict(es)
    }
}

/// Entry of the reference index.
#[derive(Debug, Clone)]
pub struct RefIndex {
    /// Referring node.
    pub source_node: String,
    /// Referred node.
    pub target_node: String,
    /// Whether the target lies outside the container.
    pub external: bool,
    /// Kind of reference.
    pub ref_type: Option<String>,
}

/// Mathematical value of a reference index entry.
pub struct RefIndexView {
    pub source_node: Seq<char>,
    pub target_node: Seq<char>,
    pub external: bool,
    pub ref_type: Option<Seq<char>>,
}

impl View for RefIndex {
    type V = RefIndexView;

    open spec fn view(&self) -> RefIndexView {
        RefIndexView {
            source_node: self.source_node@,
            target_node: self.target_node@,
            external: self.external,
            ref_type: match self.ref_type {
                Some(t) => Some(t@),
                None => None,
            },
        }
    }
}

/// A reference type: null or a missing field is none, a text is that text.
pub open spec fn cbor_opt_text(v: Option<CborValue>) -> Option<Option<Seq<char>>> {
    match v {
        None => Some(None),
        Some(CborValue::Null) => Some(None),
        Some(CborValue::Text(t)) => Some(Some(t@)),
        _ => None,
    }
}

/// A boolean item.
pub open spec fn cbor_bool(v: Option<CborValue>) -> Option<bool> {
    match v {
        Some(CborValue::Bool(b)) => Some(b),
        _ => None,
    }
}

impl CborRecord for RefIndex {
    open spec fn cbor_nesting() -> nat {
        1
    }

    open spec fn spec_from_cbor(v: CborValue) -> Option<RefIndexView> {
        match v {
            CborValue::Dict(es) => {
                let source_node = cbor_text(cbor_field(es@, "source_node"@));
                let target_node = cbor_text(cbor_field(es@, "target_node"@));
                let external = cbor_bool(cbor_field(es@, "external"@));
                let ref_type = cbor_opt_text(cbor_field(es@, "ref_type"@));
                if source_node is Some && target_node is Some && external is Some && ref_type is Some {
                    Some(
                        RefIndexView {
                            source_node: source_node->0,
                            target_node: target_node->0,
                            external: external->0,
                            ref_type: ref_type->0,
                        },
                    )
                } else {
                    None
                }
            },
            _ => None,
        }
    }

    fn from_cbor(v: &CborValue) -> (r: Option<Self>) {
        match v {
            CborValue::Dict(es) => {
                let source_node = text_value(find_field(es, "source_node"));
                let target_node = text_value(find_field(es, "target_node"));
                let external = match find_field(es, "external") {
                    Some(CborValue::Bool(b)) => Some(*b),
                    _ => None,
                };
                let ref_type: Option<Option<String>> = match find_field(es, "ref_type") {
                    None => Some(None),
                    Some(CborValue::Null) => Some(None),
                    Some(CborValue::Text(t)) => Some(Some(t.clone())),
                    _ => None,
                };
                match (source_node, target_node, external, ref_type) {
                    (Some(source_node), Some(target_node), Some(external), Some(ref_type)) => {
                        Some(RefIndex { source_node, target_node, external, ref_type })
                    },
                    _ => None,
                }
            },
            _ => None,
        }
    }

    fn to_cbor(&self) -> (r: CborValue) {
        proof {
            reveal_strlit("source_node");
            reveal_strlit("target_node");
            reveal_strlit("external");
            reveal_strlit("ref_type");
            assert("source_node"@.len() == 11 && "source_node"@[0] == 's');
            assert("target_node"@.len() == 11 && "target_node"@[0] == 't');
            assert("external"@.len() == 8 && "external"@[0] == 'e');
            assert("ref_type"@.len() == 8 && "ref_type"@[0] == 'r');
        }
        let ref_type = match &self.ref_type {
            Some(t) => CborValue::Text(t.clone()),
            None => CborValue::Null,
        };
        let mut es: Vec<(CborValue, CborValue)> = Vec::new();
        push_text_entry(&mut es, "source_node", CborValue::Text(self.source_node.clone()));
        push_text_entry(&mut es, "target_node", CborValue::Text(self.target_node.clone()));
        push_text_entry(&mut es, "external", CborValue::Bool(self.external));
        push_text_entry(&mut es, "ref_type", ref_type);
        CborValue::Dict(es)
    }
}


/// Integers in `u64` range.
pub open spec fn cbor_u64_items(s: Seq<CborValue>) -> Option<Seq<u64>>
    decreases s.len(),
{
    if s.len() == 0 {
        Some(Seq::empty())
    } else {
        match (cbor_u64_items(s.drop_last()), cbor_uint(Some(s.last()), u64::MAX as int)) {
            (Some(p), Some(x)) => Some(p.push(x as u64)),
            _ => None,
        }
    }
}

/// An array of integers in `u64` range.
pub open spec fn cbor_u64_array(v: Option<CborValue>) -> Option<Seq<u64>> {
    match v {
        Some(CborValue::Array(items)) => cbor_u64_items(items@),
        _ => None,
    }
}

fn read_u64_array(v: Option<&CborValue>) -> (r: Option<Vec<u64>>)
    ensures
        match cbor_u64_array(
            match v {
                Some(x) => Some(*x),
                None => None,
            },
        ) {
            Some(w) => r matches Some(a) && a@ == w,
            None => r is None,
        },
{
    let items = match v {
        Some(CborValue::Array(items)) => items,
        _ => {
            return None;
        },
    };
    let mut out: Vec<u64> = Vec::new();
    let mut i: usize = 0;
    assert(items@.take(0) =~= Seq::<CborValue>::empty());
    while i < items.len()
        invariant
            i <= items@.len(),
            cbor_u64_items(items@.take(i as int)) == Some(out@),
            cbor_u64_array(
                match v {
                    Some(x) => Some(*x),
                    None => None,
                },
            ) == cbor_u64_items(items@),
        decreases items@.len() - i,
    {
        assert(items@.take(i + 1).drop_last() =~= items@.take(i as int));
        match uint_value(Some(&items[i]), u64::MAX) {
            Some(x) => {
                out.push(x);
            },
            None => {
                proof {
                    lemma_u64_items_prefix_none(items@, i + 1);
                }
                return None;
            },
        }
        i += 1;
    }
    assert(items@.take(i as int) =~= items@);
    Some(out)
}

proof fn lemma_u64_items_prefix_none(s: Seq<CborValue>, k: int)
    requires
        0 <= k <= s.len(),
        cbor_u64_items(s.take(k)) is None,
    ensures
        cbor_u64_items(s) is None,
    decreases s.len() - k,
{
    if k < s.len() {
        assert(s.take(k + 1).drop_last() =~= s.take(k));
        lemma_u64_items_prefix_none(s, k + 1);
    } else {
        assert(s.take(k) =~= s);
    }
}

fn write_u64_array(a: &Vec<u64>) -> (r: CborValue)
    ensures
        cbor_u64_array(Some(r)) == Some(a@),
        cbor_plain(r),
        cbor_depth(r) == 1,
{
    let mut items: Vec<CborValue> = Vec::new();
    let mut i: usize = 0;
    assert(a@.take(0) =~= Seq::<u64>::empty());
    while i < a.len()
        invariant
            i <= a@.len(),
            items@.len() == i,
            cbor_u64_items(items@) == Some(a@.take(i as int)),
            cbor_plain_items(items@),
            cbor_depth_items(items@) == 0,
        decreases a@.len() - i,
    {
        let ghost prev = items@;
        items.push(CborValue::Integer(a[i] as i128));
        assert(items@.drop_last() =~= prev);
        assert(cbor_plain(items@.last()));
        assert(cbor_depth(items@.last()) == 0);
        assert(a@.take(i + 1) =~= a@.take(i as int).push(a@[i as int]));
        i += 1;
    }
    assert(a@.take(i as int) =~= a@);
    CborValue::Array(items)
}

/// A node identifier as it stands in a reference key: `\` and `:` each written after a `\`.
pub open spec fn escape_ref(s: Seq<char>) -> Seq<char>
    decreases s.len(),
{
    if s.len() == 0 {
        Seq::empty()
    } else {
        escape_ref_char(s[0]) + escape_ref(s.drop_first())
    }
}

/// One character as it stands in a reference key.
pub open spec fn escape_ref_char(c: char) -> Seq<char> {
    if c == '\\' || c == ':' {
        seq!['\\', c]
    } else {
        seq![c]
    }
}

/// The key of a reference: its escaped source, `:`, its escaped target. For identifiers
/// without `\` or `:` this is `source:target`.
pub open spec fn ref_key(source: Seq<char>, target: Seq<char>) -> Seq<char> {
    escape_ref(source) + seq![':'] + escape_ref(target)
}

/// Escaping keeps apart texts that differ.
pub proof fn lemma_escape_ref_injective(a: Seq<char>, c: Seq<char>)
    requires
        escape_ref(a) == escape_ref(c),
    ensures
        a == c,
    decreases a.len() + c.len(),
{
    if a.len() == 0 && c.len() == 0 {
        return;
    }
    if a.len() == 0 {
        assert(escape_ref(c).len() >= 1);
        assert(escape_ref(a).len() == 0);
        assert(false);
    }
    if c.len() == 0 {
        assert(escape_ref(a).len() >= 1);
        assert(false);
    }
    let ea = escape_ref_char(a[0]);
    let ec = escape_ref_char(c[0]);
    let ra = escape_ref(a.drop_first());
    let rc = escape_ref(c.drop_first());
    assert(escape_ref(a) == ea + ra);
    assert(escape_ref(c) == ec + rc);
    assert((ea + ra)[0] == ea[0]);
    assert((ec + rc)[0] == ec[0]);
    if ea[0] == '\\' {
        assert(ec[0] == '\\');
        assert(ea.len() == 2 && ec.len() == 2);
        assert((ea + ra)[1] == ea[1]);
        assert((ec + rc)[1] == ec[1]);
        assert(a[0] == c[0]);
    } else {
        assert(a[0] == c[0]);
    }
    assert(ea == ec);
    assert((ea + ra).skip(ea.len() as int) =~= ra);
    assert((ec + rc).skip(ec.len() as int) =~= rc);
    lemma_escape_ref_injective(a.drop_first(), c.drop_first());
    assert(a =~= seq![a[0]] + a.drop_first());
    assert(c =~= seq![c[0]] + c.drop_first());
}

/// Law: two references share a key exactly when they have the same source and the same
/// target, so adding a reference replaces an earlier one only when both ends are equal.
pub proof fn lemma_ref_key_injective(a: Seq<char>, b: Seq<char>, c: Seq<char>, d: Seq<char>)
    requires
        ref_key(a, b) == ref_key(c, d),
    ensures
        a == c && b == d,
    decreases a.len() + c.len(),
{
    let ka = escape_ref(a) + seq![':'] + escape_ref(b);
    let kc = escape_ref(c) + seq![':'] + escape_ref(d);
    if a.len() == 0 && c.len() == 0 {
        assert(escape_ref(a).len() == 0 && escape_ref(c).len() == 0);
        assert(ka.skip(1) =~= escape_ref(b));
        assert(kc.skip(1) =~= escape_ref(d));
        lemma_escape_ref_injective(b, d);
        return;
    }
    if a.len() == 0 || c.len() == 0 {
        // One key starts with the separator, the other with an escaped character, which is
        // never a bare separator.
        let x = if a.len() == 0 { c } else { a };
        let ex = escape_ref_char(x[0]);
        assert(escape_ref(x) == ex + escape_ref(x.drop_first()));
        assert(ka[0] == kc[0]);
        if a.len() == 0 {
            assert(ka[0] == ':');
            assert(kc[0] == ex[0]);
        } else {
            assert(kc[0] == ':');
            assert(ka[0] == ex[0]);
        }
        assert(ex[0] != ':');
        assert(false);
    }
    let ea = escape_ref_char(a[0]);
    let ec = escape_ref_char(c[0]);
    assert(escape_ref(a) == ea + escape_ref(a.drop_first()));
    assert(escape_ref(c) == ec + escape_ref(c.drop_first()));
    assert(ka =~= ea + ref_key(a.drop_first(), b));
    assert(kc =~= ec + ref_key(c.drop_first(), d));
    assert(ka[0] == ea[0] && kc[0] == ec[0]);
    if ea[0] == '\\' {
        assert(ec[0] == '\\');
        assert(ka[1] == ea[1] && kc[1] == ec[1]);
        assert(a[0] == c[0]);
    } else {
        assert(a[0] == c[0]);
    }
    assert(ea == ec);
    assert(ka.skip(ea.len() as int) =~= ref_key(a.drop_first(), b));
    assert(kc.skip(ec.len() as int) =~= ref_key(c.drop_first(), d));
    lemma_ref_key_injective(a.drop_first(), b, c.drop_first(), d);
    assert(a =~= seq![a[0]] + a.drop_first());
    assert(c =~= seq![c[0]] + c.drop_first());
}

/// Escaping of the first `k` characters.
proof fn lemma_escape_ref_push(s: Seq<char>, k: int)
    requires
        0 <= k < s.len(),
    ensures
        escape_ref(s.take(k + 1)) == escape_ref(s.take(k)) + escape_ref_char(s[k]),
    decreases k,
{
    if k == 0 {
        assert(s.take(1).drop_first() =~= Seq::<char>::empty());
        assert(s.take(1)[0] == s[0]);
        assert(escape_ref(Seq::<char>::empty()) == Seq::<char>::empty());
        assert(escape_ref(s.take(0)) =~= Seq::<char>::empty());
        assert(escape_ref(s.take(1)) =~= escape_ref_char(s[0]) + Seq::<char>::empty());
    } else {
        let t = s.drop_first();
        lemma_escape_ref_push(t, k - 1);
        assert(s.take(k + 1).drop_first() =~= t.take(k));
        assert(s.take(k).drop_first() =~= t.take(k - 1));
        assert(s.take(k + 1)[0] == s[0] && s.take(k)[0] == s[0]);
        assert(t[k - 1] == s[k]);
        assert(escape_ref(s.take(k + 1)) =~= escape_ref(s.take(k)) + escape_ref_char(s[k]));
    }
}

/// A node identifier escaped for a reference key.
fn escape_ref_part(s: &str) -> (r: String)
    ensures
        r@ == escape_ref(s@),
{
    let n = s.unicode_len();
    let mut out = String::new();
    let mut i: usize = 0;
    assert(s@.take(0) =~= Seq::<char>::empty());
    while i < n
        invariant
            n == s@.len(),
            i <= n,
            out@ == escape_ref(s@.take(i as int)),
        decreases n - i,
    {
        let c = s.get_char(i);
        proof {
            lemma_escape_ref_push(s@, i as int);
            reveal_strlit("\\");
        }
        if c == '\\' || c == ':' {
            out.append("\\");
        }
        let one = s.substring_char(i, i + 1);
        assert(one@ =~= seq![c]);
        out.append(one);
        assert(out@ =~= escape_ref(s@.take(i + 1)));
        i += 1;
    }
    assert(s@.take(n as int) =~= s@);
    out
}

/// The table of contents of a container.
#[derive(Debug, Clone)]
pub struct Toc {
    /// Number of shards.
    pub shard_count: u32,
    /// Offsets of the shards.
    pub shard_offsets: Vec<u64>,
    /// Chunk index by chunk identifier.
    pub chunks: StringMap<ChunkIndex>,
    /// Node index by node identifier.
    pub nodes: StringMap<NodeIndex>,
    /// Reference index by "source:target".
    pub refs: StringMap<RefIndex>,
    /// Root node identifier by root name.
    pub roots: StringMap<String>,
}

/// Mathematical value of a table of contents.
pub struct TocView {
    pub shard_count: u32,
    pub shard_offsets: Seq<u64>,
    pub chunks: Seq<(Seq<char>, ChunkIndexView)>,
    pub nodes: Seq<(Seq<char>, NodeIndexView)>,
    pub refs: Seq<(Seq<char>, RefIndexView)>,
    pub roots: Seq<(Seq<char>, Seq<char>)>,
}

impl View for Toc {
    type V = TocView;

    open spec fn view(&self) -> TocView {
        TocView {
            shard_count: self.shard_count,
            shard_offsets: self.shard_offsets@,
            chunks: self.chunks@,
            nodes: self.nodes@,
            refs: self.refs@,
            roots: self.roots@,
        }
    }
}

impl CborRecord for Toc {
    open spec fn cbor_nesting() -> nat {
        3
    }

    open spec fn spec_from_cbor(v: CborValue) -> Option<TocView> {
        match v {
            CborValue::Dict(es) => {
                let shard_count = cbor_uint(cbor_field(es@, "shard_count"@), u32::MAX as int);
                let shard_offsets = cbor_u64_array(cbor_field(es@, "shard_offsets"@));
                let chunks = string_map_from_cbor::<ChunkIndex>(cbor_field(es@, "chunks"@));
                let nodes = string_map_from_cbor::<NodeIndex>(cbor_field(es@, "nodes"@));
                let refs = string_map_from_cbor::<RefIndex>(cbor_field(es@, "refs"@));
                let roots = string_map_from_cbor::<String>(cbor_field(es@, "roots"@));
                if shard_count is Some && shard_offsets is Some && chunks is Some && nodes is Some
                    && refs is Some && roots is Some {
                    Some(
                        TocView {
                            shard_count: shard_count->0 as u32,
                            shard_offsets: shard_offsets->0,
                            chunks: chunks->0,
                            nodes: nodes->0,
                            refs: refs->0,
                            roots: roots->0,
                        },
                    )
                } else {
                    None
                }
            },
            _ => None,
        }
    }

    fn from_cbor(v: &CborValue) -> (r: Option<Self>) {
        match v {
            CborValue::Dict(es) => {
                let shard_count = uint_value(find_field(es, "shard_count"), u32::MAX as u64);
                let shard_offsets = read_u64_array(find_field(es, "shard_offsets"));
                let chunks = read_string_map::<ChunkIndex>(find_field(es, "chunks"));
                let nodes = read_string_map::<NodeIndex>(find_field(es, "nodes"));
                let refs = read_string_map::<RefIndex>(find_field(es, "refs"));
                let roots = read_string_map::<String>(find_field(es, "roots"));
                match (shard_count, shard_offsets, chunks, nodes, refs, roots) {
                    (
                        Some(shard_count),
                        Some(shard_offsets),
                        Some(chunks),
                        Some(nodes),
                        Some(refs),
                        Some(roots),
                    ) => Some(
                        Toc { shard_count: shard_count as u32, shard_offsets, chunks, nodes, refs, roots },
                    ),
                    _ => None,
                }
            },
            _ => None,
        }
    }

    fn to_cbor(&self) -> (r: CborValue)
        ensures
            r matches CborValue::Dict(es) && es@.len() == 6,
    {
        proof {
            reveal_strlit("shard_count");
            reveal_strlit("shard_offsets");
            reveal_strlit("chunks");
            reveal_strlit("nodes");
            reveal_strlit("refs");
            reveal_strlit("roots");
            assert("shard_count"@.len() == 11);
            assert("shard_offsets"@.len() == 13);
            assert("chunks"@.len() == 6);
            assert("nodes"@.len() == 5 && "nodes"@[0] == 'n');
            assert("refs"@.len() == 4);
            assert("roots"@.len() == 5 && "roots"@[0] == 'r');
        }
        let mut es: Vec<(CborValue, CborValue)> = Vec::new();
        push_text_entry(&mut es, "shard_count", CborValue::Integer(self.shard_count as i128));
        push_text_entry(&mut es, "shard_offsets", write_u64_array(&self.shard_offsets));
        push_text_entry(&mut es, "chunks", write_string_map(&self.chunks));
        push_text_entry(&mut es, "nodes", write_string_map(&self.nodes));
        push_text_entry(&mut es, "refs", write_string_map(&self.refs));
        push_text_entry(&mut es, "roots", write_string_map(&self.roots));
        CborValue::Dict(es)
    }
}


/// The table of contents the CBOR data item at the front of `b` describes.
pub open spec fn toc_bytes_parse(b: Seq<u8>) -> Option<TocView> {
    match cbor_decoding(b) {
        Some(v) => Toc::spec_from_cbor(v),
        None => None,
    }
}

/// References in the entries whose target (`by_target`) or source is `node`, in order.
pub open spec fn refs_matching(
    entries: Seq<(Seq<char>, RefIndexView)>,
    node: Seq<char>,
    by_target: bool,
) -> Seq<RefIndexView>
    decreases entries.len(),
{
    if entries.len() == 0 {
        Seq::empty()
    } else {
        let prev = refs_matching(entries.drop_last(), node, by_target);
        let r = entries.last().1;
        if (if by_target {
            r.target_node
        } else {
            r.source_node
        }) == node {
            prev.push(r)
        } else {
            prev
        }
    }
}

/// The references stored in the entries, in order.
pub open spec fn stored_refs(entries: Seq<(Seq<char>, RefIndexView)>) -> Seq<RefIndexView> {
    entries.map_values(|e: (Seq<char>, RefIndexView)| e.1)
}

proof fn lemma_refs_matching_filter(entries: Seq<(Seq<char>, RefIndexView)>, node: Seq<char>)
    ensures
        refs_matching(entries, node, false) == stored_refs(entries).filter(
            |r: RefIndexView| r.source_node == node,
        ),
        refs_matching(entries, node, true) == stored_refs(entries).filter(
            |r: RefIndexView| r.target_node == node,
        ),
    decreases entries.len(),
{
    let from_pred = |r: RefIndexView| r.source_node == node;
    let to_pred = |r: RefIndexView| r.target_node == node;
    let st = stored_refs(entries);
    reveal(Seq::filter);
    if entries.len() > 0 {
        lemma_refs_matching_filter(entries.drop_last(), node);
        assert(st.drop_last() =~= stored_refs(entries.drop_last()));
        assert(st.last() == entries.last().1);
        assert(st.filter(from_pred) == if from_pred(st.last()) {
            st.drop_last().filter(from_pred).push(st.last())
        } else {
            st.drop_last().filter(from_pred)
        });
        assert(st.filter(to_pred) == if to_pred(st.last()) {
            st.drop_last().filter(to_pred).push(st.last())
        } else {
            st.drop_last().filter(to_pred)
        });
    } else {
        assert(st.filter(from_pred) =~= Seq::<RefIndexView>::empty());
        assert(st.filter(to_pred) =~= Seq::<RefIndexView>::empty());
    }
}

/// Law: the references found from a node (`find_references_from`) are exactly the stored
/// references whose source is that node, and those found to a node (`find_references_to`)
/// exactly the stored references whose target is it, in stored order: each one returned has
/// that source (or target), and every stored one with it is returned.
pub proof fn lemma_references_from_and_to(entries: Seq<(Seq<char>, RefIndexView)>, node: Seq<char>)
    ensures
        refs_matching(entries, node, false) == stored_refs(entries).filter(
            |r: RefIndexView| r.source_node == node,
        ),
        refs_matching(entries, node, true) == stored_refs(entries).filter(
            |r: RefIndexView| r.target_node == node,
        ),
        forall|i: int|
            0 <= i < refs_matching(entries, node, false).len() ==> (#[trigger] refs_matching(
                entries,
                node,
                false,
            )[i]).source_node == node,
        forall|i: int|
            0 <= i < refs_matching(entries, node, true).len() ==> (#[trigger] refs_matching(
                entries,
                node,
                true,
            )[i]).target_node == node,
        forall|j: int|
            0 <= j < entries.len() && (#[trigger] entries[j]).1.source_node == node ==> refs_matching(
                entries,
                node,
                false,
            ).contains(entries[j].1),
        forall|j: int|
            0 <= j < entries.len() && (#[trigger] entries[j]).1.target_node == node ==> refs_matching(
                entries,
                node,
                true,
            ).contains(entries[j].1),
{
    lemma_refs_matching_filter(entries, node);
    let from_pred = |r: RefIndexView| r.source_node == node;
    let to_pred = |r: RefIndexView| r.target_node == node;
    let st = stored_refs(entries);
    assert forall|i: int| 0 <= i < refs_matching(entries, node, false).len() implies (
    #[trigger] refs_matching(entries, node, false)[i]).source_node == node by {
        st.lemma_filter_pred(from_pred, i);
    }
    assert forall|i: int| 0 <= i < refs_matching(entries, node, true).len() implies (
    #[trigger] refs_matching(entries, node, true)[i]).target_node == node by {
        st.lemma_filter_pred(to_pred, i);
    }
    assert forall|j: int| 0 <= j < entries.len() && (#[trigger] entries[j]).1.source_node == node implies refs_matching(
        entries,
        node,
        false,
    ).contains(entries[j].1) by {
        assert(st[j] == entries[j].1);
        st.lemma_filter_contains(from_pred, j);
    }
    assert forall|j: int| 0 <= j < entries.len() && (#[trigger] entries[j]).1.target_node == node implies refs_matching(
        entries,
        node,
        true,
    ).contains(entries[j].1) by {
        assert(st[j] == entries[j].1);
        st.lemma_filter_contains(to_pred, j);
    }
}

/// Views of a list of references.
pub open spec fn ref_views(v: Seq<&RefIndex>) -> Seq<RefIndexView> {
    v.map_values(|r: &RefIndex| r@)
}

/// Bytes of the TOC footer before its CRC: "TOC1", the LEB128 shard count and each shard
/// offset as a little-endian `u64`.
pub open spec fn footer_body(shard_count: u32, offsets: Seq<u64>) -> Seq<u8>
    decreases offsets.len(),
{
    if offsets.len() == 0 {
        TOC_MAGIC@ + leb128_encoding(shard_count as nat)
    } else {
        footer_body(shard_count, offsets.drop_last()) + u64_le(offsets.last())
    }
}

/// Bytes of the TOC footer: body and little-endian CRC-32C of the body.
pub open spec fn footer_bytes(shard_count: u32, offsets: Seq<u64>) -> Seq<u8> {
    footer_body(shard_count, offsets) + u32_le(crc32c_checksum(footer_body(shard_count, offsets)))
}

/// The shard offsets read from a TOC footer at the front of `d` and the footer's length, or
/// `None` when it is short, has the wrong magic, a bad count or a CRC that does not match.
pub open spec fn footer_parse(d: Seq<u8>) -> Option<(Seq<u64>, nat)> {
    if d.len() < 8 || d.take(4) != TOC_MAGIC@ {
        None
    } else {
        match leb128_decoding(d.skip(4)) {
            None => None,
            Some((n, vl)) => {
                let p = 4 + vl;
                let end = p + 8 * n;
                if d.len() < end + 4 {
                    None
                } else if le_u32(d.skip(end as int)) != crc32c_checksum(d.take(end as int)) {
                    None
                } else {
                    Some((Seq::new(n, |i: int| le_u64(d.skip(p + 8 * i))), end + 4))
                }
            },
        }
    }
}

impl Toc {
    /// An empty table of contents.
    pub fn new() -> (r: Self)
        ensures
            r@ == (TocView {
                shard_count: 0,
                shard_offsets: Seq::empty(),
                chunks: Seq::empty(),
                nodes: Seq::empty(),
                refs: Seq::empty(),
                roots: Seq::empty(),
            }),
    {
        Toc {
            shard_count: 0,
            shard_offsets: Vec::new(),
            chunks: StringMap::new(),
            nodes: StringMap::new(),
            refs: StringMap::new(),
            roots: StringMap::new(),
        }
    }

    /// Adds (or replaces) a chunk index entry under its chunk identifier.
    pub fn add_chunk(&mut self, chunk_index: ChunkIndex)
        ensures
            final(self)@ == (TocView {
                chunks: entries_insert(old(self)@.chunks, chunk_index.chunk_id@, chunk_index@),
                ..old(self)@
            }),
    {
        let key = chunk_index.chunk_id.clone();
        self.chunks.insert(key, chunk_index);
    }

    /// Adds (or replaces) a node index entry under its node identifier.
    pub fn add_node(&mut self, node_index: NodeIndex)
        ensures
            final(self)@ == (TocView {
                nodes: entries_insert(old(self)@.nodes, node_index.node_id@, node_index@),
                ..old(self)@
            }),
    {
        let key = node_index.node_id.clone();
        self.nodes.insert(key, node_index);
    }

    /// Adds a reference entry under the key of its two ends (see `ref_key`); it replaces an
    /// earlier entry exactly when that entry has the same source and the same target.
    pub fn add_ref(&mut self, ref_index: RefIndex)
        ensures
            final(self)@ == (TocView {
                refs: entries_insert(
                    old(self)@.refs,
                    ref_key(ref_index.source_node@, ref_index.target_node@),
                    ref_index@,
                ),
                ..old(self)@
            }),
    {
        let mut key = escape_ref_part(ref_index.source_node.as_str());
        proof {
            reveal_strlit(":");
        }
        key.append(":");
        let target = escape_ref_part(ref_index.target_node.as_str());
        key.append(target.as_str());
        assert(key@ =~= ref_key(ref_index.source_node@, ref_index.target_node@));
        self.refs.insert(key, ref_index);
    }

    /// Adds a root; a name already present is refused.
    pub fn add_root(&mut self, name: String, node_id: String) -> (r: Result<()>)
        ensures
            match key_position(old(self)@.roots, name@) {
                Some(_) => r matches Err(UnivError::IndexError { .. }) && final(self)@ == old(self)@,
                None => r is Ok && final(self)@ == (TocView {
                    roots: old(self)@.roots.push((name@, node_id@)),
                    ..old(self)@
                }),
            },
    {
        if self.roots.contains_key(name.as_str()) {
            let mut reason = "根节点名称重复: ".to_owned();
            reason.append(name.as_str());
            return Err(UnivError::IndexError { reason });
        }
        self.roots.insert(name, node_id);
        Ok(())
    }

    /// The chunk index entry of a chunk identifier.
    pub fn get_chunk(&self, chunk_id: &str) -> (r: Option<&ChunkIndex>)
        ensures
            match key_value(self@.chunks, chunk_id@) {
                Some(w) => r matches Some(x) && x@ == w,
                None => r is None,
            },
    {
        self.chunks.get(chunk_id)
    }

    /// The node index entry of a node identifier.
    pub fn get_node(&self, node_id: &str) -> (r: Option<&NodeIndex>)
        ensures
            match key_value(self@.nodes, node_id@) {
                Some(w) => r matches Some(x) && x@ == w,
                None => r is None,
            },
    {
        self.nodes.get(node_id)
    }

    /// The node identifier of a root name.
    pub fn get_root(&self, name: &str) -> (r: Option<&String>)
        ensures
            match key_value(self@.roots, name@) {
                Some(w) => r matches Some(x) && x@ == w,
                None => r is None,
            },
    {
        self.roots.get(name)
    }

    /// The main root: "main", else "_default", else the first root added.
    pub fn get_main_root(&self) -> (r: Option<&String>)
        ensures
            match key_value(self@.roots, "main"@) {
                Some(w) => r matches Some(x) && x@ == w,
                None => match key_value(self@.roots, "_default"@) {
                    Some(w) => r matches Some(x) && x@ == w,
                    None => if self@.roots.len() > 0 {
                        r matches Some(x) && x@ == self@.roots[0].1
                    } else {
                        r is None
                    },
                },
            },
    {
        match self.get_root("main") {
            Some(v) => Some(v),
            None => match self.get_root("_default") {
                Some(v) => Some(v),
                None => if self.roots.len() > 0 {
                    Some(self.roots.value_at(0))
                } else {
                    None
                },
            },
        }
    }

    /// The references whose target or source (`by_target`) is `node_id`, in order.
    fn references_matching(&self, node_id: &str, by_target: bool) -> (r: Vec<&RefIndex>)
        ensures
            ref_views(r@) == refs_matching(self@.refs, node_id@, by_target),
    {
        let n = self.refs.len();
        let mut out: Vec<&RefIndex> = Vec::new();
        let mut i: usize = 0;
        assert(self@.refs.take(0) =~= Seq::<(Seq<char>, RefIndexView)>::empty());
        assert(ref_views(out@) =~= Seq::<RefIndexView>::empty());
        while i < n
            invariant
                i <= n,
                n == self@.refs.len(),
                ref_views(out@) == refs_matching(self@.refs.take(i as int), node_id@, by_target),
            decreases n - i,
        {
            let r = self.refs.value_at(i);
            assert(self@.refs.take(i + 1).drop_last() =~= self@.refs.take(i as int));
            let field = if by_target {
                r.target_node.as_str()
            } else {
                r.source_node.as_str()
            };
            let ghost before = out@;
            if str_eq(field, node_id) {
                out.push(r);
                assert(ref_views(out@) =~= ref_views(before).push(r@));
            }
            i += 1;
        }
        assert(self@.refs.take(n as int) =~= self@.refs);
        out
    }

    /// The references to `node_id`, in order.
    pub fn find_references_to(&self, node_id: &str) -> (r: Vec<&RefIndex>)
        ensures
            ref_views(r@) == refs_matching(self@.refs, node_id@, true),
    {
        self.references_matching(node_id, true)
    }

    /// The references from `node_id`, in order.
    pub fn find_references_from(&self, node_id: &str) -> (r: Vec<&RefIndex>)
        ensures
            ref_views(r@) == refs_matching(self@.refs, node_id@, false),
    {
        self.references_matching(node_id, false)
    }

    /// Serializes the table of contents as a CBOR map, which reads back as this table.
    pub fn serialize(&self) -> (r: Result<Vec<u8>>)
        ensures
            r matches Ok(b) && toc_bytes_parse(b@) == Some(self@),
            r matches Ok(b) ==> b@.len() >= 1 && b@[0] == 0xa6,
    {
        let value = self.to_cbor();
        match cbor_encode(&value) {
            Some(b) => Ok(b),
            None => Err(UnivError::serialization_error("TOC序列化失败")),
        }
    }

    /// Parses a table of contents from the CBOR data item at the front of `data`.
    pub fn deserialize(data: &[u8]) -> (r: Result<Self>)
        ensures
            match toc_bytes_parse(data@) {
                Some(t) => r matches Ok(x) && x@ == t,
                None => r matches Err(UnivError::DeserializationError { .. }),
            },
    {
        match cbor_decode(data) {
            Some(value) => match Self::from_cbor(&value) {
                Some(toc) => Ok(toc),
                None => Err(UnivError::deserialization_error("TOC反序列化失败")),
            },
            None => Err(UnivError::deserialization_error("TOC反序列化失败")),
        }
    }
}

impl Default for Toc {
    fn default() -> (r: Self)
        ensures
            r@ == (TocView {
                shard_count: 0,
                shard_offsets: Seq::empty(),
                chunks: Seq::empty(),
                nodes: Seq::empty(),
                refs: Seq::empty(),
                roots: Seq::empty(),
            }),
    {
        Self::new()
    }
}


/// Length of a footer body and where each offset's bytes sit in it.
proof fn lemma_footer_body_layout(shard_count: u32, offsets: Seq<u64>)
    ensures
        footer_body(shard_count, offsets).len() == 4 + leb128_encoding(shard_count as nat).len() + 8
            * offsets.len(),
        footer_body(shard_count, offsets).take(4) == TOC_MAGIC@,
        footer_body(shard_count, offsets).subrange(4, 4 + leb128_encoding(shard_count as nat).len() as int)
            == leb128_encoding(shard_count as nat),
        forall|i: int|
            0 <= i < offsets.len() ==> #[trigger] footer_body(shard_count, offsets).subrange(
                4 + leb128_encoding(shard_count as nat).len() + 8 * i,
                4 + leb128_encoding(shard_count as nat).len() + 8 * i + 8,
            ) == u64_le(offsets[i]),
    decreases offsets.len(),
{
    let p = 4 + leb128_encoding(shard_count as nat).len();
    if offsets.len() == 0 {
        let b = footer_body(shard_count, offsets);
        assert(b.take(4) =~= TOC_MAGIC@);
        assert(b.subrange(4, p as int) =~= leb128_encoding(shard_count as nat));
    } else {
        let prev = offsets.drop_last();
        lemma_footer_body_layout(shard_count, prev);
        let b = footer_body(shard_count, offsets);
        let pb = footer_body(shard_count, prev);
        assert(b == pb + u64_le(offsets.last()));
        assert(b.take(4) =~= pb.take(4));
        assert(b.subrange(4, p as int) =~= pb.subrange(4, p as int));
        assert forall|i: int| 0 <= i < offsets.len() implies #[trigger] b.subrange(
            p + 8 * i,
            p + 8 * i + 8,
        ) == u64_le(offsets[i]) by {
            if i < offsets.len() - 1 {
                assert(b.subrange(p + 8 * i, p + 8 * i + 8) =~= pb.subrange(p + 8 * i, p + 8 * i + 8));
                assert(pb.subrange(p + 8 * i, p + 8 * i + 8) == u64_le(prev[i]));
            } else {
                assert(b.subrange(p + 8 * i, p + 8 * i + 8) =~= u64_le(offsets.last()));
            }
        }
    }
}

/// Law: a TOC footer written with a shard count equal to the number of offsets reads back as
/// those offsets, whatever follows, and reading takes the whole footer.
pub proof fn lemma_footer_roundtrip(shard_count: u32, offsets: Seq<u64>, rest: Seq<u8>)
    requires
        shard_count == offsets.len(),
    ensures
        footer_parse(footer_bytes(shard_count, offsets) + rest) == Some(
            (offsets, footer_bytes(shard_count, offsets).len()),
        ),
{
    let body = footer_body(shard_count, offsets);
    let d = footer_bytes(shard_count, offsets) + rest;
    let enc = leb128_encoding(shard_count as nat);
    let p = 4 + enc.len();
    lemma_footer_body_layout(shard_count, offsets);
    crate::util::varint::lemma_leb128_encoding_len(shard_count as nat, 0);
    assert(d.take(4) =~= TOC_MAGIC@) by {
        assert(d.take(4) =~= body.take(4));
    }
    let after = d.skip(p as int);
    assert(d.skip(4) =~= enc + after) by {
        assert(d.skip(4).take(enc.len() as int) =~= body.subrange(4, p as int));
    }
    crate::util::varint::lemma_leb128_roundtrip(shard_count as u64, after);
    let end = p + 8 * offsets.len();
    assert(d.take(end as int) =~= body);
    crate::util::le::lemma_u32_le_roundtrip(crc32c_checksum(body), rest);
    assert(d.skip(end as int) =~= u32_le(crc32c_checksum(body)) + rest);
    let parsed = Seq::new(offsets.len(), |i: int| le_u64(d.skip(p + 8 * i)));
    assert forall|i: int| 0 <= i < offsets.len() implies parsed[i] == offsets[i] by {
        assert(body.subrange(p + 8 * i, p + 8 * i + 8) == u64_le(offsets[i]));
        crate::util::le::lemma_u64_le_roundtrip(offsets[i], d.skip(p + 8 * i + 8));
        assert(d.skip(p + 8 * i) =~= u64_le(offsets[i]) + d.skip(p + 8 * i + 8));
    }
    assert(parsed =~= offsets);
}

/// The reason given for a footer whose CRC does not match: the stored and the computed
/// CRC, each as big-endian hex.
pub open spec fn footer_crc_text(stored: u32, computed: u32) -> Seq<char> {
    "TOC Footer CRC校验失败: 期望"@ + crate::util::hash::hex_encoding(crate::util::le::u32_be(stored))
        + ", 实际"@ + crate::util::hash::hex_encoding(crate::util::le::u32_be(computed))
}

/// Big-endian bytes of a `u32`.
fn u32_be_bytes(v: u32) -> (r: Vec<u8>)
    ensures
        r@ == crate::util::le::u32_be(v),
{
    let mut out: Vec<u8> = Vec::new();
    crate::util::le::put_u32_be(&mut out, v);
    assert(out@ =~= crate::util::le::u32_be(v));
    out
}

impl Toc {
    /// Serializes the footer: "TOC1", LEB128 shard count, little-endian shard offsets, CRC.
    pub fn serialize_footer(&self) -> (r: Result<Vec<u8>>)
        ensures
            r matches Ok(b) && b@ == footer_bytes(self.shard_count, self.shard_offsets@),
    {
        let mut buf: Vec<u8> = Vec::new();
        buf.push(TOC_MAGIC[0]);
        buf.push(TOC_MAGIC[1]);
        buf.push(TOC_MAGIC[2]);
        buf.push(TOC_MAGIC[3]);
        let shard_count_bytes = VarInt::encode_u64(self.shard_count as u64)?;
        buf.extend_from_slice(shard_count_bytes.as_slice());
        assert(buf@ =~= footer_body(self.shard_count, self.shard_offsets@.take(0)));
        let mut i: usize = 0;
        while i < self.shard_offsets.len()
            invariant
                i <= self.shard_offsets@.len(),
                buf@ == footer_body(self.shard_count, self.shard_offsets@.take(i as int)),
            decreases self.shard_offsets@.len() - i,
        {
            put_u64_le(&mut buf, self.shard_offsets[i]);
            assert(self.shard_offsets@.take(i + 1).drop_last() =~= self.shard_offsets@.take(i as int));
            i += 1;
        }
        assert(self.shard_offsets@.take(i as int) =~= self.shard_offsets@);
        let crc = crc32c(buf.as_slice());
        put_u32_le(&mut buf, crc);
        Ok(buf)
    }

    /// Parses a TOC footer at the front of `data`: the shard offsets and the footer's length.
    pub fn deserialize_footer(data: &[u8]) -> (r: Result<(Vec<u64>, usize)>)
        ensures
            match footer_parse(data@) {
                Some((offsets, n)) => r matches Ok((v, m)) && v@ == offsets && m == n,
                None => r is Err,
            },
            data@.len() < 8 ==> (r matches Err(UnivError::IncompleteData { expected, actual })
                && expected == 8 && actual == data@.len()),
            data@.len() >= 8 && data@.take(4) != TOC_MAGIC@ ==> r matches Err(
                UnivError::DeserializationError { .. },
            ),
            data@.len() >= 8 && data@.take(4) == TOC_MAGIC@ ==> match leb128_decoding(data@.skip(4)) {
                None => r is Err,
                Some((n, vl)) => {
                    let end = 4 + vl + 8 * n;
                    if data@.len() < 4 + vl + 8 * n {
                        r matches Err(UnivError::IncompleteData { expected, actual }) && expected == 8
                            && actual == (data@.len() - (4 + vl)) % 8
                    } else if data@.len() < end + 4 {
                        r matches Err(UnivError::IncompleteData { expected, actual }) && expected == 4
                            && actual == data@.len() - end
                    } else if le_u32(data@.skip(end as int)) != crc32c_checksum(data@.take(end as int)) {
                        r matches Err(UnivError::DeserializationError { reason }) && reason@
                            == footer_crc_text(
                            le_u32(data@.skip(end as int)),
                            crc32c_checksum(data@.take(end as int)),
                        )
                    } else {
                        r is Ok
                    }
                },
            },
    {
        if data.len() < 8 {
            return Err(UnivError::IncompleteData { expected: 8, actual: data.len() });
        }
        let magic: [u8; 4] = [data[0], data[1], data[2], data[3]];
        assert(magic@ =~= data@.take(4));
        if !crate::profile::codes_equal(&magic, &TOC_MAGIC) {
            return Err(UnivError::deserialization_error("无效的TOC Footer魔数"));
        }
        let rest = &data[4..data.len()];
        assert(rest@ =~= data@.skip(4));
        proof {
            crate::util::varint::lemma_leb128_decode_bound(rest@, 0);
        }
        let (shard_count, varint_len) = VarInt::decode_u64(rest)?;
        let p = 4 + varint_len;
        let ghost n = shard_count as nat;
        let ghost end = p + 8 * n;
        let mut shard_offsets: Vec<u64> = Vec::new();
        let mut pos = p;
        let mut k: u64 = 0;
        while k < shard_count
            invariant
                k <= shard_count,
                p <= data@.len(),
                pos == p + 8 * k,
                pos <= data@.len(),
                end == p + 8 * n,
                n == shard_count,
                data@.len() >= 8,
                data@.take(4) == TOC_MAGIC@,
                p >= 4,
                leb128_decoding(data@.skip(4)) == Some((n, (p - 4) as nat)),
                shard_offsets@ =~= Seq::new(k as nat, |i: int| le_u64(data@.skip(p + 8 * i))),
            decreases shard_count - k,
        {
            if data.len() - pos < 8 {
                assert((data@.len() - p) % 8 == data@.len() - pos) by (nonlinear_arith)
                    requires
                        pos == p + 8 * k,
                        pos <= data@.len(),
                        data@.len() - pos < 8,
                ;
                assert(data@.len() < end + 4) by (nonlinear_arith)
                    requires
                        data@.len() < pos + 8,
                        pos == p + 8 * k,
                        k < n,
                        end == p + 8 * n,
                ;
                return Err(UnivError::IncompleteData { expected: 8, actual: data.len() - pos });
            }
            shard_offsets.push(get_u64_le(data, pos));
            pos = pos + 8;
            k = k + 1;
        }
        if data.len() - pos < 4 {
            return Err(UnivError::IncompleteData { expected: 4, actual: data.len() - pos });
        }
        let expected_crc = get_u32_le(data, pos);
        let computed_crc = crc32c(&data[0..pos]);
        assert(data@.subrange(0, pos as int) =~= data@.take(pos as int));
        if expected_crc != computed_crc {
            let mut reason = "TOC Footer CRC校验失败: 期望".to_owned();
            proof {
                reveal_strlit("TOC Footer CRC校验失败: 期望");
                reveal_strlit(", 实际");
            }
            let expected_hex = crate::util::hash::hex_encode(u32_be_bytes(expected_crc).as_slice());
            let computed_hex = crate::util::hash::hex_encode(u32_be_bytes(computed_crc).as_slice());
            reason.append(expected_hex.as_str());
            reason.append(", 实际");
            reason.append(computed_hex.as_str());
            assert(reason@ =~= footer_crc_text(expected_crc, computed_crc));
            return Err(UnivError::DeserializationError { reason });
        }
        Ok((shard_offsets, pos + 4))
    }
}

} // verus!
