//! The container: header, chunks and optional table of contents.

use vstd::prelude::*;
use std::sync::Arc;
use crate::chunk::{
    chunk_frame, chunk_frame_cut_in_reserved, chunk_frame_parse, chunk_new_spec, chunk_raw_data,
    chunk_verify_ok, Chunk, ChunkKind, ChunkPayload, ChunkView, Codec, ProcessingStats,
};
use crate::chunk::parallel::{chunk_views, total_compressed, total_raw};
use crate::constants::{hash_algorithms, CHUNK_MAGIC};
use crate::error::{Result, UnivError};
use crate::header::{
    ext_block, ext_entries_match_types, has_ext_flag, header_bytes, header_estimated_size,
    header_parse, ExtensionView, Header, HeaderView,
};
use crate::profile::Profile;
use crate::toc::{toc_bytes_parse, Toc, TocView};

verus! {

/// Bytes of a sequence of chunk frames.
pub open spec fn chunk_frames(cs: Seq<ChunkView>) -> Seq<u8>
    decreases cs.len(),
{
    if cs.len() == 0 {
        Seq::empty()
    } else {
        chunk_frames(cs.drop_last()) + chunk_frame(cs.last())
    }
}

/// Whether a chunk frame starts at `off`: at least four bytes left and the chunk magic.
pub open spec fn frame_starts_at(d: Seq<u8>, off: nat) -> bool {
    off < d.len() && d.len() - off >= 4 && d.subrange(off as int, off + 4int) == CHUNK_MAGIC@
}

/// The chunks framed from `off` on, up to the end of the data or the first position where
/// no frame starts, and the offset where they end; `None` when a frame does not parse.
pub open spec fn chunks_parse(d: Seq<u8>, off: nat) -> Option<(Seq<ChunkView>, nat)>
    decreases d.len() - off,
{
    if !frame_starts_at(d, off) {
        Some((Seq::empty(), off))
    } else {
        match chunk_frame_parse(d.skip(off as int)) {
            None => None,
            Some((c, n)) => if n == 0 || off + n > d.len() {
                None
            } else {
                match chunks_parse(d, off + n) {
                    None => None,
                    Some((cs, end)) => Some((seq![c] + cs, end)),
                }
            },
        }
    }
}

/// Whether, in the run of frames from `off` on, a frame ends inside its reserved bytes.
pub open spec fn chunks_parse_cut(d: Seq<u8>, off: nat) -> bool
    decreases d.len() - off,
{
    if !frame_starts_at(d, off) {
        false
    } else if chunk_frame_cut_in_reserved(d.skip(off as int)) {
        true
    } else {
        match chunk_frame_parse(d.skip(off as int)) {
            None => false,
            Some((c, n)) => if n == 0 || off + n > d.len() {
                false
            } else {
                chunks_parse_cut(d, off + n)
            },
        }
    }
}

/// Mathematical value of a container.
pub struct ContainerView {
    pub header: HeaderView,
    pub chunks: Seq<ChunkView>,
    pub toc: Option<TocView>,
}

/// A container: header, chunks and optional table of contents.
#[derive(Debug, Clone)]
pub struct Container {
    /// Header.
    pub header: Header,
    /// Chunks, in order.
    pub chunks: Vec<Chunk>,
    /// Table of contents.
    pub toc: Option<Toc>,
}

impl View for Container {
    type V = ContainerView;

    open spec fn view(&self) -> ContainerView {
        ContainerView {
            header: self.header@,
            chunks: chunk_views(self.chunks@),
            toc: match self.toc {
                Some(t) => Some(t@),
                None => None,
            },
        }
    }
}

/// The container read from `data`: its header, the chunk frames that follow, and, when
/// bytes remain, the table of contents they describe (none when they do not parse); `None`
/// when the header or a frame does not parse.
pub open spec fn container_parse(data: Seq<u8>) -> Option<ContainerView> {
    match header_parse(data) {
        None => None,
        Some((h, hl)) => match chunks_parse(data, hl) {
            None => None,
            Some((cs, end)) => Some(
                ContainerView {
                    header: h,
                    chunks: cs,
                    toc: if end < data.len() {
                        toc_bytes_parse(data.skip(end as int))
                    } else {
                        None
                    },
                },
            ),
        },
    }
}

/// Reading the container does not run into a frame cut inside its reserved bytes.
pub open spec fn container_frames_whole(data: Seq<u8>) -> bool {
    header_parse(data) matches Some((h, hl)) ==> !chunks_parse_cut(data, hl)
}

/// Whether the chunk magic starts at `off`.
fn frame_starts_at_exec(data: &[u8], off: usize) -> (r: bool)
    ensures
        r == frame_starts_at(data@, off as nat),
{
    if off >= data.len() || data.len() - off < 4 {
        return false;
    }
    let r = data[off] == CHUNK_MAGIC[0] && data[off + 1] == CHUNK_MAGIC[1] && data[off + 2]
        == CHUNK_MAGIC[2] && data[off + 3] == CHUNK_MAGIC[3];
    let ghost w = data@.subrange(off as int, off + 4);
    if r {
        assert(w =~= CHUNK_MAGIC@);
    } else {
        assert(w[0] == data@[off as int] && w[1] == data@[off + 1] && w[2] == data@[off + 2] && w[3]
            == data@[off + 3]);
    }
    r
}

proof fn lemma_chunks_parse_step(d: Seq<u8>, off: nat)
    requires
        frame_starts_at(d, off),
        chunk_frame_parse(d.skip(off as int)) matches Some((c, n)) && n > 0 && off + n <= d.len(),
    ensures
        ({
            let (c, n) = chunk_frame_parse(d.skip(off as int)).unwrap();
            &&& chunks_parse(d, off) == match chunks_parse(d, off + n) {
                None => None,
                Some((cs, end)) => Some((seq![c] + cs, end)),
            }
            &&& chunks_parse_cut(d, off) == (chunk_frame_cut_in_reserved(d.skip(off as int))
                || chunks_parse_cut(d, off + n))
        }),
{
}

impl Container {
    /// An empty container for `profile`.
    pub fn new(profile: Profile) -> (r: Self)
        ensures
            r@ == (ContainerView {
                header: HeaderView {
                    profile,
                    major_version: 1,
                    minor_version: 1,
                    flags: 0,
                    extensions: Map::empty(),
                },
                chunks: Seq::empty(),
                toc: None,
            }),
    {
        let c = Container { header: Header::new(profile), chunks: Vec::new(), toc: None };
        assert(chunk_views(c.chunks@) =~= Seq::<ChunkView>::empty());
        c
    }

    /// Serializes the container: header, chunk frames, then the table of contents.
    pub fn serialize(&self) -> (r: Result<Vec<u8>>)
        ensures
            r matches Ok(b) ==> container_bytes_ok(self@, b@),
            r matches Ok(b) && b@.take(
                (header_bytes(self@.header) + chunk_frames(self@.chunks)).len() as int,
            ) == header_bytes(self@.header) + chunk_frames(self@.chunks) && match self@.toc {
                None => b@.len() == (header_bytes(self@.header) + chunk_frames(self@.chunks)).len(),
                Some(t) => toc_bytes_parse(
                    b@.skip((header_bytes(self@.header) + chunk_frames(self@.chunks)).len() as int),
                ) == Some(t),
            },
    {
        let mut result: Vec<u8> = Vec::new();
        let header_data = self.header.serialize()?;
        result.extend_from_slice(header_data.as_slice());
        let mut i: usize = 0;
        assert(chunk_views(self.chunks@).take(0) =~= Seq::<ChunkView>::empty());
        assert(result@ =~= header_bytes(self@.header) + chunk_frames(
            chunk_views(self.chunks@).take(0),
        ));
        while i < self.chunks.len()
            invariant
                i <= self.chunks@.len(),
                result@ == header_bytes(self@.header) + chunk_frames(
                    chunk_views(self.chunks@).take(i as int),
                ),
            decreases self.chunks@.len() - i,
        {
            let chunk_data = self.chunks[i].serialize()?;
            result.extend_from_slice(chunk_data.as_slice());
            let ghost t = chunk_views(self.chunks@).take(i + 1);
            assert(t.drop_last() =~= chunk_views(self.chunks@).take(i as int));
            assert(t.last() == self.chunks@[i as int]@);
            assert(result@ =~= header_bytes(self@.header) + chunk_frames(t));
            i += 1;
        }
        assert(chunk_views(self.chunks@).take(i as int) =~= chunk_views(self.chunks@));
        let ghost prefix = result@;
        match &self.toc {
            Some(toc) => {
                let toc_data = toc.serialize()?;
                proof {
                    if frame_starts_at(toc_data@, 0) {
                        assert(toc_data@.subrange(0, 4)[0] == toc_data@[0]);
                        assert(CHUNK_MAGIC@[0] == 0x43u8);
                    }
                }
                result.extend_from_slice(toc_data.as_slice());
                assert(result@.take(prefix.len() as int) =~= prefix);
                assert(result@.skip(prefix.len() as int) =~= toc_data@);
            },
            None => {
                assert(result@.take(prefix.len() as int) =~= prefix);
            },
        }
        Ok(result)
    }

    /// Parses a container. Bytes after the last chunk frame are read as a table of contents
    /// when they parse as one.
    pub fn deserialize(data: &[u8]) -> (r: Result<Self>)
        ensures
            !container_frames_whole(data@) ==> r matches Err(UnivError::IncompleteData { .. }),
            data@.len() == 0 ==> (r matches Err(UnivError::IncompleteData { expected, actual })
                && expected == 1 && actual == 0),
            data@.len() > 0 ==> match container_parse(data@) {
                Some(c) => r matches Ok(x) && x@ == c,
                None => r is Err,
            },
    {
        if data.len() == 0 {
            return Err(UnivError::IncompleteData { expected: 1, actual: 0 });
        }
        let (header, header_size) = Header::deserialize(data)?;
        let ghost hl = header_size as nat;
        let mut offset = header_size;
        let mut chunks: Vec<Chunk> = Vec::new();
        assert(chunk_views(chunks@) =~= Seq::<ChunkView>::empty());
        while frame_starts_at_exec(data, offset)
            invariant
                hl <= offset <= data@.len(),
                header_parse(data@) matches Some((h, n)) && n == hl,
                !container_frames_whole(data@) ==> chunks_parse_cut(data@, offset as nat),
                chunks_parse(data@, hl) == match chunks_parse(data@, offset as nat) {
                    None => None,
                    Some((cs, end)) => Some((chunk_views(chunks@) + cs, end)),
                },
            decreases data@.len() - offset,
        {
            let remaining = &data[offset..data.len()];
            assert(remaining@ =~= data@.skip(offset as int));
            let (chunk, chunk_size) = Chunk::deserialize(remaining)?;
            proof {
                crate::chunk::lemma_chunk_frame_total_bound(remaining@);
                lemma_chunks_parse_step(data@, offset as nat);
            }
            let ghost before = chunks@;
            chunks.push(chunk);
            assert(chunk_views(chunks@) =~= chunk_views(before).push(chunk@));
            proof {
                let c = chunk@;
                let rest = chunks_parse(data@, (offset + chunk_size) as nat);
                if let Some((cs, end)) = rest {
                    assert(chunk_views(before) + (seq![c] + cs) =~= chunk_views(chunks@) + cs);
                }
            }
            offset = offset + chunk_size;
        }
        let toc = if offset < data.len() {
            let remaining = &data[offset..data.len()];
            assert(remaining@ =~= data@.skip(offset as int));
            match Toc::deserialize(remaining) {
                Ok(t) => Some(t),
                Err(_) => None,
            }
        } else {
            None
        };
        proof {
            assert(chunks_parse(data@, offset as nat) == Some((Seq::<ChunkView>::empty(), offset as nat)));
            assert(chunk_views(chunks@) + Seq::<ChunkView>::empty() =~= chunk_views(chunks@));
        }
        Ok(Container { header, chunks, toc })
    }
}


/// A chunk whose frame reads back as the chunk: well-formed kind and codec, a hash of at
/// most 255 bytes, a payload of the recorded compressed size, and no schema reference.
pub open spec fn chunk_frame_ok(c: ChunkView) -> bool {
    &&& c.kind.well_formed()
    &&& c.codec.well_formed()
    &&& c.content_hash.len() <= 255
    &&& c.payload.len() == c.compressed_size
    &&& c.schema_ref is None
}

proof fn lemma_chunk_frames_first(cs: Seq<ChunkView>)
    requires
        cs.len() > 0,
    ensures
        chunk_frames(cs) == chunk_frame(cs[0]) + chunk_frames(cs.drop_first()),
    decreases cs.len(),
{
    if cs.len() == 1 {
        assert(cs.drop_last() =~= Seq::<ChunkView>::empty());
        assert(cs.drop_first() =~= Seq::<ChunkView>::empty());
        assert(chunk_frames(cs) =~= chunk_frame(cs[0]) + chunk_frames(cs.drop_first()));
    } else {
        lemma_chunk_frames_first(cs.drop_last());
        assert(cs.drop_last().drop_first() =~= cs.drop_first().drop_last());
        assert(cs.drop_first().last() == cs.last());
        assert(cs.drop_last()[0] == cs[0]);
        assert(chunk_frames(cs) =~= chunk_frame(cs[0]) + chunk_frames(cs.drop_first()));
    }
}

proof fn lemma_frame_starts_at_shift(pre: Seq<u8>, post: Seq<u8>)
    ensures
        frame_starts_at(pre + post, pre.len()) == frame_starts_at(post, 0),
{
    let d = pre + post;
    if post.len() >= 4 {
        assert(d.subrange(pre.len() as int, pre.len() + 4int) =~= post.subrange(0, 4));
    }
}

/// The frames of well-formed chunks read back as those chunks, up to the bytes after them
/// when those do not start a frame.
#[verifier::rlimit(60)]
#[verifier::spinoff_prover]
proof fn lemma_chunks_roundtrip(pre: Seq<u8>, cs: Seq<ChunkView>, post: Seq<u8>)
    requires
        forall|i: int| 0 <= i < cs.len() ==> chunk_frame_ok(#[trigger] cs[i]),
        !frame_starts_at(post, 0),
    ensures
        chunks_parse(pre + chunk_frames(cs) + post, pre.len()) == Some(
            (cs, pre.len() + chunk_frames(cs).len()),
        ),
        !chunks_parse_cut(pre + chunk_frames(cs) + post, pre.len()),
    decreases cs.len(),
{
    let d = pre + chunk_frames(cs) + post;
    if cs.len() == 0 {
        assert(d =~= pre + post);
        lemma_frame_starts_at_shift(pre, post);
    } else {
        let c = cs[0];
        let f = chunk_frame(c);
        assert(f.len() >= 24 && f.take(4) =~= CHUNK_MAGIC@) by {
            reveal(chunk_frame);
        }
        let rest_cs = cs.drop_first();
        lemma_chunk_frames_first(cs);
        let after = chunk_frames(rest_cs) + post;
        assert(d =~= pre + (f + after));
        assert(d.skip(pre.len() as int) =~= f + after);
        crate::chunk::lemma_chunk_frame_roundtrip(c, after);
        assert(d.subrange(pre.len() as int, pre.len() + 4int) =~= f.take(4));
        assert(frame_starts_at(d, pre.len()));
        let pre2 = pre + f;
        assert forall|i: int| 0 <= i < rest_cs.len() implies chunk_frame_ok(#[trigger] rest_cs[i]) by {
            assert(rest_cs[i] == cs[i + 1]);
        }
        lemma_chunks_roundtrip(pre2, rest_cs, post);
        assert(pre2 + chunk_frames(rest_cs) + post =~= d);
        assert(pre2.len() == pre.len() + f.len());
        lemma_chunks_parse_step(d, pre.len());
        assert(seq![c] + rest_cs =~= cs);
        assert(chunk_frames(cs).len() == f.len() + chunk_frames(rest_cs).len());
    }
}

/// A chunk read from a frame writes back to a frame that reads as it.
proof fn lemma_parsed_frame_ok(d: Seq<u8>)
    ensures
        chunk_frame_parse(d) matches Some((c, n)) ==> chunk_frame_ok(c),
{
    reveal(chunk_frame_parse);
    if let Some((c, n)) = chunk_frame_parse(d) {
        crate::chunk::lemma_chunk_kind_code_roundtrip(c.kind, d[4]);
        crate::chunk::lemma_codec_code_roundtrip(c.codec, d[5]);
    }
}

/// Every chunk read from a run of frames writes back to a frame that reads as it.
pub(crate) proof fn lemma_parsed_chunks_ok(d: Seq<u8>, off: nat)
    ensures
        chunks_parse(d, off) matches Some((cs, end)) ==> forall|i: int|
            0 <= i < cs.len() ==> chunk_frame_ok(#[trigger] cs[i]),
    decreases d.len() - off,
{
    if frame_starts_at(d, off) {
        if let Some((c, n)) = chunk_frame_parse(d.skip(off as int)) {
            if n > 0 && off + n <= d.len() {
                lemma_parsed_frame_ok(d.skip(off as int));
                lemma_parsed_chunks_ok(d, off + n);
                if let Some((cs, end)) = chunks_parse(d, off) {
                    let (rest, e2) = chunks_parse(d, off + n).unwrap();
                    assert(cs == seq![c] + rest);
                    assert forall|i: int| 0 <= i < cs.len() implies chunk_frame_ok(#[trigger] cs[i]) by {
                        if i > 0 {
                            assert(cs[i] == rest[i - 1]);
                        }
                    }
                }
            }
        }
    }
}

/// The bytes after the chunk frames: none without a table of contents, and with one, bytes
/// that describe it and do not begin like a chunk frame.
pub open spec fn toc_bytes_fit(toc: Option<TocView>, tb: Seq<u8>) -> bool {
    match toc {
        None => tb.len() == 0,
        Some(t) => tb.len() > 0 && !frame_starts_at(tb, 0) && toc_bytes_parse(tb) == Some(t),
    }
}

/// The bytes of a container: its header, its chunk frames, then bytes that fit its table of
/// contents.
pub open spec fn container_bytes_ok(c: ContainerView, b: Seq<u8>) -> bool {
    let pre = header_bytes(c.header) + chunk_frames(c.chunks);
    &&& b.len() >= pre.len()
    &&& b.take(pre.len() as int) == pre
    &&& toc_bytes_fit(c.toc, b.skip(pre.len() as int))
}

/// Law: what `Container::serialize` writes reads back as the container, when the header
/// reads back (well-formed profile, entries under their own type codes, extension block
/// within 32 bits, extensions only with the extension flag) and every chunk frame reads
/// back (see `chunk_frame_ok`).
pub proof fn lemma_serialized_container_reads_back(c: ContainerView, b: Seq<u8>)
    requires
        c.header.profile.well_formed(),
        ext_entries_match_types(c.header.extensions),
        ext_block(c.header).len() <= u32::MAX,
        has_ext_flag(c.header.flags) || c.header.extensions == Map::<u8, ExtensionView>::empty(),
        forall|i: int| 0 <= i < c.chunks.len() ==> chunk_frame_ok(#[trigger] c.chunks[i]),
        container_bytes_ok(c, b),
    ensures
        container_frames_whole(b),
        container_parse(b) == Some(c),
{
    let pre = header_bytes(c.header) + chunk_frames(c.chunks);
    let tb = b.skip(pre.len() as int);
    assert(b =~= header_bytes(c.header) + chunk_frames(c.chunks) + tb);
    lemma_container_roundtrip(c, tb);
}

/// Law: a container read from bytes and written again (`Container::serialize`) reads back
/// as the same container: reading, writing and reading again gives what the first reading
/// gave.
pub proof fn lemma_read_container_writes_back(b: Seq<u8>, o: Seq<u8>)
    requires
        container_parse(b) matches Some(c) && container_bytes_ok(c, o),
    ensures
        container_frames_whole(o),
        container_parse(o) == container_parse(b),
{
    let c = container_parse(b).unwrap();
    crate::header::lemma_parsed_header_writes_back(b);
    let (h, hl) = header_parse(b).unwrap();
    lemma_parsed_chunks_ok(b, hl);
    lemma_serialized_container_reads_back(c, o);
}

/// Law: a container reads back from its serialized bytes. It holds when the header reads
/// back (well-formed profile, entries under their own type codes, extension block within
/// 32 bits, extensions only with the extension flag), every chunk frame reads back (see
/// `chunk_frame_ok`), and the bytes written for the table of contents — none without one —
/// describe it and do not begin like a chunk frame.
pub proof fn lemma_container_roundtrip(c: ContainerView, toc_bytes: Seq<u8>)
    requires
        c.header.profile.well_formed(),
        ext_entries_match_types(c.header.extensions),
        ext_block(c.header).len() <= u32::MAX,
        has_ext_flag(c.header.flags) || c.header.extensions == Map::<u8, ExtensionView>::empty(),
        forall|i: int| 0 <= i < c.chunks.len() ==> chunk_frame_ok(#[trigger] c.chunks[i]),
        toc_bytes_fit(c.toc, toc_bytes),
    ensures
        container_frames_whole(header_bytes(c.header) + chunk_frames(c.chunks) + toc_bytes),
        container_parse(header_bytes(c.header) + chunk_frames(c.chunks) + toc_bytes) == Some(c),
{
    let hb = header_bytes(c.header);
    let d = hb + chunk_frames(c.chunks) + toc_bytes;
    crate::header::lemma_header_roundtrip(c.header, chunk_frames(c.chunks) + toc_bytes);
    assert(d =~= hb + (chunk_frames(c.chunks) + toc_bytes));
    lemma_chunks_roundtrip(hb, c.chunks, toc_bytes);
    let end = hb.len() + chunk_frames(c.chunks).len();
    if let Some(t) = c.toc {
        assert(d.skip(end as int) =~= toc_bytes);
    }
}


/// `Arc::from` on a byte slice: claims the shared buffer holds the slice's bytes.
#[verifier::external_body]
fn arc_from_slice(data: &[u8]) -> (r: Arc<[u8]>)
    ensures
        (*r)@ == data@,
{
    Arc::from(data)
}

/// Estimated serialized size of the chunks: per chunk, the fixed frame, hash and payload.
pub open spec fn chunks_estimated_size(cs: Seq<ChunkView>) -> nat
    decreases cs.len(),
{
    if cs.len() == 0 {
        0
    } else {
        chunks_estimated_size(cs.drop_last()) + 26 + cs.last().content_hash.len()
            + cs.last().payload.len()
    }
}

/// Estimated serialized size of a container: header, chunks, and 1024 bytes for a table of
/// contents.
pub open spec fn container_estimated_size(c: ContainerView) -> nat {
    header_estimated_size(c.header) + chunks_estimated_size(c.chunks) + if c.toc is Some {
        1024nat
    } else {
        0nat
    }
}

/// Payload bytes held by the chunks, owned (`shared == false`) or shared.
pub open spec fn payload_total(chunks: Seq<Chunk>, shared: bool) -> nat
    decreases chunks.len(),
{
    if chunks.len() == 0 {
        0
    } else {
        payload_total(chunks.drop_last(), shared) + if (chunks.last().payload is Shared) == shared {
            chunks.last().payload@.len()
        } else {
            0
        }
    }
}

/// Memory held by a container against the file it was read from.
#[derive(Debug, Clone, Copy)]
pub struct MemoryStats {
    /// Size of the file.
    pub original_file_size: usize,
    /// Payload bytes the chunks own (copied).
    pub owned_payload_size: usize,
    /// Payload bytes the chunks share with the file buffer.
    pub shared_payload_size: usize,
    /// Sum of the raw sizes.
    pub total_raw_capacity: usize,
    /// Size of the container and chunk structures.
    pub metadata_size: usize,
}

impl MemoryStats {
    /// Bytes that zero-copy reading saved: the shared payload.
    pub fn zero_copy_savings(&self) -> (r: usize)
        ensures
            r == self.shared_payload_size,
    {
        self.shared_payload_size
    }
}

proof fn lemma_prefix_le<W>(s: Seq<W>, k: int, f: spec_fn(Seq<W>) -> nat)
    requires
        0 <= k <= s.len(),
        forall|t: Seq<W>| t.len() > 0 ==> f(t.drop_last()) <= #[trigger] f(t),
    ensures
        f(s.take(k)) <= f(s),
    decreases s.len() - k,
{
    if k < s.len() {
        lemma_prefix_le(s, k + 1, f);
        assert(s.take(k + 1).drop_last() =~= s.take(k));
    } else {
        assert(s.take(k) =~= s);
    }
}

impl Container {
    /// Parses a container, the chunk payloads sharing one copy of the input.
    pub fn deserialize_zero_copy(data: &[u8]) -> (r: Result<Self>)
        ensures
            r matches Ok(x) ==> forall|i: int|
                0 <= i < x.chunks@.len() ==> (#[trigger] x.chunks@[i]).payload.shared_from(data@),
            !container_frames_whole(data@) ==> r matches Err(UnivError::IncompleteData { .. }),
            data@.len() == 0 ==> (r matches Err(UnivError::IncompleteData { expected, actual })
                && expected == 1 && actual == 0),
            data@.len() > 0 ==> match container_parse(data@) {
                Some(c) => r matches Ok(x) && x@ == c,
                None => r is Err,
            },
    {
        if data.len() == 0 {
            return Err(UnivError::IncompleteData { expected: 1, actual: 0 });
        }
        let shared_buffer = arc_from_slice(data);
        let (header, header_size) = Header::deserialize(data)?;
        let ghost hl = header_size as nat;
        let mut offset = header_size;
        let mut chunks: Vec<Chunk> = Vec::new();
        let data_len = data.len();
        assert(chunk_views(chunks@) =~= Seq::<ChunkView>::empty());
        while frame_starts_at_exec(data, offset)
            invariant
                data_len == data@.len(),
                hl <= offset <= data@.len(),
                (*shared_buffer)@ == data@,
                forall|j: int|
                    0 <= j < chunks@.len() ==> (#[trigger] chunks@[j]).payload.shared_from(data@),
                header_parse(data@) matches Some((h, n)) && n == hl,
                !container_frames_whole(data@) ==> chunks_parse_cut(data@, offset as nat),
                chunks_parse(data@, hl) == match chunks_parse(data@, offset as nat) {
                    None => None,
                    Some((cs, end)) => Some((chunk_views(chunks@) + cs, end)),
                },
            decreases data@.len() - offset,
        {
            let buffer = crate::chunk::arc_bytes_clone(&shared_buffer);
            assert((*buffer)@ == data@);
            let (chunk, chunk_size) = Chunk::deserialize_zero_copy(buffer, offset)?;
            proof {
                crate::chunk::lemma_chunk_frame_total_bound(data@.skip(offset as int));
                lemma_chunks_parse_step(data@, offset as nat);
            }
            let ghost before = chunks@;
            chunks.push(chunk);
            assert(chunk_views(chunks@) =~= chunk_views(before).push(chunk@));
            proof {
                let c = chunk@;
                let rest = chunks_parse(data@, (offset + chunk_size) as nat);
                if let Some((cs, end)) = rest {
                    assert(chunk_views(before) + (seq![c] + cs) =~= chunk_views(chunks@) + cs);
                }
            }
            offset = offset + chunk_size;
        }
        let toc = if offset < data.len() {
            let remaining = &data[offset..data.len()];
            assert(remaining@ =~= data@.skip(offset as int));
            match Toc::deserialize(remaining) {
                Ok(t) => Some(t),
                Err(_) => None,
            }
        } else {
            None
        };
        proof {
            assert(chunk_views(chunks@) + Seq::<ChunkView>::empty() =~= chunk_views(chunks@));
        }
        Ok(Container { header, chunks, toc })
    }

    /// Parses a container quickly: the zero-copy parse, chunk contents not verified.
    pub fn deserialize_fast(data: &[u8]) -> (r: Result<Self>)
        ensures
            r matches Ok(x) ==> forall|i: int|
                0 <= i < x.chunks@.len() ==> (#[trigger] x.chunks@[i]).payload.shared_from(data@),
            !container_frames_whole(data@) ==> r matches Err(UnivError::IncompleteData { .. }),
            data@.len() == 0 ==> r is Err,
            data@.len() > 0 ==> match container_parse(data@) {
                Some(c) => r matches Ok(x) && x@ == c,
                None => r is Err,
            },
    {
        Self::deserialize_zero_copy(data)
    }

    /// Appends a chunk.
    pub fn add_chunk(&mut self, chunk: Chunk)
        ensures
            final(self)@ == (ContainerView { chunks: old(self)@.chunks.push(chunk@), ..old(self)@ }),
    {
        let ghost c = chunk@;
        self.chunks.push(chunk);
        assert(chunk_views(self.chunks@) =~= chunk_views(old(self).chunks@).push(c));
    }

    /// Builds a chunk from raw data and appends it; gives its index.
    pub fn add_data(
        &mut self,
        kind: ChunkKind,
        data: &[u8],
        codec: Codec,
        transform_flags: u16,
        hash_algorithm: u8,
    ) -> (r: Result<usize>)
        ensures
            match chunk_new_spec(kind, data@, codec, transform_flags, hash_algorithm, None) {
                Some(c) => r == Ok::<usize, UnivError>(old(self).chunks@.len() as usize)
                    && final(self)@ == (ContainerView {
                    chunks: old(self)@.chunks.push(c),
                    ..old(self)@
                }),
                None => r is Err && final(self)@ == old(self)@,
            },
            r is Ok ==> final(self)@.chunks.last().content_hash.len() <= 32,
    {
        let chunk = Chunk::new(kind, data, codec, transform_flags, hash_algorithm)?;
        let index = self.chunks.len();
        self.add_chunk(chunk);
        Ok(index)
    }

    /// Appends raw data with the default settings: no compression under 1024 bytes and
    /// Zstandard from there, no transforms, BLAKE3.
    pub fn add_data_simple(&mut self, kind: ChunkKind, data: &[u8]) -> (r: Result<usize>)
        ensures
            ({
                let codec = if data@.len() < 1024 {
                    Codec::NoCompression
                } else {
                    Codec::Zstd
                };
                match chunk_new_spec(kind, data@, codec, 0, hash_algorithms::BLAKE3, None) {
                    Some(c) => r == Ok::<usize, UnivError>(old(self).chunks@.len() as usize)
                        && final(self)@ == (ContainerView {
                        chunks: old(self)@.chunks.push(c),
                        ..old(self)@
                    }),
                    None => r is Err && final(self)@ == old(self)@,
                }
            }),
    {
        let codec = if data.len() < 1024 {
            Codec::NoCompression
        } else {
            Codec::Zstd
        };
        self.add_data(kind, data, codec, 0, hash_algorithms::BLAKE3)
    }

    /// Number of chunks.
    pub fn chunk_count(&self) -> (r: usize)
        ensures
            r == self@.chunks.len(),
    {
        self.chunks.len()
    }

    /// The chunk at `index`.
    pub fn get_chunk(&self, index: usize) -> (r: Option<&Chunk>)
        ensures
            match r {
                Some(c) => index < self@.chunks.len() && c@ == self@.chunks[index as int],
                None => index >= self@.chunks.len(),
            },
    {
        if index < self.chunks.len() {
            Some(&self.chunks[index])
        } else {
            None
        }
    }

    /// Sets the table of contents.
    pub fn set_toc(&mut self, toc: Toc)
        ensures
            final(self)@ == (ContainerView { toc: Some(toc@), ..old(self)@ }),
    {
        self.toc = Some(toc);
    }

    /// Estimated serialized size.
    pub fn estimated_size(&self) -> (r: usize)
        requires
            container_estimated_size(self@) <= usize::MAX,
        ensures
            r == container_estimated_size(self@),
    {
        proof {
            lemma_prefix_le(
                self@.chunks,
                0,
                |t: Seq<ChunkView>| chunks_estimated_size(t),
            );
        }
        let header_size = self.header.estimated_size();
        let mut chunks_size: usize = 0;
        let mut i: usize = 0;
        let ghost cs = self@.chunks;
        assert(cs.take(0) =~= Seq::<ChunkView>::empty());
        while i < self.chunks.len()
            invariant
                i <= self.chunks@.len(),
                cs == self@.chunks,
                cs.len() == self.chunks@.len(),
                chunks_size == chunks_estimated_size(cs.take(i as int)),
                header_size + chunks_estimated_size(cs) <= usize::MAX,
            decreases self.chunks@.len() - i,
        {
            proof {
                lemma_prefix_le(cs, i + 1, |t: Seq<ChunkView>| chunks_estimated_size(t));
                assert(cs.take(i + 1).drop_last() =~= cs.take(i as int));
                assert(cs.take(i + 1).last() == self.chunks@[i as int]@);
            }
            chunks_size = chunks_size + self.chunks[i].estimated_serialized_size();
            i += 1;
        }
        assert(cs.take(i as int) =~= cs);
        let toc_size: usize = match &self.toc {
            Some(_) => 1024,
            None => 0,
        };
        header_size + chunks_size + toc_size
    }

    /// Verifies every chunk, in parallel or one after another: in parallel a chunk passes
    /// when its payload decompresses and hashes right; in series when its raw data comes back.
    pub fn verify(&self, parallel: bool) -> (r: Result<()>)
        ensures
            parallel ==> (r is Ok <==> forall|i: int|
                0 <= i < self@.chunks.len() ==> chunk_verify_ok(#[trigger] self@.chunks[i])),
            !parallel ==> (r is Ok <==> forall|i: int|
                0 <= i < self@.chunks.len() ==> (#[trigger] chunk_raw_data(self@.chunks[i])) is Some),
    {
        if parallel {
            let r = crate::chunk::parallel::verify_chunks_parallel(self.chunks.as_slice());
            proof {
                let a = forall|i: int|
                    0 <= i < self.chunks@.len() ==> chunk_verify_ok(#[trigger] self.chunks@[i]@);
                let b = forall|i: int|
                    0 <= i < self@.chunks.len() ==> chunk_verify_ok(#[trigger] self@.chunks[i]);
                if a {
                    assert forall|i: int| 0 <= i < self@.chunks.len() implies chunk_verify_ok(
                        #[trigger] self@.chunks[i],
                    ) by {
                        assert(self@.chunks[i] == self.chunks@[i]@);
                    }
                }
                if b {
                    assert forall|i: int| 0 <= i < self.chunks@.len() implies chunk_verify_ok(
                        #[trigger] self.chunks@[i]@,
                    ) by {
                        assert(self@.chunks[i] == self.chunks@[i]@);
                    }
                }
                assert(a == b);
            }
            r
        } else {
            let mut i: usize = 0;
            while i < self.chunks.len()
                invariant
                    !parallel,
                    i <= self.chunks@.len(),
                    forall|j: int| 0 <= j < i ==> (#[trigger] chunk_raw_data(self@.chunks[j])) is Some,
                decreases self.chunks@.len() - i,
            {
                match self.chunks[i].verify_traditional() {
                    Ok(()) => {},
                    Err(e) => {
                        assert(chunk_raw_data(self@.chunks[i as int]) is None);
                        return Err(e);
                    },
                }
                i += 1;
            }
            Ok(())
        }
    }

    /// Verifies every chunk in parallel.
    pub fn verify_parallel(&self) -> (r: Result<()>)
        ensures
            r is Ok <==> forall|i: int|
                0 <= i < self@.chunks.len() ==> chunk_verify_ok(#[trigger] self@.chunks[i]),
    {
        self.verify(true)
    }

    /// Verifies every chunk one after another by recovering its raw data.
    pub fn verify_serial(&self) -> (r: Result<()>)
        ensures
            r is Ok <==> forall|i: int|
                0 <= i < self@.chunks.len() ==> (#[trigger] chunk_raw_data(self@.chunks[i])) is Some,
    {
        self.verify(false)
    }

    /// Counts and size totals of the chunks.
    pub fn get_processing_stats(&self) -> (r: ProcessingStats)
        requires
            total_raw(self@.chunks) <= u64::MAX,
            total_compressed(self@.chunks) <= u64::MAX,
        ensures
            r.total_chunks == self@.chunks.len(),
            r.small_chunks == crate::chunk::parallel::small_count(self@.chunks),
            r.large_chunks == self@.chunks.len() - crate::chunk::parallel::small_count(self@.chunks),
            r.total_raw_size == total_raw(self@.chunks),
            r.total_compressed_size == total_compressed(self@.chunks),
    {
        crate::chunk::parallel::get_processing_stats(self.chunks.as_slice())
    }
}


impl Container {
    /// Memory held against the file size: owned and shared payload bytes, the sum of the raw
    /// sizes, and the size of the container and chunk structures.
    pub fn get_memory_stats(&self, original_file_size: usize) -> (r: MemoryStats)
        requires
            total_raw(self@.chunks) <= usize::MAX,
            payload_total(self.chunks@, false) <= usize::MAX,
            payload_total(self.chunks@, true) <= usize::MAX,
            vstd::layout::size_of::<Container>() + self.chunks@.len() * vstd::layout::size_of::<
                Chunk,
            >() <= usize::MAX,
        ensures
            r.original_file_size == original_file_size,
            r.owned_payload_size == payload_total(self.chunks@, false),
            r.shared_payload_size == payload_total(self.chunks@, true),
            r.total_raw_capacity == total_raw(self@.chunks),
            r.metadata_size == vstd::layout::size_of::<Container>() + self.chunks@.len()
                * vstd::layout::size_of::<Chunk>(),
    {
        let mut owned_payload_size: usize = 0;
        let mut shared_payload_size: usize = 0;
        let mut total_raw_size: usize = 0;
        let mut i: usize = 0;
        let ghost cs = self.chunks@;
        proof {
            lemma_prefix_le(cs, 0, |t: Seq<Chunk>| payload_total(t, false));
        }
        assert(cs.take(0) =~= Seq::<Chunk>::empty());
        assert(chunk_views(cs).take(0) =~= Seq::<ChunkView>::empty());
        while i < self.chunks.len()
            invariant
                i <= cs.len(),
                cs == self.chunks@,
                owned_payload_size == payload_total(cs.take(i as int), false),
                shared_payload_size == payload_total(cs.take(i as int), true),
                total_raw_size == total_raw(chunk_views(cs).take(i as int)),
                total_raw(chunk_views(cs)) <= usize::MAX,
                payload_total(cs, false) <= usize::MAX,
                payload_total(cs, true) <= usize::MAX,
            decreases cs.len() - i,
        {
            proof {
                lemma_prefix_le(cs, i + 1, |t: Seq<Chunk>| payload_total(t, false));
                lemma_prefix_le(cs, i + 1, |t: Seq<Chunk>| payload_total(t, true));
                lemma_prefix_le(chunk_views(cs), i + 1, |t: Seq<ChunkView>| total_raw(t));
                assert(cs.take(i + 1).drop_last() =~= cs.take(i as int));
                assert(chunk_views(cs).take(i + 1).drop_last() =~= chunk_views(cs).take(i as int));
                assert(chunk_views(cs).take(i + 1).last() == cs[i as int]@);
            }
            total_raw_size = total_raw_size + self.chunks[i].raw_size as usize;
            match &self.chunks[i].payload {
                ChunkPayload::Owned(_) => {
                    owned_payload_size = owned_payload_size + self.chunks[i].payload.len();
                },
                ChunkPayload::Shared(buffer) => {
                    shared_payload_size = shared_payload_size + buffer.len();
                },
            }
            i += 1;
        }
        assert(cs.take(i as int) =~= cs);
        assert(chunk_views(cs).take(i as int) =~= chunk_views(cs));
        let metadata_size = std::mem::size_of::<Container>() + self.chunks.len() * std::mem::size_of::<
            Chunk,
        >();
        MemoryStats {
            original_file_size,
            owned_payload_size,
            shared_payload_size,
            total_raw_capacity: total_raw_size,
            metadata_size,
        }
    }
}

} // verus!
