//! Decisions behind the command-line tool: the codec and transform names it accepts, the
//! profile constraint on chunk kinds that strict verification applies, the pass that
//! recompresses every chunk of a container, and the containers that the data and type
//! commands build from file contents.

use vstd::prelude::*;
use vstd::string::*;
use crate::cbor::cbor_read;
use crate::chunk::{chunk_decodes_to, chunk_new_spec, recompressed, ChunkKind, ChunkView, Codec, CompressionStats};
use crate::chunk::parallel::{chunk_views, total_compressed};
use crate::constants::{hash_algorithms, header_ext_types, transform_flags};
use crate::container::{chunk_frame_ok, Container, ContainerView};
use crate::error::{Result, UnivError};
use crate::header::{ExtensionView, HeaderExtension, HeaderView};
use crate::profile::Profile;
use crate::util::text::str_eq;

verus! {

/// The codec a name selects: `none`, `zstd`, `lz4` or `deflate`; any other name selects
/// Zstandard.
pub open spec fn codec_named(name: Seq<char>) -> Codec {
    if name == "none"@ {
        Codec::NoCompression
    } else if name == "lz4"@ {
        Codec::Lz4
    } else if name == "deflate"@ {
        Codec::Deflate
    } else {
        Codec::Zstd
    }
}

/// The codec a name selects.
pub fn codec_from_name(name: &str) -> (r: Codec)
    ensures
        r == codec_named(name@),
{
    if str_eq(name, "none") {
        Codec::NoCompression
    } else if str_eq(name, "lz4") {
        Codec::Lz4
    } else if str_eq(name, "deflate") {
        Codec::Deflate
    } else {
        Codec::Zstd
    }
}

/// The transform flag a name selects: `dict-string`, `integer-varint`, `delta`,
/// `columnarize` or `gorilla`; no flag for any other name.
pub open spec fn transform_named(name: Seq<char>) -> Option<u16> {
    if name == "dict-string"@ {
        Some(transform_flags::DICT_STRING)
    } else if name == "integer-varint"@ {
        Some(transform_flags::INTEGER_VARINT)
    } else if name == "delta"@ {
        Some(transform_flags::DELTA)
    } else if name == "columnarize"@ {
        Some(transform_flags::COLUMNARIZE)
    } else if name == "gorilla"@ {
        Some(transform_flags::GORILLA)
    } else {
        None
    }
}

/// The transform flag a name selects.
pub fn transform_flag_from_name(name: &str) -> (r: Option<u16>)
    ensures
        r == transform_named(name@),
{
    if str_eq(name, "dict-string") {
        Some(transform_flags::DICT_STRING)
    } else if str_eq(name, "integer-varint") {
        Some(transform_flags::INTEGER_VARINT)
    } else if str_eq(name, "delta") {
        Some(transform_flags::DELTA)
    } else if str_eq(name, "columnarize") {
        Some(transform_flags::COLUMNARIZE)
    } else if str_eq(name, "gorilla") {
        Some(transform_flags::GORILLA)
    } else {
        None
    }
}

/// Whether the container's profile supports the kind of chunk `i`.
pub open spec fn chunk_kind_allowed(c: Container, i: int) -> bool {
    c.header.profile.spec_supported_chunk_kinds().contains(c.chunks@[i].kind.spec_to_u8())
}

/// The first chunk whose kind the container's profile does not support.
pub fn first_unsupported_chunk(container: &Container) -> (r: Option<usize>)
    ensures
        match r {
            Some(i) => i < container.chunks@.len() && !chunk_kind_allowed(*container, i as int)
                && forall|j: int| 0 <= j < i ==> chunk_kind_allowed(*container, j),
            None => forall|j: int| 0 <= j < container.chunks@.len() ==> chunk_kind_allowed(*container, j),
        },
{
    let mut i: usize = 0;
    while i < container.chunks.len()
        invariant
            i <= container.chunks@.len(),
            forall|j: int| 0 <= j < i ==> chunk_kind_allowed(*container, j),
        decreases container.chunks@.len() - i,
    {
        let code = container.chunks[i].kind.to_u8();
        if !container.header.profile.supports_chunk_kind(code) {
            return Some(i);
        }
        i += 1;
    }
    None
}

/// What recompressing every chunk of a container came to.
pub struct RecompressReport {
    /// The outcome for each chunk, in order.
    pub outcomes: Vec<Result<CompressionStats>>,
    /// Chunks whose payload shrank.
    pub optimized_chunks: usize,
    /// Sum of the payload sizes before.
    pub original_total: u64,
    /// Sum of the payload sizes after; a chunk whose data could not be read keeps its size.
    pub final_total: u64,
    /// Sum of the bytes saved.
    pub improvement_total: u64,
}

/// Sum of the payload sizes after recompressing the first `n` chunks of `before`.
pub open spec fn final_total(
    before: Seq<crate::chunk::ChunkView>,
    outcomes: Seq<Result<CompressionStats>>,
    n: int,
) -> int
    decreases n,
{
    if n <= 0 {
        0
    } else {
        final_total(before, outcomes, n - 1) + match outcomes[n - 1] {
            Ok(stats) => stats.final_size as int,
            Err(_) => before[n - 1].compressed_size as int,
        }
    }
}

/// Bytes saved over the first `n` outcomes.
pub open spec fn improvement_total(outcomes: Seq<Result<CompressionStats>>, n: int) -> int
    decreases n,
{
    if n <= 0 {
        0
    } else {
        improvement_total(outcomes, n - 1) + match outcomes[n - 1] {
            Ok(stats) => stats.improvement_bytes as int,
            Err(_) => 0,
        }
    }
}

/// Number of the first `n` outcomes that saved bytes.
pub open spec fn optimized_count(outcomes: Seq<Result<CompressionStats>>, n: int) -> int
    decreases n,
{
    if n <= 0 {
        0
    } else {
        optimized_count(outcomes, n - 1) + if outcomes[n - 1] matches Ok(stats)
            && stats.improvement_bytes > 0 {
            1int
        } else {
            0int
        }
    }
}

/// Recompresses every chunk in turn with `Chunk::try_recompress`, keeping a smaller payload
/// where it saves at least `min_improvement` bytes, and sums up what it did.
pub fn recompress_chunks(container: &mut Container, min_improvement: u32) -> (r: RecompressReport)
    requires
        old(container).chunks@.len() <= u32::MAX,
    ensures
        final(container).header == old(container).header,
        final(container).toc == old(container).toc,
        final(container).chunks@.len() == old(container).chunks@.len(),
        r.outcomes@.len() == old(container).chunks@.len(),
        forall|i: int|
            0 <= i < old(container).chunks@.len() ==> recompressed(
                #[trigger] old(container).chunks@[i],
                final(container).chunks@[i],
                r.outcomes@[i],
                min_improvement,
            ),
        forall|i: int|
            0 <= i < old(container)@.chunks.len() && chunk_frame_ok(old(container)@.chunks[i])
                && (#[trigger] final(container)@.chunks[i]).payload.len() <= u32::MAX ==> chunk_frame_ok(
                final(container)@.chunks[i],
            ),
        r.original_total == total_compressed(old(container)@.chunks),
        r.final_total == final_total(old(container)@.chunks, r.outcomes@, r.outcomes@.len() as int),
        r.improvement_total == improvement_total(r.outcomes@, r.outcomes@.len() as int),
        r.optimized_chunks == optimized_count(r.outcomes@, r.outcomes@.len() as int),
{
    let ghost before = container.chunks@;
    let ghost views = chunk_views(before);
    let n = container.chunks.len();
    let mut outcomes: Vec<Result<CompressionStats>> = Vec::new();
    let mut optimized_chunks: usize = 0;
    let mut original_total: u64 = 0;
    let mut final_sum: u64 = 0;
    let mut improvement_sum: u64 = 0;
    let mut i: usize = 0;
    assert(views.take(0) =~= Seq::<crate::chunk::ChunkView>::empty());
    while i < n
        invariant
            n == before.len(),
            n <= u32::MAX,
            views == chunk_views(before),
            i <= n,
            container.header == old(container).header,
            container.toc == old(container).toc,
            container.chunks@.len() == n,
            forall|j: int| i <= j < n ==> container.chunks@[j] == before[j],
            outcomes@.len() == i,
            forall|j: int|
                0 <= j < i ==> recompressed(
                    #[trigger] before[j],
                    container.chunks@[j],
                    outcomes@[j],
                    min_improvement,
                ),
            original_total == total_compressed(views.take(i as int)),
            original_total <= i * 0xffff_ffff,
            final_sum == final_total(views, outcomes@, i as int),
            final_sum <= i * 0xffff_ffff,
            improvement_sum == improvement_total(outcomes@, i as int),
            improvement_sum <= i * 0xffff_ffff,
            optimized_chunks == optimized_count(outcomes@, i as int),
            optimized_chunks <= i,
        decreases n - i,
    {
        let size_before = container.chunks[i].compressed_size;
        let outcome = container.chunks[i].try_recompress(min_improvement);
        proof {
            assert(views.take(i + 1).drop_last() =~= views.take(i as int));
            assert(views[i as int] == before[i as int]@);
            assert((i + 1) * 0xffff_ffff == i * 0xffff_ffff + 0xffff_ffff) by (nonlinear_arith);
            assert((i + 1) * 0xffff_ffff <= 0xffff_ffff * 0xffff_ffff) by (nonlinear_arith)
                requires
                    i + 1 <= 0xffff_ffff,
            ;
        }
        original_total = original_total + size_before as u64;
        match &outcome {
            Ok(stats) => {
                final_sum = final_sum + stats.final_size as u64;
                improvement_sum = improvement_sum + stats.improvement_bytes as u64;
                if stats.improvement_bytes > 0 {
                    optimized_chunks = optimized_chunks + 1;
                }
            },
            Err(_) => {
                final_sum = final_sum + size_before as u64;
            },
        }
        let ghost prev = outcomes@;
        outcomes.push(outcome);
        proof {
            assert(outcomes@.take(i as int) =~= prev);
            lemma_totals_prefix(views, prev, outcomes@, i as int);
        }
        i += 1;
    }
    assert(views.take(n as int) =~= views);
    RecompressReport {
        outcomes,
        optimized_chunks,
        original_total,
        final_total: final_sum,
        improvement_total: improvement_sum,
    }
}

/// Law: a container read from bytes `b` and recompressed (as `recompress_chunks` leaves it),
/// then written (`Container::serialize`) to `o`, reads back from `o` as the recompressed
/// container: the same header, table of contents and number of chunks, every chunk taking no
/// more bytes than before and giving back the raw data the chunk it replaces gave, either as
/// its checked raw data or by decoding to it (for both, `Chunk::get_raw_data` returns that
/// data). It holds when every recompressed payload fits the 32-bit size field.
pub proof fn lemma_optimized_container_reads_back(
    b: Seq<u8>,
    before: Container,
    after: Container,
    outcomes: Seq<Result<CompressionStats>>,
    min_improvement: u32,
    o: Seq<u8>,
)
    requires
        crate::container::container_parse(b) == Some(before@),
        after.header == before.header,
        after.toc == before.toc,
        after.chunks@.len() == before.chunks@.len(),
        outcomes.len() == before.chunks@.len(),
        forall|i: int|
            0 <= i < before.chunks@.len() ==> recompressed(
                #[trigger] before.chunks@[i],
                after.chunks@[i],
                outcomes[i],
                min_improvement,
            ),
        forall|i: int| 0 <= i < after@.chunks.len() ==> (#[trigger] after@.chunks[i]).payload.len() <= u32::MAX,
        crate::container::container_bytes_ok(after@, o),
    ensures
        crate::container::container_parse(o) == Some(after@),
        after@.header == before@.header,
        after@.toc == before@.toc,
        after@.chunks.len() == before@.chunks.len(),
        forall|i: int|
            0 <= i < before@.chunks.len() ==> {
                &&& (#[trigger] after@.chunks[i]).compressed_size <= before@.chunks[i].compressed_size
                &&& crate::chunk::chunk_raw_data(before@.chunks[i]) matches Some(raw) ==> (
                    crate::chunk::chunk_raw_data(after@.chunks[i]) == Some(raw)
                        || crate::chunk::chunk_decodes_to(after@.chunks[i], raw))
            },
{
    let c = before@;
    let a = after@;
    crate::header::lemma_parsed_header_writes_back(b);
    let (h, hl) = crate::header::header_parse(b).unwrap();
    crate::container::lemma_parsed_chunks_ok(b, hl);
    assert forall|i: int| 0 <= i < a.chunks.len() implies chunk_frame_ok(#[trigger] a.chunks[i])
        && a.chunks[i].compressed_size <= c.chunks[i].compressed_size && (
        crate::chunk::chunk_raw_data(c.chunks[i]) matches Some(raw) ==> (
            crate::chunk::chunk_raw_data(a.chunks[i]) == Some(raw) || crate::chunk::chunk_decodes_to(
                a.chunks[i],
                raw,
            ))) by {
        assert(a.chunks[i] == after.chunks@[i]@);
        assert(c.chunks[i] == before.chunks@[i]@);
        assert(recompressed(before.chunks@[i], after.chunks@[i], outcomes[i], min_improvement));
        assert(chunk_frame_ok(c.chunks[i]));
    }
    crate::container::lemma_serialized_container_reads_back(a, o);
}

/// The totals over the first `n` outcomes depend on those outcomes alone.
proof fn lemma_totals_prefix(
    views: Seq<crate::chunk::ChunkView>,
    a: Seq<Result<CompressionStats>>,
    b: Seq<Result<CompressionStats>>,
    n: int,
)
    requires
        0 <= n <= a.len(),
        n <= b.len(),
        forall|j: int| 0 <= j < n ==> a[j] == b[j],
    ensures
        final_total(views, a, n) == final_total(views, b, n),
        improvement_total(a, n) == improvement_total(b, n),
        optimized_count(a, n) == optimized_count(b, n),
    decreases n,
{
    if n > 0 {
        lemma_totals_prefix(views, a, b, n - 1);
    }
}

/// Format of the files that the data commands pack.
#[derive(Debug, Clone, Copy)]
pub enum DataFormat {
    /// One JSON value per file.
    Json,
    /// One JSON value per line.
    JsonLines,
    /// Comma- or tab-separated text.
    Csv,
    /// One CBOR data item per file.
    Cbor,
}

/// Whether `serde_json::from_slice` reads the bytes as a JSON value.
pub uninterp spec fn json_bytes_accepted(data: Seq<u8>) -> bool;

/// Whether `serde_json::from_str` reads the text as a JSON value.
pub uninterp spec fn json_text_accepted(text: Seq<char>) -> bool;

/// Whether a character has the Unicode `White_Space` property, which `char::is_whitespace`
/// tests: tab to carriage return, space, next line, no-break space, ogham space mark, the
/// spaces from en quad to hair space, line and paragraph separators, narrow no-break space,
/// medium mathematical space and ideographic space.
pub open spec fn unicode_white_space(c: char) -> bool {
    let v = c as u32;
    (0x09 <= v <= 0x0d) || v == 0x20 || v == 0x85 || v == 0xa0 || v == 0x1680 || (0x2000 <= v
        <= 0x200a) || v == 0x2028 || v == 0x2029 || v == 0x202f || v == 0x205f || v == 0x3000
}

/// Result of writing a JSON object through `serde_json::to_vec`: the text members and the
/// members holding an empty array, keys in `serde_json::Map` order.
pub uninterp spec fn json_object_encoding(texts: Seq<(Seq<char>, Seq<char>)>, empty_lists: Seq<Seq<char>>) -> Option<Seq<u8>>;

/// Result of writing a JSON object through `serde_json::to_vec_pretty`: the text members and
/// the number members, keys in `serde_json::Map` order.
pub uninterp spec fn json_pretty_encoding(texts: Seq<(Seq<char>, Seq<char>)>, numbers: Seq<(Seq<char>, u64)>) -> Option<Seq<u8>>;

/// Writes a JSON object through `serde_json::to_vec_pretty`: a `serde_json::Map` with each
/// text member as a string and each number member as a number. Claims the named result.
#[verifier::external_body]
fn json_pretty_object_bytes(texts: &Vec<(String, String)>, numbers: &Vec<(String, u64)>) -> (r: Option<Vec<u8>>)
    ensures
        match json_pretty_encoding(
            texts@.map_values(|e: (String, String)| (e.0@, e.1@)),
            numbers@.map_values(|e: (String, u64)| (e.0@, e.1)),
        ) {
            Some(b) => r matches Some(x) && x@ == b,
            None => r is None,
        },
{
    let map: serde_json::Map<String, serde_json::Value> = texts
        .iter()
        .map(|(k, v)| (k.clone(), serde_json::Value::String(v.clone())))
        .chain(numbers.iter().map(|(k, n)| (k.clone(), serde_json::Value::from(*n))))
        .collect();
    serde_json::to_vec_pretty(&serde_json::Value::Object(map)).ok()
}

/// Reads the bytes as a JSON value through `serde_json::from_slice`, the value dropped:
/// `None` on success, else the error's text. Claims success exactly where the named result
/// says so.
#[verifier::external_body]
fn json_check_bytes(data: &[u8]) -> (r: Option<String>)
    ensures
        r is None <==> json_bytes_accepted(data@),
{
    match serde_json::from_slice::<serde_json::Value>(data) {
        Ok(_) => None,
        Err(e) => Some(e.to_string()),
    }
}

/// Reads the text as a JSON value through `serde_json::from_str`, the value dropped: `None`
/// on success, else the error's text. Claims success exactly where the named result says so.
#[verifier::external_body]
fn json_check_text(text: &str) -> (r: Option<String>)
    ensures
        r is None <==> json_text_accepted(text@),
{
    match serde_json::from_str::<serde_json::Value>(text) {
        Ok(_) => None,
        Err(e) => Some(e.to_string()),
    }
}

/// Whether `c` is white space in Unicode, as `char::is_whitespace` answers.
fn char_is_whitespace(c: char) -> (r: bool)
    ensures
        r == unicode_white_space(c),
{
    let v = c as u32;
    (0x09 <= v && v <= 0x0d) || v == 0x20 || v == 0x85 || v == 0xa0 || v == 0x1680 || (0x2000 <= v
        && v <= 0x200a) || v == 0x2028 || v == 0x2029 || v == 0x202f || v == 0x205f || v == 0x3000
}

/// Writes a JSON object through `serde_json::to_vec`: a `serde_json::Map` with each text
/// member as a string and each listed key as an empty array. Claims the named result.
#[verifier::external_body]
fn json_object_bytes(texts: &Vec<(String, String)>, empty_lists: &Vec<String>) -> (r: Option<Vec<u8>>)
    ensures
        match json_object_encoding(
            texts@.map_values(|e: (String, String)| (e.0@, e.1@)),
            empty_lists@.map_values(|k: String| k@),
        ) {
            Some(b) => r matches Some(x) && x@ == b,
            None => r is None,
        },
{
    let map: serde_json::Map<String, serde_json::Value> = texts
        .iter()
        .map(|(k, v)| (k.clone(), serde_json::Value::String(v.clone())))
        .chain(empty_lists.iter().map(|k| (k.clone(), serde_json::Value::Array(Vec::new()))))
        .collect();
    serde_json::to_vec(&serde_json::Value::Object(map)).ok()
}

/// The error for input that JSON does not accept.
fn json_error_from(text: String) -> (r: UnivError)
    ensures
        r is DeserializationError,
{
    let mut reason = String::from_str("JSON 处理错误: ");
    reason.append(text.as_str());
    UnivError::DeserializationError { reason }
}

/// A line with its line feed removed, and a carriage return before it.
pub open spec fn strip_cr(s: Seq<char>) -> Seq<char> {
    if s.len() > 0 && s.last() == '\r' {
        s.drop_last()
    } else {
        s
    }
}

/// A line holds only white space.
pub open spec fn blank_line(s: Seq<char>) -> bool {
    forall|i: int| 0 <= i < s.len() ==> unicode_white_space(#[trigger] s[i])
}

/// A line is blank or a JSON value.
pub open spec fn json_line_ok(s: Seq<char>) -> bool {
    blank_line(s) || json_text_accepted(s)
}

/// Whether the lines of `t` (split at line feeds, a carriage return before a line feed
/// dropped, no empty line after a final line feed) from the line starting at `start`, with
/// `i` the position reached, are each blank or a JSON value.
pub open spec fn json_lines_from(t: Seq<char>, start: int, i: int) -> bool
    decreases t.len() - i,
{
    if i >= t.len() {
        start < t.len() ==> json_line_ok(t.subrange(start, t.len() as int))
    } else if t[i] == '\n' {
        json_line_ok(strip_cr(t.subrange(start, i))) && json_lines_from(t, i + 1, i + 1)
    } else {
        json_lines_from(t, start, i + 1)
    }
}

/// Every line of the text is blank or a JSON value.
pub open spec fn json_lines_ok(t: Seq<char>) -> bool {
    json_lines_from(t, 0, 0)
}

/// Checks one line: blank, or a JSON value.
fn check_json_line(line: &str) -> (r: Result<()>)
    ensures
        r is Ok <==> json_line_ok(line@),
        r is Err ==> r matches Err(UnivError::DeserializationError { .. }),
{
    let n = line.unicode_len();
    let mut i: usize = 0;
    let mut blank = true;
    while i < n
        invariant
            n == line@.len(),
            i <= n,
            blank <==> forall|j: int| 0 <= j < i ==> unicode_white_space(#[trigger] line@[j]),
        decreases n - i,
    {
        if !char_is_whitespace(line.get_char(i)) {
            blank = false;
        }
        i += 1;
    }
    if blank {
        return Ok(());
    }
    match json_check_text(line) {
        None => Ok(()),
        Some(text) => Err(json_error_from(text)),
    }
}

/// Checks every line of the text: blank, or a JSON value.
fn check_json_lines(text: &str) -> (r: Result<()>)
    ensures
        r is Ok <==> json_lines_ok(text@),
        r is Err ==> r matches Err(UnivError::DeserializationError { .. }),
{
    let n = text.unicode_len();
    let mut start: usize = 0;
    let mut i: usize = 0;
    while i < n
        invariant
            n == text@.len(),
            start <= i <= n,
            json_lines_ok(text@) == json_lines_from(text@, start as int, i as int),
        decreases n - i,
    {
        if text.get_char(i) == '\n' {
            let end = if i > start && text.get_char(i - 1) == '\r' {
                i - 1
            } else {
                i
            };
            let line = text.substring_char(start, end);
            assert(line@ == strip_cr(text@.subrange(start as int, i as int)));
            check_json_line(line)?;
            start = i + 1;
        }
        i += 1;
    }
    if start < n {
        let line = text.substring_char(start, n);
        check_json_line(line)?;
    }
    Ok(())
}

/// Whether a file of the format passes the check the pack command makes: a JSON file reads
/// as JSON, a CBOR file as a CBOR item; JSON lines and CSV are taken as they are.
pub open spec fn pack_file_ok(format: DataFormat, f: Seq<u8>) -> bool {
    match format {
        DataFormat::Json => json_bytes_accepted(f),
        DataFormat::Cbor => crate::cbor::cbor_reading(f) is Some,
        _ => true,
    }
}

/// Whether a file of the format passes the check the import command makes: as for packing,
/// and JSON lines and CSV must be UTF-8, each line of JSON lines blank or a JSON value.
pub open spec fn import_file_ok(format: DataFormat, f: Seq<u8>) -> bool {
    match format {
        DataFormat::Json => json_bytes_accepted(f),
        DataFormat::Cbor => crate::cbor::cbor_reading(f) is Some,
        DataFormat::JsonLines => vstd::utf8::valid_utf8(f) && json_lines_ok(
            vstd::utf8::decode_utf8(f),
        ),
        DataFormat::Csv => vstd::utf8::valid_utf8(f),
    }
}

/// The chunks from position `from` on carry content hashes of at most 32 bytes.
pub open spec fn short_hashes_from(cs: Seq<ChunkView>, from: int) -> bool {
    forall|i: int| from <= i < cs.len() ==> (#[trigger] cs[i]).content_hash.len() <= 32
}

/// Chunks built by `chunk_new_spec` under a kind: that kind, a known codec, no schema
/// reference, and the payload's length (cut to 32 bits) as compressed size.
pub open spec fn built_chunks(cs: Seq<ChunkView>, kind: ChunkKind) -> bool {
    forall|i: int|
        0 <= i < cs.len() ==> {
            let c = #[trigger] cs[i];
            &&& c.kind == kind
            &&& !(c.codec is Unknown)
            &&& c.schema_ref is None
            &&& c.compressed_size == c.payload.len() as u32
        }
}

/// The chunks that `file_chunks` gives are built chunks of its kind.
pub proof fn lemma_file_chunks_built(kind: ChunkKind, files: Seq<Seq<u8>>, codec: Codec, flags: u16)
    ensures
        file_chunks(kind, files, codec, flags) matches Some(cs) ==> built_chunks(cs, kind),
    decreases files.len(),
{
    if files.len() > 0 {
        lemma_file_chunks_built(kind, files.drop_last(), codec, flags);
        if let Some(cs) = file_chunks(kind, files, codec, flags) {
            let prev = file_chunks(kind, files.drop_last(), codec, flags).unwrap();
            let c = chunk_new_spec(kind, files.last(), codec, flags, hash_algorithms::BLAKE3, None).unwrap();
            assert(cs == prev.push(c));
            assert forall|i: int| 0 <= i < cs.len() implies {
                let d = #[trigger] cs[i];
                &&& d.kind == kind
                &&& !(d.codec is Unknown)
                &&& d.schema_ref is None
                &&& d.compressed_size == d.payload.len() as u32
            } by {
                if i < prev.len() {
                    assert(cs[i] == prev[i]);
                }
            }
        }
    }
}

/// The chunks built from files, one per file, in order; `None` when a chunk cannot be built.
pub open spec fn file_chunks(
    kind: ChunkKind,
    files: Seq<Seq<u8>>,
    codec: Codec,
    flags: u16,
) -> Option<Seq<ChunkView>>
    decreases files.len(),
{
    if files.len() == 0 {
        Some(Seq::empty())
    } else {
        match (
            file_chunks(kind, files.drop_last(), codec, flags),
            chunk_new_spec(kind, files.last(), codec, flags, hash_algorithms::BLAKE3, None),
        ) {
            (Some(cs), Some(c)) => Some(cs.push(c)),
            _ => None,
        }
    }
}

/// The schema chunk, if there is a schema: its bytes under Zstandard without transforms.
pub open spec fn schema_chunks(schema: Option<Seq<u8>>) -> Option<Seq<ChunkView>> {
    match schema {
        None => Some(Seq::empty()),
        Some(s) => match chunk_new_spec(
            ChunkKind::Schema,
            s,
            Codec::Zstd,
            0,
            hash_algorithms::BLAKE3,
            None,
        ) {
            Some(c) => Some(seq![c]),
            None => None,
        },
    }
}

/// An empty container's header for a profile.
pub open spec fn fresh_header(profile: Profile) -> HeaderView {
    HeaderView {
        profile,
        major_version: 1,
        minor_version: 1,
        flags: 0,
        extensions: Map::empty(),
    }
}

/// The contents of the files.
pub open spec fn file_views(files: Seq<Vec<u8>>) -> Seq<Seq<u8>> {
    files.map_values(|f: Vec<u8>| f@)
}

/// Checks a file for packing.
fn check_pack_file(format: DataFormat, f: &[u8]) -> (r: Result<()>)
    ensures
        r is Ok <==> pack_file_ok(format, f@),
{
    match format {
        DataFormat::Json => match json_check_bytes(f) {
            None => Ok(()),
            Some(text) => Err(json_error_from(text)),
        },
        DataFormat::Cbor => match cbor_read(f) {
            Ok(_) => Ok(()),
            Err(e) => Err(UnivError::CborError(e)),
        },
        _ => Ok(()),
    }
}

/// Checks a file for importing.
fn check_import_file(format: DataFormat, f: &[u8]) -> (r: Result<()>)
    ensures
        r is Ok <==> import_file_ok(format, f@),
{
    match format {
        DataFormat::JsonLines => match crate::header::str_from_utf8(f) {
            Ok(text) => check_json_lines(text),
            Err(_) => Err(UnivError::deserialization_error("无效的 UTF-8 数据")),
        },
        DataFormat::Csv => match crate::header::str_from_utf8(f) {
            Ok(_) => Ok(()),
            Err(_) => Err(UnivError::deserialization_error("无效的 UTF-8 数据")),
        },
        _ => check_pack_file(format, f),
    }
}

/// Whether every file passes the check of the import command (when `import`) or of the
/// pack command.
pub open spec fn files_ok(files: Seq<Seq<u8>>, format: DataFormat, import: bool) -> bool {
    forall|i: int|
        0 <= i < files.len() ==> if import {
            import_file_ok(format, #[trigger] files[i])
        } else {
            pack_file_ok(format, files[i])
        }
}

/// Checks every file, in order, stopping at the first that fails.
fn check_files(files: &Vec<Vec<u8>>, format: DataFormat, import: bool) -> (r: Result<()>)
    ensures
        r is Ok <==> files_ok(file_views(files@), format, import),
{
    let ghost fs = file_views(files@);
    let mut i: usize = 0;
    while i < files.len()
        invariant
            i <= files@.len(),
            fs == file_views(files@),
            forall|j: int|
                0 <= j < i ==> if import {
                    import_file_ok(format, #[trigger] fs[j])
                } else {
                    pack_file_ok(format, fs[j])
                },
        decreases files@.len() - i,
    {
        let f = files[i].as_slice();
        assert(fs[i as int] == f@);
        if import {
            check_import_file(format, f)?;
        } else {
            check_pack_file(format, f)?;
        }
        i += 1;
    }
    Ok(())
}

/// Adds one chunk of the kind per file, in order, under the codec and transforms; stops at
/// the first chunk that cannot be built.
fn add_chunks(container: &mut Container, kind: ChunkKind, files: &Vec<Vec<u8>>, codec: Codec, flags: u16) -> (r: Result<()>)
    ensures
        r is Ok <==> file_chunks(kind, file_views(files@), codec, flags) is Some,
        r is Ok ==> final(container)@ == (ContainerView {
            chunks: old(container)@.chunks + file_chunks(kind, file_views(files@), codec, flags).unwrap(),
            ..old(container)@
        }),
        r is Ok ==> short_hashes_from(final(container)@.chunks, old(container)@.chunks.len() as int),
{
    let ghost fs = file_views(files@);
    let mut i: usize = 0;
    assert(fs.take(0) =~= Seq::<Seq<u8>>::empty());
    assert(old(container)@.chunks + Seq::<ChunkView>::empty() =~= old(container)@.chunks);
    while i < files.len()
        invariant
            i <= files@.len(),
            fs == file_views(files@),
            fs.len() == files@.len(),
            file_chunks(kind, fs.take(i as int), codec, flags) matches Some(cs) && container@ == (
            ContainerView { chunks: old(container)@.chunks + cs, ..old(container)@ }),
            short_hashes_from(container@.chunks, old(container)@.chunks.len() as int),
        decreases files@.len() - i,
    {
        let f = files[i].as_slice();
        assert(fs.take(i + 1).drop_last() =~= fs.take(i as int));
        assert(fs.take(i + 1).last() == f@);
        let ghost cs = file_chunks(kind, fs.take(i as int), codec, flags).unwrap();
        let ghost before = container@.chunks;
        let added = container.add_data(kind, f, codec, flags, hash_algorithms::BLAKE3);
        match added {
            Ok(_) => {
                assert(container@.chunks.drop_last() =~= before);
            },
            Err(e) => {
                proof {
                    lemma_file_chunks_none_from(fs, i + 1, kind, codec, flags);
                }
                return Err(e);
            },
        }
        proof {
            let c = chunk_new_spec(kind, f@, codec, flags, hash_algorithms::BLAKE3, None).unwrap();
            assert(old(container)@.chunks + cs.push(c) =~= (old(container)@.chunks + cs).push(c));
        }
        i += 1;
    }
    assert(fs.take(i as int) =~= fs);
    Ok(())
}

/// A failing chunk makes every longer prefix fail.
proof fn lemma_file_chunks_none_from(fs: Seq<Seq<u8>>, k: int, kind: ChunkKind, codec: Codec, flags: u16)
    requires
        0 <= k <= fs.len(),
        file_chunks(kind, fs.take(k), codec, flags) is None,
    ensures
        file_chunks(kind, fs, codec, flags) is None,
    decreases fs.len() - k,
{
    if k < fs.len() {
        assert(fs.take(k + 1).drop_last() =~= fs.take(k));
        lemma_file_chunks_none_from(fs, k + 1, kind, codec, flags);
    } else {
        assert(fs.take(k) =~= fs);
    }
}

/// The container that the data pack command writes: a container of the profile with one
/// `DataNode` chunk per file (each file checked for its format first) under the codec and
/// transforms, then the schema chunk when a schema is given.
pub fn pack_data(
    profile: Profile,
    files: Vec<Vec<u8>>,
    format: DataFormat,
    codec: Codec,
    transform_flags: u16,
    schema: Option<Vec<u8>>,
) -> (r: Result<Container>)
    ensures
        r is Ok <==> files_ok(file_views(files@), format, false) && file_chunks(ChunkKind::DataNode, file_views(files@), codec, transform_flags) is Some
            && schema_chunks(opt_vec(schema)) is Some,
        r matches Ok(x) ==> frames_ok_when_short(x@.chunks),
        r matches Ok(x) ==> x@ == (ContainerView {
            header: fresh_header(profile),
            chunks: file_chunks(ChunkKind::DataNode, file_views(files@), codec, transform_flags).unwrap()
                + schema_chunks(opt_vec(schema)).unwrap(),
            toc: None,
        }),
{
    check_files(&files, format, false)?;
    let mut container = Container::new(profile);
    add_chunks(&mut container, ChunkKind::DataNode, &files, codec, transform_flags)?;
    add_schema(&mut container, &schema)?;
    proof {
        lemma_packed_frames_ok(
            container@.chunks,
            file_views(files@),
            codec,
            transform_flags,
            opt_vec(schema),
        );
    }
    Ok(container)
}

/// Every chunk whose payload fits the 32-bit size field has a frame that reads back.
pub open spec fn frames_ok_when_short(cs: Seq<ChunkView>) -> bool {
    forall|i: int| 0 <= i < cs.len() && (#[trigger] cs[i]).payload.len() <= u32::MAX ==> chunk_frame_ok(cs[i])
}

/// The chunks of a packed container: file chunks then the schema chunk, hashes of at most
/// 32 bytes, so each frame reads back when its payload fits 32 bits.
proof fn lemma_packed_frames_ok(
    cs: Seq<ChunkView>,
    files: Seq<Seq<u8>>,
    codec: Codec,
    flags: u16,
    schema: Option<Seq<u8>>,
)
    requires
        file_chunks(ChunkKind::DataNode, files, codec, flags) is Some,
        schema_chunks(schema) is Some,
        cs == file_chunks(ChunkKind::DataNode, files, codec, flags).unwrap() + schema_chunks(schema).unwrap(),
        short_hashes_from(cs, 0),
    ensures
        frames_ok_when_short(cs),
{
    let fc = file_chunks(ChunkKind::DataNode, files, codec, flags).unwrap();
    let sc = schema_chunks(schema).unwrap();
    lemma_file_chunks_built(ChunkKind::DataNode, files, codec, flags);
    assert forall|i: int| 0 <= i < cs.len() && (#[trigger] cs[i]).payload.len() <= u32::MAX implies chunk_frame_ok(cs[i]) by {
        if i < fc.len() {
            assert(cs[i] == fc[i]);
        } else {
            assert(cs[i] == sc[i - fc.len()]);
            assert(sc.len() == 1);
        }
        assert(cs[i].content_hash.len() <= 32);
    }
}

/// The chunks built from files: one per file, in order, of the kind, codec and transform
/// flags asked for, each decoding to its file (for files of at most `u32::MAX` bytes).
proof fn lemma_file_chunks_decode(kind: ChunkKind, files: Seq<Seq<u8>>, codec: Codec, flags: u16)
    requires
        forall|i: int| 0 <= i < files.len() ==> (#[trigger] files[i]).len() <= u32::MAX,
    ensures
        file_chunks(kind, files, codec, flags) matches Some(cs) ==> {
            &&& cs.len() == files.len()
            &&& forall|i: int|
                0 <= i < files.len() ==> {
                    let c = #[trigger] cs[i];
                    &&& c.kind == kind
                    &&& c.codec == codec
                    &&& c.transform_flags == flags
                    &&& chunk_decodes_to(c, files[i])
                }
        },
    decreases files.len(),
{
    if files.len() > 0 {
        let prev_files = files.drop_last();
        assert forall|i: int| 0 <= i < prev_files.len() implies (#[trigger] prev_files[i]).len() <= u32::MAX by {
            assert(prev_files[i] == files[i]);
        }
        lemma_file_chunks_decode(kind, prev_files, codec, flags);
        if let Some(cs) = file_chunks(kind, files, codec, flags) {
            let prev = file_chunks(kind, prev_files, codec, flags).unwrap();
            let last = files.last();
            assert(last == files[files.len() - 1]);
            crate::chunk::lemma_chunk_new_roundtrip(kind, last, codec, flags, hash_algorithms::BLAKE3, None);
            let c = chunk_new_spec(kind, last, codec, flags, hash_algorithms::BLAKE3, None).unwrap();
            assert(cs == prev.push(c));
            assert forall|i: int| 0 <= i < files.len() implies {
                let d = #[trigger] cs[i];
                &&& d.kind == kind
                &&& d.codec == codec
                &&& d.transform_flags == flags
                &&& chunk_decodes_to(d, files[i])
            } by {
                if i < prev.len() {
                    assert(cs[i] == prev[i]);
                    assert(prev_files[i] == files[i]);
                }
            }
        }
    }
}

/// Law: the container `pack_data` or `import_data` builds from files (see their `ensures`),
/// written by `Container::serialize` to `o`, reads back from `o` as that container: the fresh
/// header, one data-node chunk per file in order, under the codec and transform flags asked
/// for and decoding to the file's bytes, then the schema chunk when there is a schema. It
/// holds when every file and every payload fits the 32-bit size fields.
pub proof fn lemma_packed_files_read_back(
    profile: Profile,
    files: Seq<Seq<u8>>,
    codec: Codec,
    flags: u16,
    schema: Option<Seq<u8>>,
    x: ContainerView,
    o: Seq<u8>,
)
    requires
        profile.well_formed(),
        file_chunks(ChunkKind::DataNode, files, codec, flags) is Some,
        schema_chunks(schema) is Some,
        x == (ContainerView {
            header: fresh_header(profile),
            chunks: file_chunks(ChunkKind::DataNode, files, codec, flags).unwrap() + schema_chunks(
                schema,
            ).unwrap(),
            toc: None,
        }),
        frames_ok_when_short(x.chunks),
        forall|i: int| 0 <= i < x.chunks.len() ==> (#[trigger] x.chunks[i]).payload.len() <= u32::MAX,
        forall|i: int| 0 <= i < files.len() ==> (#[trigger] files[i]).len() <= u32::MAX,
        crate::container::container_bytes_ok(x, o),
    ensures
        crate::container::container_parse(o) == Some(x),
        x.chunks.len() == files.len() + if schema is Some { 1int } else { 0int },
        forall|i: int|
            0 <= i < files.len() ==> {
                let c = #[trigger] x.chunks[i];
                &&& c.kind == ChunkKind::DataNode
                &&& c.codec == codec
                &&& c.transform_flags == flags
                &&& chunk_decodes_to(c, files[i])
            },
        schema matches Some(s) ==> x.chunks.last().kind == ChunkKind::Schema && (s.len() <= u32::MAX
            ==> chunk_decodes_to(x.chunks.last(), s)),
{
    let fc = file_chunks(ChunkKind::DataNode, files, codec, flags).unwrap();
    let sc = schema_chunks(schema).unwrap();
    lemma_file_chunks_decode(ChunkKind::DataNode, files, codec, flags);
    assert forall|i: int| 0 <= i < x.chunks.len() implies chunk_frame_ok(#[trigger] x.chunks[i]) by {
        assert(x.chunks[i].payload.len() <= u32::MAX);
    }
    assert forall|i: int| 0 <= i < files.len() implies {
        let c = #[trigger] x.chunks[i];
        &&& c.kind == ChunkKind::DataNode
        &&& c.codec == codec
        &&& c.transform_flags == flags
        &&& chunk_decodes_to(c, files[i])
    } by {
        assert(x.chunks[i] == fc[i]);
    }
    if let Some(s) = schema {
        assert(x.chunks.last() == sc[0]);
        if s.len() <= u32::MAX {
            crate::chunk::lemma_chunk_new_roundtrip(ChunkKind::Schema, s, Codec::Zstd, 0, hash_algorithms::BLAKE3, None);
        }
    }
    lemma_fresh_container_reads_back(profile, x.chunks, o);
}

/// Law: a container with the fresh header of a well-formed profile, no table of contents,
/// and chunks whose frames read back, reads back from the bytes `Container::serialize`
/// writes for it. With the `ensures` of `pack_data` and `import_data`, the containers the
/// data commands build read back from the files written for them, when every payload fits
/// the 32-bit size field.
pub proof fn lemma_fresh_container_reads_back(profile: Profile, cs: Seq<ChunkView>, b: Seq<u8>)
    requires
        profile.well_formed(),
        forall|i: int| 0 <= i < cs.len() ==> chunk_frame_ok(#[trigger] cs[i]),
        crate::container::container_bytes_ok(ContainerView { header: fresh_header(profile), chunks: cs, toc: None }, b),
    ensures
        crate::container::container_parse(b) == Some(ContainerView { header: fresh_header(profile), chunks: cs, toc: None }),
{
    let c = ContainerView { header: fresh_header(profile), chunks: cs, toc: None };
    crate::header::lemma_empty_ext_stream(0);
    assert(crate::header::ext_entries_match_types(c.header.extensions));
    crate::container::lemma_serialized_container_reads_back(c, b);
}

/// The bytes of an optional vector.
pub open spec fn opt_vec(v: Option<Vec<u8>>) -> Option<Seq<u8>> {
    match v {
        Some(x) => Some(x@),
        None => None,
    }
}

/// Adds the schema chunk, if there is a schema.
fn add_schema(container: &mut Container, schema: &Option<Vec<u8>>) -> (r: Result<()>)
    ensures
        r is Ok <==> schema_chunks(opt_vec(*schema)) is Some,
        r is Ok ==> final(container)@ == (ContainerView {
            chunks: old(container)@.chunks + schema_chunks(opt_vec(*schema)).unwrap(),
            ..old(container)@
        }),
        r is Ok ==> short_hashes_from(final(container)@.chunks, old(container)@.chunks.len() as int),
{
    match schema {
        Some(s) => {
            container.add_data(ChunkKind::Schema, s.as_slice(), Codec::Zstd, 0, hash_algorithms::BLAKE3)?;
            proof {
                let c = chunk_new_spec(ChunkKind::Schema, s@, Codec::Zstd, 0, hash_algorithms::BLAKE3, None).unwrap();
                assert(old(container)@.chunks.push(c) =~= old(container)@.chunks + seq![c]);
            }
            Ok(())
        },
        None => {
            assert(old(container)@.chunks + Seq::<ChunkView>::empty() =~= old(container)@.chunks);
            Ok(())
        },
    }
}

/// The container that the data import command writes: a `Recd` container with one
/// `DataNode` chunk per file (each file checked for its format first) under Zstandard with
/// the string-dictionary and integer-varint transforms, then the schema chunk when a schema
/// is given.
pub fn import_data(files: Vec<Vec<u8>>, format: DataFormat, schema: Option<Vec<u8>>) -> (r: Result<Container>)
    ensures
        r is Ok <==> files_ok(file_views(files@), format, true) && file_chunks(
            ChunkKind::DataNode,
            file_views(files@),
            Codec::Zstd,
            transform_flags::DICT_STRING | transform_flags::INTEGER_VARINT,
        ) is Some && schema_chunks(opt_vec(schema)) is Some,
        r matches Ok(x) ==> frames_ok_when_short(x@.chunks),
        r matches Ok(x) ==> x@ == (ContainerView {
            header: fresh_header(Profile::Recd),
            chunks: file_chunks(
                ChunkKind::DataNode,
                file_views(files@),
                Codec::Zstd,
                transform_flags::DICT_STRING | transform_flags::INTEGER_VARINT,
            ).unwrap() + schema_chunks(opt_vec(schema)).unwrap(),
            toc: None,
        }),
{
    check_files(&files, format, true)?;
    let mut container = Container::new(Profile::Recd);
    add_chunks(
        &mut container,
        ChunkKind::DataNode,
        &files,
        Codec::Zstd,
        transform_flags::DICT_STRING | transform_flags::INTEGER_VARINT,
    )?;
    add_schema(&mut container, &schema)?;
    proof {
        lemma_packed_frames_ok(
            container@.chunks,
            file_views(files@),
            Codec::Zstd,
            transform_flags::DICT_STRING | transform_flags::INTEGER_VARINT,
            opt_vec(schema),
        );
    }
    Ok(container)
}

/// The members of a type package's manifest: namespace, package, version, then the
/// description and the licence when given.
pub open spec fn manifest_texts(
    namespace: Seq<char>,
    package: Seq<char>,
    version: Seq<char>,
    license: Option<Seq<char>>,
    description: Option<Seq<char>>,
) -> Seq<(Seq<char>, Seq<char>)> {
    let base = seq![("namespace"@, namespace), ("package"@, package), ("version"@, version)];
    let with_desc = match description {
        Some(d) => base.push(("description"@, d)),
        None => base,
    };
    match license {
        Some(l) => with_desc.push(("license"@, l)),
        None => with_desc,
    }
}

/// The text of an optional string.
pub open spec fn opt_text(s: Option<String>) -> Option<Seq<char>> {
    match s {
        Some(x) => Some(x@),
        None => None,
    }
}

/// The header of a type package: the producer `CIL v1.1.0 type pack` and the namespace,
/// each as a raw entry of its UTF-8 bytes.
pub open spec fn type_pack_header(namespace: Seq<char>) -> HeaderView {
    fresh_header(Profile::Type).with_extension(
        header_ext_types::PRODUCER,
        ExtensionView::Unknown(vstd::utf8::encode_utf8("CIL v1.1.0 type pack"@)),
    ).with_extension(header_ext_types::NAMESPACE_ROOT, ExtensionView::Unknown(vstd::utf8::encode_utf8(namespace)))
}

/// The container that the type pack command writes: a `Type` container with the header of
/// `type_pack_header`, the manifest (a JSON object of the texts and an empty `exports` list)
/// as the first `Schema` chunk and one `Schema` chunk per schema file, all under Zstandard
/// without transforms.
pub fn pack_types(
    namespace: String,
    package: String,
    version: String,
    license: Option<String>,
    description: Option<String>,
    schemas: Vec<Vec<u8>>,
) -> (r: Result<Container>)
    ensures
        ({
            let manifest = json_object_encoding(
                manifest_texts(namespace@, package@, version@, opt_text(license), opt_text(description)),
                seq!["exports"@],
            );
            let mc = chunk_new_spec(
                ChunkKind::Schema,
                manifest.unwrap(),
                Codec::Zstd,
                0,
                hash_algorithms::BLAKE3,
                None,
            );
            let sc = file_chunks(ChunkKind::Schema, file_views(schemas@), Codec::Zstd, 0);
            &&& r is Ok <==> manifest is Some && mc is Some && sc is Some
            &&& r matches Ok(x) ==> x@ == (ContainerView {
                header: type_pack_header(namespace@),
                chunks: seq![mc.unwrap()] + sc.unwrap(),
                toc: None,
            })
        }),
{
    let ghost ns = namespace@;
    let ghost texts_view = manifest_texts(namespace@, package@, version@, opt_text(license), opt_text(description));
    let mut container = Container::new(Profile::Type);
    let producer = "CIL v1.1.0 type pack";
    container.header.add_extension(
        header_ext_types::PRODUCER,
        HeaderExtension::Unknown(producer.as_bytes_vec()),
    );
    container.header.add_extension(
        header_ext_types::NAMESPACE_ROOT,
        HeaderExtension::Unknown(namespace.as_str().as_bytes_vec()),
    );
    let mut texts: Vec<(String, String)> = Vec::new();
    texts.push((String::from_str("namespace"), namespace));
    texts.push((String::from_str("package"), package));
    texts.push((String::from_str("version"), version));
    match description {
        Some(d) => texts.push((String::from_str("description"), d)),
        None => {},
    }
    match license {
        Some(l) => texts.push((String::from_str("license"), l)),
        None => {},
    }
    let mut lists: Vec<String> = Vec::new();
    lists.push(String::from_str("exports"));
    proof {
        reveal_strlit("namespace");
        reveal_strlit("package");
        reveal_strlit("version");
        reveal_strlit("description");
        reveal_strlit("license");
        reveal_strlit("exports");
        assert(texts@.map_values(|e: (String, String)| (e.0@, e.1@)) =~= texts_view);
        assert(lists@.map_values(|k: String| k@) =~= seq!["exports"@]);
    }
    let manifest = match json_object_bytes(&texts, &lists) {
        Some(b) => b,
        None => {
            return Err(UnivError::serialization_error("清单序列化失败"));
        },
    };
    let ghost before = container@;
    container.add_data(ChunkKind::Schema, manifest.as_slice(), Codec::Zstd, 0, hash_algorithms::BLAKE3)?;
    add_chunks(&mut container, ChunkKind::Schema, &schemas, Codec::Zstd, 0)?;
    proof {
        let mc = chunk_new_spec(ChunkKind::Schema, manifest@, Codec::Zstd, 0, hash_algorithms::BLAKE3, None).unwrap();
        let sc = file_chunks(ChunkKind::Schema, file_views(schemas@), Codec::Zstd, 0).unwrap();
        assert(Seq::<ChunkView>::empty().push(mc) + sc =~= seq![mc] + sc);
    }
    Ok(container)
}

/// What resolving a type package reports: its number of chunks and of schema chunks (all
/// but the manifest); a container of another profile is refused.
pub fn resolve_info(c: &Container) -> (r: Result<(usize, usize)>)
    ensures
        c.header.profile is Type ==> r == Ok::<(usize, usize), UnivError>(
            (c.chunks@.len() as usize, if c.chunks@.len() > 0 { (c.chunks@.len() - 1) as usize } else { 0 }),
        ),
        !(c.header.profile is Type) ==> r matches Err(UnivError::DeserializationError { .. }),
{
    match c.header.profile {
        Profile::Type => {
            let n = c.chunks.len();
            Ok((n, if n > 0 { n - 1 } else { 0 }))
        },
        _ => Err(UnivError::deserialization_error("不是有效的类型仓库文件")),
    }
}

/// The members of the report on a resolved type package: the input, the profile `TYPE` and
/// the manifest `present` as texts.
pub open spec fn resolve_report_texts(input: Seq<char>) -> Seq<(Seq<char>, Seq<char>)> {
    seq![("input"@, input), ("profile"@, "TYPE"@), ("manifest"@, "present"@)]
}

/// The report the type resolve command writes for a type package: a pretty-printed JSON
/// object of the input, the profile, the manifest and the numbers of chunks and of schema
/// chunks; a container of another profile is refused.
pub fn resolve_report(input: &str, c: &Container) -> (r: Result<Vec<u8>>)
    ensures
        !(c.header.profile is Type) ==> r matches Err(UnivError::DeserializationError { .. }),
        c.header.profile is Type ==> ({
            let n = c.chunks@.len();
            let numbers = seq![("chunks"@, n as u64), ("schemas"@, if n > 0 { (n - 1) as u64 } else { 0u64 })];
            match json_pretty_encoding(resolve_report_texts(input@), numbers) {
                Some(b) => r matches Ok(x) && x@ == b,
                None => r matches Err(UnivError::SerializationError { .. }),
            }
        }),
{
    let total = c.chunks.len();
    let info = resolve_info(c);
    let (chunks, schemas): (usize, usize) = match info {
        Ok(pair) => pair,
        Err(e) => {
            return Err(e);
        },
    };
    let mut texts: Vec<(String, String)> = Vec::new();
    texts.push((String::from_str("input"), input.to_owned()));
    texts.push((String::from_str("profile"), String::from_str("TYPE")));
    texts.push((String::from_str("manifest"), String::from_str("present")));
    let mut numbers: Vec<(String, u64)> = Vec::new();
    numbers.push((String::from_str("chunks"), total as u64));
    numbers.push((String::from_str("schemas"), schemas as u64));
    proof {
        assert(chunks as int == c.chunks@.len() && total == chunks);
        assert(schemas as int == if c.chunks@.len() > 0 { c.chunks@.len() - 1 } else { 0 });
        reveal_strlit("input");
        reveal_strlit("profile");
        reveal_strlit("TYPE");
        reveal_strlit("manifest");
        reveal_strlit("present");
        reveal_strlit("chunks");
        reveal_strlit("schemas");
        assert(texts@.map_values(|e: (String, String)| (e.0@, e.1@)) =~= resolve_report_texts(input@));
        assert(numbers@.map_values(|e: (String, u64)| (e.0@, e.1)) =~= seq![
            ("chunks"@, c.chunks@.len() as u64),
            ("schemas"@, if c.chunks@.len() > 0 { (c.chunks@.len() - 1) as u64 } else { 0u64 }),
        ]);
    }
    match json_pretty_object_bytes(&texts, &numbers) {
        Some(b) => Ok(b),
        None => Err(UnivError::serialization_error("解析结果序列化失败")),
    }
}

} // verus!
