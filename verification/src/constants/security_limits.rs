//! Default security limits.

use vstd::prelude::*;

verus! {

/// Maximum number of chunks.
pub const MAX_CHUNKS: u32 = 1_000_000;
/// Maximum total raw size in bytes (256 GiB).
pub const MAX_RAW_SIZE: u64 = 256 * 1024 * 1024 * 1024;
/// Maximum raw size of one chunk in bytes (32 MiB).
pub const MAX_CHUNK_RAW: u32 = 32 * 1024 * 1024;
/// Maximum reference depth.
pub const MAX_REF_DEPTH: u32 = 1024;
/// Maximum string table size in bytes (256 MiB).
pub const MAX_STRING_TABLE: u32 = 256 * 1024 * 1024;
/// Maximum time-series window span multiple.
pub const MAX_SERIES_WINDOW_SPAN: u32 = 10;
/// Compression ratio threshold: a size ratio at or beyond this whole multiple is suspect.
pub const COMPRESSION_RATIO_THRESHOLD: u32 = 32;

} // verus!
