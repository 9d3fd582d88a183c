//! Compression codec codes.

use vstd::prelude::*;

verus! {

/// No compression.
pub const NONE: u8 = 0;
/// Zstandard.
pub const ZSTD: u8 = 1;
/// LZ4 (size-prepended block format).
pub const LZ4: u8 = 2;
/// Raw deflate.
pub const DEFLATE: u8 = 3;

} // verus!
