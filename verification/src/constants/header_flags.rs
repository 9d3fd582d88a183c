//! Bits of the header flag word.

use vstd::prelude::*;

verus! {

/// The header carries an extension block.
pub const HAS_HEADER_EXT: u16 = 0x1;
/// Streamed container without a TOC.
pub const STREAMED_WITHOUT_TOC: u16 = 0x2;
/// The container holds encrypted chunks.
pub const CONTAINS_ENCRYPTED_CHUNKS: u16 = 0x4;
/// The container holds signatures.
pub const CONTAINS_SIGNATURES: u16 = 0x8;
/// The profile minor version is stored in the header extension.
pub const PROFILE_MINOR_IN_HEADER_EXT: u16 = 0x10;

} // verus!
