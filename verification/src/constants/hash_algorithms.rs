//! Hash algorithm codes.

use vstd::prelude::*;

verus! {

/// BLAKE3-256 (recommended default).
pub const BLAKE3: u8 = 1;
/// SHA-256.
pub const SHA256: u8 = 2;
/// CRC32C (integrity check only).
pub const CRC32C: u8 = 3;

} // verus!
