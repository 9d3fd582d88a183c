//! Format constants of the UNIV container: magic numbers, enumeration codes and limits.

use vstd::prelude::*;

pub mod profile_codes;
pub mod header_flags;
pub mod header_ext_types;
pub mod chunk_kinds;
pub mod codecs;
pub mod transform_flags;
pub mod hash_algorithms;
pub mod hash_policy;
pub mod security_limits;
pub mod chunk_size;

verus! {

/// Magic number at the start of every container ("UNV1").
pub const MAGIC: [u8; 4] = [0x55, 0x4e, 0x56, 0x31];

/// Length of the fixed part of a chunk frame: "CK01" + kind + codec + transform flags
/// + raw size + compressed size + hash algorithm + reserved.
pub const CHUNK_FRAME_HEADER_SIZE: usize = 4 + 1 + 1 + 2 + 4 + 4 + 1 + 2;

/// Length of the CRC32C trailer of a chunk frame.
pub const CHUNK_FRAME_CRC_SIZE: usize = 4;

/// Magic number of the TOC footer ("TOC1").
pub const TOC_MAGIC: [u8; 4] = [0x54, 0x4f, 0x43, 0x31];

/// Magic number at the start of every chunk frame ("CK01").
pub const CHUNK_MAGIC: [u8; 4] = [0x43, 0x4b, 0x30, 0x31];

} // verus!
