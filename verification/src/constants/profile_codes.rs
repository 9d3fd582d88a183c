//! Four-byte codes of the supported profiles.

use vstd::prelude::*;

verus! {

/// Large objects / media ("BLOB").
pub const BLOB: [u8; 4] = [0x42, 0x4c, 0x4f, 0x42];
/// Structured records ("RECD").
pub const RECD: [u8; 4] = [0x52, 0x45, 0x43, 0x44];
/// Columnar tables ("TABL").
pub const TABL: [u8; 4] = [0x54, 0x41, 0x42, 0x4c];
/// Time series ("TSDB").
pub const TSDB: [u8; 4] = [0x54, 0x53, 0x44, 0x42];
/// Graph / DAG ("GRPH").
pub const GRPH: [u8; 4] = [0x47, 0x52, 0x50, 0x48];
/// Mixed, legacy ("MIXD").
pub const MIXD: [u8; 4] = [0x4d, 0x49, 0x58, 0x44];
/// Type repository ("TYPE").
pub const TYPE: [u8; 4] = [0x54, 0x59, 0x50, 0x45];

} // verus!
