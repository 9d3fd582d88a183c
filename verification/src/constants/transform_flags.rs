//! Bits of the transform flag word.

use vstd::prelude::*;

verus! {

/// Dictionary string transform.
pub const DICT_STRING: u16 = 0x1;
/// Variable-length integer transform.
pub const INTEGER_VARINT: u16 = 0x2;
/// Columnarisation.
pub const COLUMNARIZE: u16 = 0x4;
/// Bit packing.
pub const BIT_PACK: u16 = 0x8;
/// Run-length encoding.
pub const RLE: u16 = 0x10;
/// Delta encoding.
pub const DELTA: u16 = 0x20;
/// Gorilla float compression.
pub const GORILLA: u16 = 0x40;
/// Content-defined chunking.
pub const CDC: u16 = 0x80;

} // verus!
