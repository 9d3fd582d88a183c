//! Recommended chunk sizes.

use vstd::prelude::*;

verus! {

/// Recommended chunk size (256 KiB).
pub const RECOMMENDED: u32 = 256 * 1024;
/// Minimum chunk size (64 KiB).
pub const MIN: u32 = 64 * 1024;
/// Maximum chunk size (4 MiB).
pub const MAX: u32 = 4 * 1024 * 1024;

} // verus!
