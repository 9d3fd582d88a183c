//! Content hash policies.

use vstd::prelude::*;

verus! {

/// Hash the data content only.
pub const DATA_ONLY: u8 = 0;
/// Hash the payload including its metadata.
pub const PAYLOAD_INCLUSIVE: u8 = 1;

} // verus!
