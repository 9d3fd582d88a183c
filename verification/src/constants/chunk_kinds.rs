//! Chunk kind codes.

use vstd::prelude::*;

verus! {

/// Data node.
pub const DATA_NODE: u8 = 1;
/// Binary large object.
pub const BLOB: u8 = 2;
/// Schema definition.
pub const SCHEMA: u8 = 3;
/// String table.
pub const STRING_TABLE: u8 = 4;
/// Index shard.
pub const INDEX_SHARD: u8 = 5;
/// Attachment.
pub const ATTACHMENT: u8 = 6;

} // verus!
