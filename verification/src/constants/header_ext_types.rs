//! TLV type codes of the header extension entries.

use vstd::prelude::*;

verus! {

/// Producer (UTF-8).
pub const PRODUCER: u8 = 1;
/// Creation timestamp (u64 nanoseconds).
pub const CREATION_TIMESTAMP: u8 = 2;
/// Application hint (UTF-8).
pub const APP_HINT: u8 = 3;
/// Default codec (u8 + parameters).
pub const DEFAULT_CODEC: u8 = 4;
/// Default hash algorithm.
pub const DEFAULT_HASH_ALG: u8 = 5;
/// Profile minor version / options (CBOR).
pub const PROFILE_MINOR_OPTIONS: u8 = 6;
/// Namespace root (UTF-8).
pub const NAMESPACE_ROOT: u8 = 10;
/// Resolver hints (CBOR).
pub const RESOLVER_HINTS: u8 = 11;
/// Window size in seconds (TSDB).
pub const WINDOW_SIZE_SECONDS: u8 = 12;
/// Column group hint (TABL).
pub const COLUMN_GROUP_HINT: u8 = 13;

} // verus!
