//! Utilities: hashing, variable-length integers, byte order and validation.

pub mod hash;
pub mod le;
pub mod string_map;
pub mod text;
pub mod varint;
pub mod validation;
