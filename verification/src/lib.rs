//! UNIV (Universe) container format library.

use vstd::prelude::*;

pub mod canonical;
pub mod cbor;
pub mod chunk;
pub mod constants;
pub mod container;
pub mod error;
pub mod header;
pub mod profile;
pub mod reference;
pub mod security;
pub mod toc;
pub mod tool;
pub mod transform;
pub mod util;

pub use error::{Result, UnivError};

pub use chunk::{Chunk, ChunkKind};
pub use container::{Container, MemoryStats};
pub use header::Header;
pub use profile::Profile;

verus! {

} // verus!
