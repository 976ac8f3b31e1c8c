//! Content-addressed asset storage.
//!
//! Data is identified and retrieved solely by a cryptographic digest of its
//! bytes. Two backends share one addressing scheme: a mutable store keeping
//! one file per asset with a stage/commit write protocol, and an immutable,
//! read-optimized store serving assets out of pre-built archives.

use vstd::prelude::*;

pub mod archive;
pub mod asset;
pub mod base32;
pub mod content;
pub mod digest;
pub mod hashing;
pub mod loose_files;
pub mod text;

pub use archive::{ArchiveSet, InvalidData, RawArchive};
pub use asset::Asset;
pub use base32::base32_of;
pub use content::{ContentMap, ContentSet, IdentityHasher};
pub use hashing::Hasher;
pub use loose_files::{LooseFiles, Writer};
pub use digest::{HashKind, HashParseError, InvalidLength, UnknownKind, BLAKE2B_LEN};

verus! {

/// A hash uniquely identifying some data; the crate-root name for
/// [`digest::Hash`].
pub type Hash = crate::digest::Hash;

} // verus!
