//! Shared, zero-copy views of asset bytes.
//!
//! An asset is a read-only window into a reference-counted buffer: either a
//! memory-mapped region shared with other views, or an owned byte vector.
//! The backing buffer lives as long as any view into it.

use std::sync::Arc;
use vstd::prelude::*;
use vstd::slice::slice_subrange;

verus! {

/// Declares memmap's `Mmap` type so mappings can be held and shared; a
/// value of it is an established read-only mapping.
#[verifier::external_type_specification]
#[verifier::external_body]
pub struct ExMmap(memmap::Mmap);

/// The bytes of a mapped region: a mapping is created once over fixed
/// contents, so they are a function of the mapping value.
pub uninterp spec fn mmap_bytes(m: memmap::Mmap) -> Seq<u8>;

/// Relies on memmap's `Deref` for `Mmap`: the mapped region as one byte
/// slice.
#[verifier::external_body]
fn mmap_slice(m: &memmap::Mmap) -> (r: &[u8])
    ensures
        r@ == mmap_bytes(*m),
{
    &m[..]
}

/// The size of a mapped region.
pub fn mmap_len(m: &memmap::Mmap) -> (r: usize)
    ensures
        r == mmap_bytes(*m).len(),
{
    mmap_slice(m).len()
}

enum AssetRepr {
    Mapped { map: Arc<memmap::Mmap>, start: usize, len: usize },
    Owned { bytes: Arc<Vec<u8>> },
}

/// A refcounted, read-only view of asset bytes, typically a window into a
/// memory-mapped file.
///
/// Duplicating an asset is shallow: the copy shares the backing buffer,
/// which is released when the last view of it is dropped.
pub struct Asset {
    repr: AssetRepr,
}

impl View for Asset {
    type V = Seq<u8>;

    /// The bytes this view exposes.
    closed spec fn view(&self) -> Seq<u8> {
        match self.repr {
            AssetRepr::Mapped { map, start, len } => mmap_bytes(*map).subrange(
                start as int,
                start as int + len as int,
            ),
            AssetRepr::Owned { bytes } => bytes@,
        }
    }
}

impl Asset {
    /// A mapped window never reaches outside its mapping.
    #[verifier::type_invariant]
    spec fn inv(self) -> bool {
        match self.repr {
            AssetRepr::Mapped { map, start, len } => start + len <= mmap_bytes(*map).len(),
            AssetRepr::Owned { bytes } => true,
        }
    }

    /// An asset owning its bytes outright.
    pub fn from_vec(bytes: Vec<u8>) -> (r: Asset)
        ensures
            r@ == bytes@,
    {
        Asset { repr: AssetRepr::Owned { bytes: Arc::new(bytes) } }
    }

    /// The window of `len` bytes at `start` of a shared mapping.
    pub fn from_mapping(map: Arc<memmap::Mmap>, start: usize, len: usize) -> (r: Asset)
        requires
            start + len <= mmap_bytes(*map).len(),
        ensures
            r@ == mmap_bytes(*map).subrange(start as int, start as int + len as int),
            r@.len() == len,
    {
        Asset { repr: AssetRepr::Mapped { map, start, len } }
    }

    /// The viewed bytes as a slice.
    pub fn as_ref(&self) -> (r: &[u8])
        ensures
            r@ == self@,
    {
        proof {
            use_type_invariant(self);
        }
        match &self.repr {
            AssetRepr::Mapped { map, start, len } => {
                let whole = mmap_slice(&**map);
                let total = whole.len();
                assert(*start + *len <= total);
                slice_subrange(whole, *start, *start + *len)
            },
            AssetRepr::Owned { bytes } => bytes.as_slice(),
        }
    }

    /// The number of bytes viewed.
    pub fn len(&self) -> (r: usize)
        ensures
            r == self@.len(),
    {
        proof {
            use_type_invariant(self);
        }
        match &self.repr {
            AssetRepr::Mapped { map: _, start: _, len } => *len,
            AssetRepr::Owned { bytes } => bytes.len(),
        }
    }

    /// Relies on std's `Arc::clone`: a shallow copy sharing the same
    /// backing buffer.
    #[verifier::external_body]
    pub fn dup(&self) -> (r: Asset)
        ensures
            r == *self,
    {
        Asset {
            repr: match &self.repr {
                AssetRepr::Mapped { map, start, len } => AssetRepr::Mapped {
                    map: Arc::clone(map),
                    start: *start,
                    len: *len,
                },
                AssetRepr::Owned { bytes } => AssetRepr::Owned { bytes: Arc::clone(bytes) },
            },
        }
    }
}

} // verus!
