//! Incremental digest computation.

use crate::digest::HashKind;
use blake2::digest::{Update, VariableOutput};
use vstd::prelude::*;

verus! {

/// The 25-byte blake2b digest of `data`: a function of the bytes alone, the
/// same in every process and on every machine.
pub uninterp spec fn blake2b_of(data: Seq<u8>) -> Seq<u8>;

/// An in-progress blake2b computation: blake2's `Blake2bVar`, held whole.
/// Verus refuses a declaration of that type (its generic wrapper is
/// parameterized over type-level sizes), so the state is opaque and its
/// meaning lives in [`absorbed`] and the three functions below.
#[verifier::external_body]
struct Blake2bState {
    inner: blake2::Blake2bVar,
}

/// The bytes a blake2b hasher state has absorbed so far.
pub uninterp spec fn absorbed(h: Blake2bState) -> Seq<u8>;

/// Relies on blake2's `Blake2bVar::new`: a fresh 25-byte-output hasher that
/// has absorbed nothing. `new(25)` cannot fail, since 25 is within
/// blake2b's output range.
#[verifier::external_body]
fn blake2b_new() -> (r: Blake2bState)
    ensures
        absorbed(r) == Seq::<u8>::empty(),
{
    Blake2bState { inner: blake2::Blake2bVar::new(25).unwrap() }
}

/// Relies on blake2's `Update::update` for `Blake2bVar`: absorbs `data`
/// after everything absorbed before, changing nothing else.
#[verifier::external_body]
fn blake2b_update(h: &mut Blake2bState, data: &[u8])
    ensures
        absorbed(*final(h)) == absorbed(*old(h)) + data@,
{
    h.inner.update(data);
}

/// Relies on blake2's `VariableOutput::finalize_variable` for `Blake2bVar`:
/// the 200-bit blake2b digest of the absorbed bytes, which depends on those
/// bytes alone. Writing into a 25-byte buffer cannot fail, since the hasher
/// was configured for 25 bytes of output.
#[verifier::external_body]
fn blake2b_finalize(h: Blake2bState) -> (r: [u8; 25])
    ensures
        r@ == blake2b_of(absorbed(h)),
{
    let mut out = [0u8; 25];
    h.inner.finalize_variable(&mut out).unwrap();
    out
}

/// Helper to compute a hash of the currently recommended type.
///
/// A write-sink bound to one algorithm: bytes are hashed as they are
/// processed, in constant memory, and finalized into a digest.
pub struct Hasher {
    algo: HashKind,
    state: Blake2bState,
}

impl View for Hasher {
    type V = Seq<u8>;

    /// The bytes processed so far, in order.
    closed spec fn view(&self) -> Seq<u8> {
        absorbed(self.state)
    }
}

impl Hasher {
    /// The algorithm this hasher computes.
    pub closed spec fn spec_kind(self) -> HashKind {
        self.algo
    }

    /// Create an empty hasher.
    pub fn new(kind: HashKind) -> (r: Self)
        ensures
            r@ == Seq::<u8>::empty(),
            r.spec_kind() == kind,
    {
        Hasher { algo: kind, state: blake2b_new() }
    }

    /// Incrementally hash `bytes`.
    pub fn process(&mut self, bytes: &[u8])
        ensures
            final(self)@ == old(self)@ + bytes@,
            final(self).spec_kind() == old(self).spec_kind(),
    {
        blake2b_update(&mut self.state, bytes);
    }

    /// Get the hash of all `process`ed bytes.
    pub fn result(self) -> (r: crate::digest::Hash)
        ensures
            r.spec_kind() == self.spec_kind(),
            r@ == digest_of(self.spec_kind(), self@),
            r.wf(),
    {
        match self.algo {
            HashKind::Blake2b => {
                let d = blake2b_finalize(self.state);
                crate::digest::Hash::Blake2b(d)
            },
        }
    }

    /// Get the kind of hash being computed.
    pub fn kind(&self) -> (r: HashKind)
        ensures
            r == self.spec_kind(),
    {
        self.algo
    }
}

impl Default for Hasher {
    /// An empty hasher of the currently recommended algorithm.
    fn default() -> (r: Self)
        ensures
            r@ == Seq::<u8>::empty(),
            r.spec_kind() == HashKind::Blake2b,
    {
        Hasher::new(HashKind::Blake2b)
    }
}

/// The digest `kind` assigns to `data`.
pub open spec fn digest_of(kind: HashKind, data: Seq<u8>) -> Seq<u8> {
    match kind {
        HashKind::Blake2b => blake2b_of(data),
    }
}

} // verus!
