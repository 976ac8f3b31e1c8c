//! Containers keyed by content hashes, and the trivial hasher that lets a
//! digest's own randomness stand in for a hash function.

use crate::digest::HashKind;
use vstd::prelude::*;
use vstd::std_specs::cmp::PartialEqSpec;

verus! {

/// A hasher-style accumulator that yields a supplied `u64` directly.
///
/// Should only be used with values, such as digests, that are already
/// uniformly distributed.
#[derive(Debug, Clone)]
pub struct IdentityHasher(u64);

impl IdentityHasher {
    /// The accumulated state.
    pub closed spec fn spec_state(self) -> u64 {
        self.0
    }

    /// Use with a random `state` instead of `Default` to make storage order
    /// less predictable.
    pub fn new(state: u64) -> (r: Self)
        ensures
            r.spec_state() == state,
    {
        IdentityHasher(state)
    }

    /// The state gathered so far.
    pub fn finish(&self) -> (r: u64)
        ensures
            r == self.spec_state(),
    {
        self.0
    }

    /// Fold up to eight little-endian bytes into the state.
    pub fn write(&mut self, bytes: &[u8])
        requires
            bytes@.len() <= 8,
        ensures
            final(self).spec_state() == old(self).spec_state() ^ le8(bytes@),
    {
        let b0 = byte_at(bytes, 0);
        let b1 = byte_at(bytes, 1);
        let b2 = byte_at(bytes, 2);
        let b3 = byte_at(bytes, 3);
        let b4 = byte_at(bytes, 4);
        let b5 = byte_at(bytes, 5);
        let b6 = byte_at(bytes, 6);
        let b7 = byte_at(bytes, 7);
        let v: u64 = (b0 as u64) | ((b1 as u64) << 8) | ((b2 as u64) << 16) | ((b3 as u64) << 24)
            | ((b4 as u64) << 32) | ((b5 as u64) << 40) | ((b6 as u64) << 48) | ((b7 as u64) << 56);
        self.write_u64(v);
    }

    /// Fold a word into the state.
    pub fn write_u64(&mut self, i: u64)
        ensures
            final(self).spec_state() == old(self).spec_state() ^ i,
    {
        self.0 = self.0 ^ i;
    }
}

impl Default for IdentityHasher {
    /// A hasher with zero state.
    fn default() -> (r: Self)
        ensures
            r.spec_state() == 0,
    {
        IdentityHasher(0)
    }
}

/// Byte `i` of `s`, or zero past its end.
pub open spec fn spec_byte_at(s: Seq<u8>, i: int) -> u8 {
    if 0 <= i < s.len() {
        s[i]
    } else {
        0
    }
}

/// The value of up to eight bytes read little-endian, missing bytes zero.
pub open spec fn le8(s: Seq<u8>) -> u64 {
    (spec_byte_at(s, 0) as u64) | ((spec_byte_at(s, 1) as u64) << 8) | ((spec_byte_at(s, 2) as u64)
        << 16) | ((spec_byte_at(s, 3) as u64) << 24) | ((spec_byte_at(s, 4) as u64) << 32) | ((
    spec_byte_at(s, 5) as u64) << 40) | ((spec_byte_at(s, 6) as u64) << 48) | ((spec_byte_at(s, 7) as u64)
        << 56)
}

/// Byte `i` of the slice, or zero past its end.
fn byte_at(s: &[u8], i: usize) -> (r: u8)
    ensures
        r == spec_byte_at(s@, i as int),
{
    if i < s.len() {
        s[i]
    } else {
        0
    }
}

/// The identity of a hash as a map or set key: its algorithm and payload.
pub open spec fn content_key(h: crate::digest::Hash) -> (HashKind, Seq<u8>) {
    (h.spec_kind(), h@)
}

/// A table keyed by content hash.
///
/// Later insertions for the same digest shadow earlier ones; the view is
/// the resulting map from digest identity to value.
#[derive(Debug)]
pub struct ContentMap<T> {
    entries: Vec<(crate::digest::Hash, T)>,
}

/// The map described by a run of insertions, later entries overriding.
pub open spec fn entries_map<T>(s: Seq<(crate::digest::Hash, T)>) -> Map<
    (HashKind, Seq<u8>),
    T,
>
    decreases s.len(),
{
    if s.len() == 0 {
        Map::empty()
    } else {
        entries_map(s.drop_last()).insert(content_key(s.last().0), s.last().1)
    }
}

impl<T> View for ContentMap<T> {
    type V = Map<(HashKind, Seq<u8>), T>;

    closed spec fn view(&self) -> Map<(HashKind, Seq<u8>), T> {
        entries_map(self.entries@)
    }
}

/// Entries at positions `i` and beyond that never match `k` do not affect
/// the lookup of `k`.
proof fn lemma_map_prefix_lookup<T>(s: Seq<(crate::digest::Hash, T)>, k: (HashKind, Seq<u8>), i: int)
    requires
        0 <= i <= s.len(),
        forall|j: int| i <= j < s.len() ==> content_key(s[j].0) != k,
    ensures
        entries_map(s).contains_key(k) == entries_map(s.take(i)).contains_key(k),
        entries_map(s).contains_key(k) ==> entries_map(s)[k] == entries_map(s.take(i))[k],
    decreases s.len() - i,
{
    if i == s.len() {
        assert(s.take(i) =~= s);
    } else {
        lemma_map_prefix_lookup(s, k, i + 1);
        assert(s.take(i + 1).drop_last() =~= s.take(i));
        assert(s.take(i + 1).last() == s[i]);
    }
}

impl<T> ContentMap<T> {
    /// An empty table.
    pub fn new() -> (r: Self)
        ensures
            r@ == Map::<(HashKind, Seq<u8>), T>::empty(),
    {
        ContentMap { entries: Vec::new() }
    }

    /// Map `h` to `value`, shadowing any earlier value for `h`.
    pub fn insert(&mut self, h: crate::digest::Hash, value: T)
        ensures
            final(self)@ == old(self)@.insert(content_key(h), value),
    {
        let ghost prev = self.entries@;
        self.entries.push((h, value));
        proof {
            assert(self.entries@.drop_last() =~= prev);
        }
    }

    /// The value stored for `h`, if any.
    pub fn get(&self, h: &crate::digest::Hash) -> (r: Option<&T>)
        ensures
            match r {
                Some(v) => self@.contains_key(content_key(*h)) && *v == self@[content_key(*h)],
                None => !self@.contains_key(content_key(*h)),
            },
    {
        let ghost k = content_key(*h);
        let n = self.entries.len();
        let mut i: usize = n;
        while i > 0
            invariant
                i <= n,
                n == self.entries@.len(),
                k == content_key(*h),
                forall|j: int| i <= j < n ==> content_key(self.entries@[j].0) != k,
            decreases i,
        {
            i = i - 1;
            let entry = &self.entries[i];
            let same = entry.0 == *h;
            proof {
                assert(<crate::digest::Hash as PartialEqSpec>::obeys_eq_spec());
                assert(same == entry.0.eq_spec(h));
            }
            if same {
                proof {
                    assert(content_key(self.entries@[i as int].0) == k);
                    lemma_map_prefix_lookup(self.entries@, k, i + 1);
                    assert(self.entries@.take(i + 1).drop_last() =~= self.entries@.take(i as int));
                    assert(self.entries@.take(i + 1).last() == self.entries@[i as int]);
                }
                return Some(&entry.1);
            }
            proof {
                assert(content_key(self.entries@[i as int].0) != k);
            }
        }
        proof {
            lemma_map_prefix_lookup(self.entries@, k, 0);
            assert(self.entries@.take(0) =~= Seq::<(crate::digest::Hash, T)>::empty());
        }
        None
    }

    /// Whether a value is stored for `h`.
    pub fn contains_key(&self, h: &crate::digest::Hash) -> (r: bool)
        ensures
            r == self@.contains_key(content_key(*h)),
    {
        match self.get(h) {
            Some(_) => true,
            None => false,
        }
    }
}

impl<T> Default for ContentMap<T> {
    /// An empty table.
    fn default() -> (r: Self)
        ensures
            r@ == Map::<(HashKind, Seq<u8>), T>::empty(),
    {
        ContentMap::new()
    }
}

/// A set keyed by content hash.
#[derive(Debug)]
pub struct ContentSet {
    inner: ContentMap<()>,
}

impl View for ContentSet {
    type V = Set<(HashKind, Seq<u8>)>;

    closed spec fn view(&self) -> Set<(HashKind, Seq<u8>)> {
        self.inner@.dom()
    }
}

impl ContentSet {
    /// An empty set.
    pub fn new() -> (r: Self)
        ensures
            r@ == Set::<(HashKind, Seq<u8>)>::empty(),
    {
        let r = ContentSet { inner: ContentMap::new() };
        proof {
            assert(r@ =~= Set::<(HashKind, Seq<u8>)>::empty());
        }
        r
    }

    /// Add `h`; returns whether it was newly added.
    pub fn insert(&mut self, h: crate::digest::Hash) -> (r: bool)
        ensures
            final(self)@ == old(self)@.insert(content_key(h)),
            r == !old(self)@.contains(content_key(h)),
    {
        let fresh = !self.inner.contains_key(&h);
        self.inner.insert(h, ());
        proof {
            assert(final(self)@ =~= old(self)@.insert(content_key(h)));
        }
        fresh
    }

    /// Whether `h` is in the set.
    pub fn contains(&self, h: &crate::digest::Hash) -> (r: bool)
        ensures
            r == self@.contains(content_key(*h)),
    {
        self.inner.contains_key(h)
    }
}

impl Default for ContentSet {
    /// An empty set.
    fn default() -> (r: Self)
        ensures
            r@ == Set::<(HashKind, Seq<u8>)>::empty(),
    {
        ContentSet::new()
    }
}

} // verus!
