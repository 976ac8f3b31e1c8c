//! The mutable store: one loose file per asset, addressed by its digest's
//! sharded path, with a stage/commit write protocol.
//!
//! This module holds the store's addressing scheme and the writer's
//! accounting: how paths are derived from digests, how temp files are
//! named, and which digest a finished stream commits under. The filesystem
//! calls that realize the protocol — creating directories, exclusive file
//! creation, appending, fsync and the atomic rename — live with the caller,
//! which hands the observed outcomes (such as how many bytes a write
//! actually accepted) back in.

use crate::base32::{base32_encode, base32_of, chars_of_ascii};
use crate::digest::{HashKind, same_digest};
use crate::hashing::{digest_of, Hasher};
use crate::text::ascii_string;
use vstd::prelude::*;
use vstd::string::{StrSliceExecFns, StringExecFns};

verus! {

/// A repository that stores each asset as a separate file.
///
/// The repository is organized into one directory per hash kind, each
/// containing one file per asset identified by that hash, split into
/// subdirectories to bound the number of files in a single directory. A
/// `temp` directory is placed adjacent to the hash directories to buffer
/// incomplete streaming writes.
///
/// Any file in the `temp` directory which is not currently open by any
/// process arose from an interrupted write, and may be safely deleted.
pub struct LooseFiles {
    prefix: String,
}

/// The path of the committed asset for digest `h`, relative to the store's
/// base directory: `<algorithm name>/<first two encoded characters>/<rest>`.
pub open spec fn storage_rel_path(h: crate::digest::Hash) -> Seq<char> {
    h.spec_kind().spec_name() + seq!['/'] + base32_of(h@).take(2) + seq!['/'] + base32_of(
        h@,
    ).skip(2)
}

/// The path of the staging file named by `x`, relative to the store's base
/// directory.
pub open spec fn temp_rel_path(x: u64) -> Seq<char> {
    seq!['t', 'e', 'm', 'p', '/'] + hex_chars(x)
}

/// Uppercase hex digit `d` as an ASCII byte.
pub open spec fn hex_sym(d: u64) -> u8 {
    if d < 10 {
        (48 + d) as u8
    } else {
        (55 + d) as u8
    }
}

/// `x` in uppercase hex, zero-padded to at least eight digits, as ASCII
/// bytes.
pub open spec fn hex_bytes(x: u64) -> Seq<u8>
    decreases x,
{
    if x < 0x1_0000_0000 {
        Seq::new(8, |i: int| hex_sym((x >> ((28 - 4 * i) as u64)) & 15))
    } else {
        hex_bytes(x / 16).push(hex_sym(x % 16))
    }
}

/// `x` in uppercase hex, zero-padded to at least eight digits.
pub open spec fn hex_chars(x: u64) -> Seq<char> {
    chars_of_ascii(hex_bytes(x))
}

/// Renders `x` as `hex_chars(x)`: the staging file name for a draw `x`.
pub fn temp_name(x: u64) -> (r: String)
    ensures
        r@ == hex_chars(x),
{
    let bytes = hex_name_bytes(x);
    proof {
        lemma_hex_bytes_ascii(x);
    }
    ascii_string(bytes.as_slice())
}

/// Hex digit bytes of `x`, zero-padded to at least eight.
fn hex_name_bytes(x: u64) -> (r: Vec<u8>)
    ensures
        r@ == hex_bytes(x),
    decreases x,
{
    if x < 0x1_0000_0000 {
        proof {
            assert((x >> 28u64) & 15 < 16 && (x >> 24u64) & 15 < 16 && (x >> 20u64) & 15 < 16 && (x >> 16)
                & 15 < 16 && (x >> 12u64) & 15 < 16 && (x >> 8u64) & 15 < 16 && (x >> 4u64) & 15 < 16 && x
                & 15 < 16 && x % 16 < 16) by (bit_vector);
        }
        let mut out: Vec<u8> = Vec::new();
        out.push(hex_sym_byte((x >> 28u64) & 15));
        out.push(hex_sym_byte((x >> 24u64) & 15));
        out.push(hex_sym_byte((x >> 20u64) & 15));
        out.push(hex_sym_byte((x >> 16u64) & 15));
        out.push(hex_sym_byte((x >> 12u64) & 15));
        out.push(hex_sym_byte((x >> 8u64) & 15));
        out.push(hex_sym_byte((x >> 4u64) & 15));
        out.push(hex_sym_byte(x & 15));
        proof {
            assert(x >> 0u64 == x) by (bit_vector);
            assert(hex_bytes(x).len() == 8);
            assert(out@[0] == hex_bytes(x)[0]);
            assert(out@[1] == hex_bytes(x)[1]);
            assert(out@[2] == hex_bytes(x)[2]);
            assert(out@[3] == hex_bytes(x)[3]);
            assert(out@[4] == hex_bytes(x)[4]);
            assert(out@[5] == hex_bytes(x)[5]);
            assert(out@[6] == hex_bytes(x)[6]);
            assert(out@[7] == hex_bytes(x)[7]);
            assert(out@ =~= hex_bytes(x));
        }
        out
    } else {
        proof {
            assert(x % 16 < 16) by (bit_vector);
        }
        let mut out = hex_name_bytes(x / 16);
        out.push(hex_sym_byte(x % 16));
        out
    }
}

/// The byte of one hex digit.
fn hex_sym_byte(d: u64) -> (r: u8)
    requires
        d < 16,
    ensures
        r == hex_sym(d),
{
    if d < 10 {
        (d + 48) as u8
    } else {
        (d + 55) as u8
    }
}

/// Hex digits are ASCII.
proof fn lemma_hex_bytes_ascii(x: u64)
    ensures
        forall|i: int| 0 <= i < hex_bytes(x).len() ==> hex_bytes(x)[i] < 128,
    decreases x,
{
    if x < 0x1_0000_0000 {
        assert forall|i: int| 0 <= i < hex_bytes(x).len() implies hex_bytes(x)[i] < 128 by {
            let sh = ((28 - 4 * i) as u64);
            assert((x >> sh) & 15 < 16) by (bit_vector);
            assert(hex_bytes(x)[i] == hex_sym((x >> sh) & 15));
        }
    } else {
        lemma_hex_bytes_ascii(x / 16);
        assert((x % 16) < 16) by (bit_vector);
        assert(hex_bytes(x) == hex_bytes(x / 16).push(hex_sym(x % 16)));
    }
}

impl LooseFiles {
    /// The store's base directory.
    pub closed spec fn spec_prefix(self) -> Seq<char> {
        self.prefix@
    }

    /// A store rooted at `prefix`.
    ///
    /// The base directory tree itself is created by whoever performs the
    /// store's filesystem work; opening an existing tree is idempotent.
    pub fn open(prefix: String) -> (r: LooseFiles)
        ensures
            r.spec_prefix() == prefix@,
    {
        LooseFiles { prefix }
    }

    /// The full path under which the asset identified by `hash` is, or
    /// would be, committed.
    pub fn asset_path(&self, hash: &crate::digest::Hash) -> (r: String)
        ensures
            r@ == self.spec_prefix() + seq!['/'] + storage_rel_path(*hash),
    {
        path_for(self.prefix.as_str(), hash)
    }

    /// The full path of the staging file named by `x`.
    pub fn temp_path(&self, x: u64) -> (r: String)
        ensures
            r@ == self.spec_prefix() + seq!['/'] + temp_rel_path(x),
    {
        let mut out = clone_str(self.prefix.as_str());
        let slash_temp = "/temp/";
        proof {
            reveal_strlit("/temp/");
            assert(slash_temp@ =~= seq!['/', 't', 'e', 'm', 'p', '/']);
        }
        out.append(slash_temp);
        let name = temp_name(x);
        out.append(name.as_str());
        proof {
            assert(out@ =~= self.spec_prefix() + seq!['/'] + temp_rel_path(x));
        }
        out
    }

    /// Begin staging a write whose temp file was created under the name
    /// drawn from `x`.
    pub fn stage(&self, x: u64) -> (w: Writer)
        ensures
            w@ == Seq::<u8>::empty(),
            w.spec_kind() == HashKind::Blake2b,
            w.spec_prefix() == self.spec_prefix(),
            w.spec_temp() == self.spec_prefix() + seq!['/'] + temp_rel_path(x),
    {
        Writer {
            hasher: Hasher::new(HashKind::Blake2b),
            temp: self.temp_path(x),
            prefix: clone_str(self.prefix.as_str()),
        }
    }
}

/// The canonical full path for `hash` under the base directory `prefix`.
pub fn path_for(prefix: &str, hash: &crate::digest::Hash) -> (r: String)
    ensures
        r@ == prefix@ + seq!['/'] + storage_rel_path(*hash),
{
    proof {
        crate::digest::lemma_hash_wf(*hash);
    }
    let mut out = clone_str(prefix);
    let slash = "/";
    proof {
        reveal_strlit("/");
        assert(slash@ =~= seq!['/']);
    }
    out.append(slash);
    out.append(hash.kind().name());
    out.append(slash);
    let encoded = base32_encode(hash.bytes());
    proof {
        crate::base32::lemma_base32_ascii(hash@);
    }
    let whole = ascii_string(encoded.as_slice());
    let shard = whole.as_str().substring_char(0, 2);
    let rest = whole.as_str().substring_char(2, whole.as_str().unicode_len());
    out.append(shard);
    out.append(slash);
    out.append(rest);
    proof {
        assert(shard@ =~= base32_of(hash@).take(2));
        assert(rest@ =~= base32_of(hash@).skip(2));
        assert(out@ =~= prefix@ + seq!['/'] + storage_rel_path(*hash));
    }
    out
}

/// A fresh `String` with the contents of `s`.
fn clone_str(s: &str) -> (r: String)
    ensures
        r@ == s@,
{
    String::from_str(s)
}

/// The staging-file creation decision: only a name collision during
/// exclusive creation draws a fresh name and tries again; any other
/// failure aborts the stage, and a successful creation yields the writer.
pub fn retry_stage_on_collision(name_taken: bool) -> (r: bool)
    ensures
        r == name_taken,
{
    name_taken
}

/// A staging area for streaming data into the repository in constant
/// memory.
///
/// Bytes observed by the writer update a digest computation; `store`
/// finalizes it and names the canonical destination path. The temp file
/// of an abandoned writer is deleted by whoever holds it; nothing under a
/// committed path ever came from an abandoned writer, since temp paths and
/// storage paths never coincide.
pub struct Writer {
    hasher: Hasher,
    temp: String,
    prefix: String,
}

impl View for Writer {
    type V = Seq<u8>;

    /// The bytes the writer has observed so far, in order.
    closed spec fn view(&self) -> Seq<u8> {
        self.hasher@
    }
}

impl Writer {
    /// The algorithm the staged data is being hashed with.
    pub closed spec fn spec_kind(self) -> HashKind {
        self.hasher.spec_kind()
    }

    /// The store's base directory.
    pub closed spec fn spec_prefix(self) -> Seq<char> {
        self.prefix@
    }

    /// The full path of this writer's temp file.
    pub closed spec fn spec_temp(self) -> Seq<char> {
        self.temp@
    }

    /// Record that the first `written` bytes of `buf` were appended to the
    /// temp file.
    ///
    /// Only the bytes actually durable in the file enter the digest, so a
    /// short write never makes the digest drift from the file's contents.
    pub fn write(&mut self, buf: &[u8], written: usize)
        requires
            written <= buf@.len(),
        ensures
            final(self)@ == old(self)@ + buf@.take(written as int),
            final(self).spec_kind() == old(self).spec_kind(),
            final(self).spec_prefix() == old(self).spec_prefix(),
            final(self).spec_temp() == old(self).spec_temp(),
    {
        let observed = vstd::slice::slice_subrange(buf, 0, written);
        self.hasher.process(observed);
    }

    /// The temp file's full path, for appending and for cleanup on
    /// abandonment.
    pub fn temp_path(&self) -> (r: &str)
        ensures
            r@ == self.spec_temp(),
    {
        self.temp.as_str()
    }

    /// Commit: the digest of everything written, and the canonical path the
    /// temp file must be renamed to.
    ///
    /// The destination is derived from the digest itself, so two writers
    /// that staged identical content name the same destination, and the
    /// rename of one simply overwrites the identical file of the other.
    pub fn store(self) -> (r: (crate::digest::Hash, String))
        ensures
            r.0.wf(),
            r.0.spec_kind() == self.spec_kind(),
            r.0@ == digest_of(self.spec_kind(), self@),
            r.1@ == self.spec_prefix() + seq!['/'] + storage_rel_path(r.0),
    {
        let Writer { hasher, temp: _, prefix } = self;
        let hash = hasher.result();
        let dest = path_for(prefix.as_str(), &hash);
        (hash, dest)
    }
}

/// The hash a directory walk reconstructs from the path components
/// `<algo>/<shard>/<leaf>`, if they name one: the algorithm must be known
/// and the concatenated shard and leaf must be a valid encoding of its
/// length. Entries that fail to parse are skipped by enumeration rather
/// than aborting it.
pub fn digest_from_path(algo: &str, shard: &str, leaf: &str) -> (r: Option<crate::digest::Hash>)
    ensures
        r matches Some(h) ==> h.wf() && HashKind::of_name(algo@) == Some(h.spec_kind())
            && base32_of(h@) == shard@ + leaf@,
        forall|h: crate::digest::Hash|
            h.wf() && HashKind::of_name(algo@) == Some(h.spec_kind()) && base32_of(h@) == shard@
                + leaf@ ==> (r matches Some(h2) && same_digest(h2, h)),
{
    match HashKind::from_name(algo) {
        None => None,
        Some(kind) => {
            let mut full = clone_str(shard);
            full.append(leaf);
            match crate::digest::Hash::parse(kind, full.as_str()) {
                Ok(h) => {
                    proof {
                        assert forall|h2: crate::digest::Hash|
                            h2.wf() && HashKind::of_name(algo@) == Some(h2.spec_kind())
                                && base32_of(h2@) == shard@ + leaf@ implies same_digest(h, h2) by {
                            crate::base32::lemma_base32_injective(h@, h2@);
                        }
                    }
                    Some(h)
                },
                Err(_) => None,
            }
        },
    }
}

/// Staging never aliases a committed asset: the temp path of any draw
/// differs from the storage path of any digest, under any one base
/// directory. A reader can therefore never observe a partial write under a
/// committed path, and an abandoned temp file is identifiable as such by
/// its location alone.
pub proof fn lemma_temp_storage_disjoint(prefix: Seq<char>, h: crate::digest::Hash, x: u64)
    ensures
        temp_rel_path(x) != storage_rel_path(h),
        prefix + seq!['/'] + temp_rel_path(x) != prefix + seq!['/'] + storage_rel_path(h),
{
    crate::digest::lemma_hash_wf(h);
    let t = temp_rel_path(x);
    let s = storage_rel_path(h);
    assert(t[0] == 't');
    assert(s[0] == h.spec_kind().spec_name()[0]);
    assert(s[0] == 'b');
    let ft = prefix + seq!['/'] + t;
    let fs = prefix + seq!['/'] + s;
    assert(ft[prefix.len() as int + 1] == 't');
    assert(fs[prefix.len() as int + 1] == 'b');
}

/// Writing identical content twice yields the same digest and commits to
/// the same path: the digest is a function of the written stream alone, and
/// the committed path a function of the digest alone. The second commit's
/// rename therefore lands on the first's file with identical bytes.
pub proof fn lemma_store_idempotent(
    kind: HashKind,
    stream: Seq<u8>,
    h1: crate::digest::Hash,
    h2: crate::digest::Hash,
)
    requires
        h1.spec_kind() == kind,
        h2.spec_kind() == kind,
        h1@ == digest_of(kind, stream),
        h2@ == digest_of(kind, stream),
    ensures
        same_digest(h1, h2),
        storage_rel_path(h1) == storage_rel_path(h2),
{
}

/// What a committed file's path components parse back to is the digest
/// that named them: enumerating a store sees exactly what was committed.
pub proof fn lemma_path_round_trip(h: crate::digest::Hash)
    ensures
        HashKind::of_name(h.spec_kind().spec_name()) == Some(h.spec_kind()),
        base32_of(h@).take(2) + base32_of(h@).skip(2) == base32_of(h@),
{
    crate::digest::lemma_hash_wf(h);
    crate::digest::lemma_kind_identities(h.spec_kind());
    assert(base32_of(h@).take(2) + base32_of(h@).skip(2) =~= base32_of(h@));
}

} // verus!
