//! The digest type: an algorithm-tagged, fixed-length content identifier
//! with a human-readable and a binary encoding.

use crate::base32::{base32_decode, base32_encode, base32_of, lemma_base32_injective};
use crate::text::{ascii_string, str_eq};
use vstd::prelude::*;
use vstd::slice::slice_subrange;
use vstd::string::{StrSliceExecFns, StringExecFns};

verus! {

/// Size of output used for `HashKind::Blake2b`.
pub const BLAKE2B_LEN: usize = 25;

/// The algorithm used by a hash.
///
/// Each variant carries a stable small integer id and a canonical lowercase
/// name; ids and names are append-only, so values persisted by a future
/// version with more algorithms stay readable.
#[derive(Debug, Copy, Clone, PartialEq, Eq, Structural, Hash)]
pub enum HashKind {
    /// 200-bit blake2b hash.
    Blake2b,
}

/// Unknown hash kind.
#[derive(Debug, PartialEq, Eq, Structural)]
pub struct UnknownKind;

/// Invalid hash length for the given hash kind.
#[derive(Debug, PartialEq, Eq, Structural)]
pub struct InvalidLength;

impl HashKind {
    /// Length in bytes of hash values of this algorithm.
    pub open spec fn spec_len(self) -> nat {
        match self {
            HashKind::Blake2b => 25,
        }
    }

    /// Canonical lowercase name of this algorithm.
    pub open spec fn spec_name(self) -> Seq<char> {
        match self {
            HashKind::Blake2b => seq!['b', 'l', 'a', 'k', 'e', '2', 'b'],
        }
    }

    /// Stable integer id of this algorithm.
    pub open spec fn spec_id(self) -> u16 {
        match self {
            HashKind::Blake2b => 0,
        }
    }

    /// The algorithm with stable id `x`, if any.
    pub open spec fn spec_from_id(x: u16) -> Option<HashKind> {
        if x == 0 {
            Some(HashKind::Blake2b)
        } else {
            None
        }
    }

    /// The algorithm whose canonical name is `n`, if any.
    pub open spec fn of_name(n: Seq<char>) -> Option<HashKind> {
        if n == HashKind::Blake2b.spec_name() {
            Some(HashKind::Blake2b)
        } else {
            None
        }
    }

    /// Concise name for the algorithm used.
    pub fn name(&self) -> (r: &'static str)
        ensures
            r@ == self.spec_name(),
    {
        match *self {
            HashKind::Blake2b => {
                let s = "blake2b";
                proof {
                    reveal_strlit("blake2b");
                    assert(s@ =~= HashKind::Blake2b.spec_name());
                }
                s
            },
        }
    }

    /// Length of hash values used for this algorithm.
    pub fn len(&self) -> (r: usize)
        ensures
            r == self.spec_len(),
    {
        match *self {
            HashKind::Blake2b => BLAKE2B_LEN,
        }
    }

    /// Integer ID of this kind.
    pub fn id(&self) -> (r: u16)
        ensures
            r == self.spec_id(),
    {
        match *self {
            HashKind::Blake2b => 0,
        }
    }

    /// Reconstruct from a value previously obtained with `id`.
    pub fn from_id(x: u16) -> (r: Option<HashKind>)
        ensures
            r == HashKind::spec_from_id(x),
    {
        if x == 0 {
            Some(HashKind::Blake2b)
        } else {
            None
        }
    }

    /// The algorithm named `s`, if any.
    pub fn from_name(s: &str) -> (r: Option<HashKind>)
        ensures
            r == HashKind::of_name(s@),
    {
        let blake2b = "blake2b";
        proof {
            reveal_strlit("blake2b");
            assert(blake2b@ =~= HashKind::Blake2b.spec_name());
        }
        if str_eq(s, blake2b) {
            Some(HashKind::Blake2b)
        } else {
            None
        }
    }
}

impl Default for HashKind {
    /// The currently recommended algorithm.
    fn default() -> (r: Self)
        ensures
            r == HashKind::Blake2b,
    {
        HashKind::Blake2b
    }
}

impl core::str::FromStr for HashKind {
    type Err = UnknownKind;

    fn from_str(s: &str) -> Result<Self, UnknownKind> {
        match HashKind::from_name(s) {
            Some(k) => Ok(k),
            None => Err(UnknownKind),
        }
    }
}

/// Identities never collide: distinct algorithms have distinct ids, names
/// and, through the name, distinct human-readable encodings.
pub proof fn lemma_kind_identities(k: HashKind)
    ensures
        HashKind::of_name(k.spec_name()) == Some(k),
        HashKind::spec_from_id(k.spec_id()) == Some(k),
        forall|j: HashKind| j.spec_id() == k.spec_id() ==> j == k,
{
}

/// A hash uniquely identifying some data.
///
/// Hashes have forwards-compatible serialization, and can be encoded in both
/// binary and human-readable forms. New kinds of hash may be added in the
/// future, but none will ever be removed. The payload is a fixed-length
/// array, so a hash whose payload disagrees with its algorithm's length
/// cannot be built at all.
#[derive(Debug, Copy, Clone)]
pub enum Hash {
    /// A 200-bit blake2b hash.
    ///
    /// This size is evenly divisible into both bytes and base32 code units,
    /// allowing for efficient encoding for both machine and human
    /// consumption.
    Blake2b([u8; BLAKE2B_LEN]),
}

impl View for Hash {
    type V = Seq<u8>;

    /// The raw digest payload.
    open spec fn view(&self) -> Seq<u8> {
        match *self {
            Hash::Blake2b(a) => a@,
        }
    }
}

impl Hash {
    /// The algorithm this hash was computed with.
    pub open spec fn spec_kind(self) -> HashKind {
        match self {
            Hash::Blake2b(_) => HashKind::Blake2b,
        }
    }

    /// The payload has exactly the length its algorithm mandates. This
    /// holds of every value of the type; see [`lemma_hash_wf`].
    pub open spec fn wf(self) -> bool {
        self@.len() == self.spec_kind().spec_len()
    }

    /// Construct a hash that was computed using the `kind` algorithm to
    /// produce `bytes`.
    ///
    /// Returns `Err(InvalidLength)` if `bytes` does not match the output
    /// length of `kind`.
    pub fn from_bytes(kind: HashKind, bytes: &[u8]) -> (r: Result<Hash, InvalidLength>)
        ensures
            bytes@.len() == kind.spec_len() ==> (r matches Ok(h) && h.spec_kind() == kind && h@
                == bytes@ && h.wf()),
            bytes@.len() != kind.spec_len() ==> r is Err,
    {
        match kind {
            HashKind::Blake2b => {
                if bytes.len() != BLAKE2B_LEN {
                    Err(InvalidLength)
                } else {
                    Ok(Hash::Blake2b(array25_of(bytes)))
                }
            },
        }
    }

    /// Get the `HashKind` of this value.
    pub fn kind(&self) -> (r: HashKind)
        ensures
            r == self.spec_kind(),
    {
        match *self {
            Hash::Blake2b(_) => HashKind::Blake2b,
        }
    }

    /// Get the actual hash.
    pub fn bytes(&self) -> (r: &[u8])
        ensures
            r@ == self@,
    {
        match self {
            Hash::Blake2b(a) => a.as_slice(),
        }
    }
}

/// Well-formedness is carried by the type, not assumed: every
/// constructible hash's payload has exactly the length its algorithm
/// mandates.
pub proof fn lemma_hash_wf(h: Hash)
    ensures
        h.wf(),
{
    match h {
        Hash::Blake2b(a) => {
            assert(a@.len() == BLAKE2B_LEN);
        },
    }
}

/// A fixed-size copy of a 25-byte slice.
fn array25_of(bytes: &[u8]) -> (r: [u8; BLAKE2B_LEN])
    requires
        bytes@.len() == BLAKE2B_LEN,
    ensures
        r@ == bytes@,
{
    let mut out = [0u8; BLAKE2B_LEN];
    let mut i: usize = 0;
    while i < BLAKE2B_LEN
        invariant
            i <= BLAKE2B_LEN,
            out@.len() == BLAKE2B_LEN,
            bytes@.len() == BLAKE2B_LEN,
            forall|j: int| 0 <= j < i ==> out@[j] == bytes@[j],
        decreases BLAKE2B_LEN - i,
    {
        out[i] = bytes[i];
        i = i + 1;
    }
    proof {
        assert(out@ =~= bytes@);
    }
    out
}

impl PartialEq for Hash {
    fn eq(&self, other: &Hash) -> (r: bool) {
        self.kind() == other.kind() && {
            let a = self.bytes();
            let b = other.bytes();
            bytes_eq(a, b)
        }
    }
}

impl Eq for Hash {

}

impl vstd::std_specs::cmp::PartialEqSpecImpl for Hash {
    open spec fn obeys_eq_spec() -> bool {
        true
    }

    open spec fn eq_spec(&self, other: &Hash) -> bool {
        self.spec_kind() == other.spec_kind() && self@ == other@
    }
}

/// Errors in the human-readable hash encoding.
#[derive(Debug, Clone)]
pub enum HashParseError {
    /// Missing delimiting ":".
    MissingDelimiter,
    /// Unknown hash kind.
    ///
    /// May occur when parsing a hash encoded by a future version of this
    /// library.
    UnknownKind(String),
    /// Malformed base32 hash value.
    MalformedValue,
}

/// Two hashes identify the same content: same algorithm, same payload.
/// This is what `==` on hashes decides.
pub open spec fn same_digest(a: Hash, b: Hash) -> bool {
    a.spec_kind() == b.spec_kind() && a@ == b@
}

/// `d` is the position of the first ':' in `s`.
pub open spec fn is_first_delim(s: Seq<char>, d: int) -> bool {
    &&& 0 <= d < s.len()
    &&& s[d] == ':'
    &&& forall|j: int| 0 <= j < d ==> s[j] != ':'
}

/// `s` holds a ':' somewhere.
pub open spec fn has_delim(s: Seq<char>) -> bool {
    exists|i: int| 0 <= i < s.len() && s[i] == ':'
}

impl Hash {
    /// The human-readable encoding: the algorithm's name, a ':', and the
    /// unpadded base32 payload.
    pub open spec fn spec_string(self) -> Seq<char> {
        self.spec_kind().spec_name() + seq![':'] + base32_of(self@)
    }

    /// Construct a hash that was computed using the `kind` algorithm to
    /// produce `bytes`, encoded human-readably.
    ///
    /// Returns `Err(HashParseError::MalformedValue)` if `value` is not the
    /// encoding of a payload of `kind`'s length.
    pub fn parse(kind: HashKind, value: &str) -> (r: Result<Hash, HashParseError>)
        ensures
            r matches Ok(h) ==> h.wf() && h.spec_kind() == kind && base32_of(h@) == value@,
            forall|b: Seq<u8>|
                b.len() == kind.spec_len() && base32_of(b) == value@ ==> (r matches Ok(h) && h@
                    == b),
            r is Err ==> (r matches Err(HashParseError::MalformedValue) && forall|b: Seq<u8>|
                b.len() == kind.spec_len() ==> base32_of(b) != value@),
    {
        match kind {
            HashKind::Blake2b => {
                match base32_decode(value) {
                    Some(v) => {
                        if v.len() == BLAKE2B_LEN {
                            Ok(Hash::Blake2b(array25_of(v.as_slice())))
                        } else {
                            Err(HashParseError::MalformedValue)
                        }
                    },
                    None => Err(HashParseError::MalformedValue),
                }
            },
        }
    }

    /// Parse the human-readable encoding `<name>:<base32 payload>`.
    ///
    /// Every well-formed hash's `to_string` parses back to that hash, and
    /// each error names what was wrong: no delimiter, an algorithm name this
    /// version does not know, or a malformed payload.
    pub fn parse_str(s: &str) -> (r: Result<Hash, HashParseError>)
        ensures
            match r {
                Ok(h) => h.wf() && s@ == h.spec_string(),
                Err(e) => match e {
                    HashParseError::MissingDelimiter => !has_delim(s@),
                    HashParseError::UnknownKind(p) => exists|d: int|
                        is_first_delim(s@, d) && p@ == s@.take(d) && HashKind::of_name(s@.take(d))
                            is None,
                    HashParseError::MalformedValue => exists|d: int, k: HashKind|
                        is_first_delim(s@, d) && HashKind::of_name(s@.take(d)) == Some(k) && (
                        forall|b: Seq<u8>| b.len() == k.spec_len() ==> base32_of(b) != s@.skip(d + 1)),
                },
            },
            forall|h: Hash|
                h.wf() && s@ == h.spec_string() ==> (r matches Ok(h2) && same_digest(h2, h)),
    {
        let n = s.unicode_len();
        let mut i: usize = 0;
        while i < n && s.get_char(i) != ':'
            invariant
                i <= n,
                n == s@.len(),
                forall|j: int| 0 <= j < i ==> s@[j] != ':',
            decreases n - i,
        {
            i = i + 1;
        }
        if i == n {
            proof {
                assert forall|h: Hash| h.wf() && s@ == h.spec_string() implies false by {
                    lemma_spec_string_shape(h);
                }
            }
            return Err(HashParseError::MissingDelimiter);
        }
        assert(is_first_delim(s@, i as int));
        let prefix = s.substring_char(0, i);
        proof {
            assert(prefix@ =~= s@.take(i as int));
        }
        match HashKind::from_name(prefix) {
            None => {
                proof {
                    assert forall|h: Hash| h.wf() && s@ == h.spec_string() implies false by {
                        lemma_spec_string_shape(h);
                        lemma_first_delim_unique(s@, i as int, 7);
                        assert(s@.take(7) =~= h.spec_kind().spec_name());
                    }
                }
                Err(HashParseError::UnknownKind(String::from_str(prefix)))
            },
            Some(kind) => {
                let value = s.substring_char(i + 1, n);
                proof {
                    assert(value@ =~= s@.skip(i as int + 1));
                }
                match Hash::parse(kind, value) {
                    Ok(h) => {
                        proof {
                            assert(s@ =~= s@.take(i as int) + seq![s@[i as int]] + s@.skip(
                                i as int + 1,
                            ));
                            assert(s@ == h.spec_string());
                            assert forall|h2: Hash|
                                h2.wf() && s@ == h2.spec_string() implies same_digest(h, h2) by {
                                lemma_spec_string_injective(h, h2);
                            }
                        }
                        Ok(h)
                    },
                    Err(_) => {
                        proof {
                            assert forall|h: Hash| h.wf() && s@ == h.spec_string() implies false by {
                                lemma_spec_string_shape(h);
                                lemma_first_delim_unique(s@, i as int, 7);
                                assert(s@.take(7) =~= h.spec_kind().spec_name());
                                assert(s@.skip(8) =~= base32_of(h@));
                            }
                        }
                        Err(HashParseError::MalformedValue)
                    },
                }
            },
        }
    }

    /// The human-readable encoding of this hash; the inverse of
    /// `parse_str`.
    pub fn to_string(&self) -> (r: String)
        ensures
            r@ == self.spec_string(),
    {
        proof {
            lemma_hash_wf(*self);
        }
        let mut out = String::from_str(self.kind().name());
        let colon = ":";
        proof {
            reveal_strlit(":");
            assert(colon@ =~= seq![':']);
        }
        out.append(colon);
        let payload = self.bytes();
        let encoded = base32_encode(payload);
        proof {
            crate::base32::lemma_base32_ascii(payload@);
        }
        let tail = ascii_string(encoded.as_slice());
        out.append(tail.as_str());
        proof {
            assert(out@ =~= self.spec_string());
        }
        out
    }
}

impl Hash {
    /// The binary encoding: the algorithm id in two little-endian bytes —
    /// the same width and order as an archive's extension field — then the
    /// raw payload.
    pub open spec fn spec_binary(self) -> Seq<u8> {
        let id = self.spec_kind().spec_id();
        seq![(id & 0xff) as u8, (id >> 8) as u8] + self@
    }

    /// Encode this hash in the self-describing binary form.
    pub fn to_binary(&self) -> (r: Vec<u8>)
        ensures
            r@ == self.spec_binary(),
    {
        let id = self.kind().id();
        let mut out: Vec<u8> = Vec::new();
        out.push((id & 0xff) as u8);
        out.push((id >> 8) as u8);
        out.extend_from_slice(self.bytes());
        proof {
            assert(out@ =~= self.spec_binary());
        }
        out
    }

    /// Decode the binary encoding; `None` when `data` is not the binary
    /// encoding of a hash this version knows.
    pub fn from_binary(data: &[u8]) -> (r: Option<Hash>)
        ensures
            r matches Some(h) ==> h.wf() && data@ == h.spec_binary(),
            forall|h: Hash|
                h.wf() && data@ == h.spec_binary() ==> (r matches Some(h2) && same_digest(h2, h)),
    {
        if data.len() < 2 {
            return None;
        }
        let lo = data[0];
        let hi = data[1];
        let id: u16 = (lo as u16) | ((hi as u16) << 8);
        proof {
            assert((((lo as u16) | ((hi as u16) << 8)) & 0xff) as u8 == lo && ((((lo as u16) | ((
            hi as u16) << 8)) >> 8) as u8) == hi) by (bit_vector);
            assert forall|x: u16| ((((x & 0xff) as u8) as u16) | ((((x >> 8) as u8) as u16) << 8))
                == x by {
                assert(((((x & 0xff) as u8) as u16) | ((((x >> 8) as u8) as u16) << 8)) == x)
                    by (bit_vector);
            }
        }
        match HashKind::from_id(id) {
            None => {
                proof {
                    assert forall|h2: Hash| h2.wf() && data@ == h2.spec_binary() implies false by {
                        let sid = h2.spec_kind().spec_id();
                        assert(data@[0] == (sid & 0xff) as u8);
                        assert(data@[1] == (sid >> 8) as u8);
                        assert(id == sid);
                        lemma_kind_identities(h2.spec_kind());
                    }
                }
                None
            },
            Some(kind) => {
                let payload = slice_subrange(data, 2, data.len());
                match Hash::from_bytes(kind, payload) {
                    Ok(h) => {
                        proof {
                            let sid = h.spec_kind().spec_id();
                            assert(sid == id);
                            assert((sid & 0xff) as u8 == lo && (sid >> 8) as u8 == hi);
                            assert(data@ =~= h.spec_binary());
                            assert forall|h2: Hash|
                                h2.wf() && data@ == h2.spec_binary() implies same_digest(h, h2) by {
                                assert(h2@ =~= data@.subrange(2, data@.len() as int));
                            }
                        }
                        Some(h)
                    },
                    Err(_) => {
                        proof {
                            assert forall|h2: Hash|
                                h2.wf() && data@ == h2.spec_binary() implies false by {
                                assert(h2@ =~= data@.subrange(2, data@.len() as int));
                            }
                        }
                        None
                    },
                }
            },
        }
    }
}

impl core::str::FromStr for Hash {
    type Err = HashParseError;

    fn from_str(s: &str) -> Result<Self, HashParseError> {
        Hash::parse_str(s)
    }
}

/// Shape of the human-readable encoding of a hash: seven name characters,
/// the delimiter at position seven, then forty payload characters.
pub proof fn lemma_spec_string_shape(h: Hash)
    ensures
        h.spec_string().len() == 48,
        is_first_delim(h.spec_string(), 7),
        h.spec_string().take(7) == h.spec_kind().spec_name(),
        HashKind::of_name(h.spec_string().take(7)) == Some(h.spec_kind()),
        h.spec_string().skip(8) == base32_of(h@),
        has_delim(h.spec_string()),
{
    lemma_hash_wf(h);
    let s = h.spec_string();
    let name = h.spec_kind().spec_name();
    assert(base32_of(h@).len() == 40);
    assert(s.len() == 48);
    assert(s[7] == ':');
    assert forall|j: int| 0 <= j < 7 implies s[j] != ':' by {
        assert(s[j] == name[j]);
    }
    assert(s.take(7) =~= name);
    assert(s.skip(8) =~= base32_of(h@));
}

/// A sequence has at most one first delimiter.
pub proof fn lemma_first_delim_unique(s: Seq<char>, d1: int, d2: int)
    requires
        is_first_delim(s, d1),
        is_first_delim(s, d2),
    ensures
        d1 == d2,
{
}

/// The human-readable encoding is injective: equal encodings identify the
/// same content.
pub proof fn lemma_spec_string_injective(a: Hash, b: Hash)
    requires
        a.spec_string() == b.spec_string(),
    ensures
        same_digest(a, b),
{
    lemma_hash_wf(a);
    lemma_hash_wf(b);
    lemma_spec_string_shape(a);
    lemma_spec_string_shape(b);
    assert(a.spec_kind() == b.spec_kind());
    assert(base32_of(a@) == base32_of(b@));
    lemma_base32_injective(a@, b@);
}

/// Byte-wise slice equality.
pub fn bytes_eq(a: &[u8], b: &[u8]) -> (r: bool)
    ensures
        r == (a@ == b@),
{
    if a.len() != b.len() {
        return false;
    }
    let n = a.len();
    let mut i: usize = 0;
    while i < n
        invariant
            i <= n,
            n == a@.len(),
            n == b@.len(),
            forall|j: int| 0 <= j < i ==> a@[j] == b@[j],
        decreases n - i,
    {
        if a[i] != b[i] {
            return false;
        }
        i = i + 1;
    }
    proof {
        assert(a@ =~= b@);
    }
    true
}

} // verus!
