//! The immutable store: a set of pre-built, read-only archives grouped by
//! algorithm, each mapping fixed-length digest payloads to asset bytes.
//!
//! Archives are built externally and consumed as sorted key→value tables;
//! the opener reads each archive's declared extension field and key length
//! through whatever parses the on-disk format, and hands the outcome in as
//! a [`RawArchive`]. A single malformed archive fails the whole open,
//! since serving from a group with an inconsistent key length would
//! corrupt addressing.

use crate::asset::Asset;
use crate::digest::HashKind;
use vstd::prelude::*;

verus! {

/// A corrupt or unrecognized archive, fatal to opening the whole set.
#[derive(Debug, Copy, Clone, PartialEq, Eq, Structural)]
pub enum InvalidData {
    /// The archive lacks the two-byte extension field naming its algorithm.
    MissingExtension,
    /// The extension field names an algorithm id this version does not
    /// know.
    UnknownKindId,
    /// The archive's declared key length, or one of its keys, is not its
    /// algorithm's digest length.
    KeyLengthMismatch,
}

/// What one archive file declares to its opener: the two-byte little-endian
/// extension field holding the algorithm id, the declared key length, and
/// the stored key→value entries in stored order, each value a zero-copy
/// window into the archive's mapping.
pub struct RawArchive {
    /// The first two bytes of the extension field, if the archive has one.
    pub extension: Option<(u8, u8)>,
    /// The declared key length.
    pub key_len: usize,
    /// The stored entries.
    pub entries: Vec<(Vec<u8>, Asset)>,
}

/// The entries of one archive, as key and value byte strings.
pub open spec fn raw_entries(r: RawArchive) -> Seq<(Seq<u8>, Seq<u8>)> {
    Seq::new(r.entries@.len(), |i: int| (r.entries@[i].0@, r.entries@[i].1@))
}

/// The algorithm id in a two-byte little-endian extension field.
pub open spec fn ext_id(lo: u8, hi: u8) -> u16 {
    (lo as u16) | ((hi as u16) << 8)
}

/// How the opener judges one archive: its algorithm, or what is wrong with
/// it.
pub open spec fn raw_check(r: RawArchive) -> Result<HashKind, InvalidData> {
    match r.extension {
        None => Err(InvalidData::MissingExtension),
        Some((lo, hi)) => match HashKind::spec_from_id(ext_id(lo, hi)) {
            None => Err(InvalidData::UnknownKindId),
            Some(kind) => {
                if r.key_len == kind.spec_len() && (forall|i: int|
                    0 <= i < r.entries@.len() ==> r.entries@[i].0@.len() == kind.spec_len()) {
                    Ok(kind)
                } else {
                    Err(InvalidData::KeyLengthMismatch)
                }
            },
        },
    }
}

/// The model of one group: the algorithm and the entry tables of its
/// archives, in open order.
pub ghost struct GroupModel {
    /// The group's algorithm.
    pub kind: HashKind,
    /// Entry tables of the group's archives, in the order they were opened.
    pub archives: Seq<Seq<(Seq<u8>, Seq<u8>)>>,
}

/// A validated archive's entries, added to the group of `kind`: appended to
/// that group if it exists, else opening a new group at the end.
pub open spec fn model_add(
    groups: Seq<GroupModel>,
    kind: HashKind,
    es: Seq<(Seq<u8>, Seq<u8>)>,
) -> Seq<GroupModel>
    decreases groups.len(),
{
    if groups.len() == 0 {
        seq![GroupModel { kind, archives: seq![es] }]
    } else if groups[0].kind == kind {
        seq![GroupModel { kind, archives: groups[0].archives.push(es) }] + groups.drop_first()
    } else {
        seq![groups[0]] + model_add(groups.drop_first(), kind, es)
    }
}

/// The model an open that has already accepted `acc` reaches after the
/// remaining `files`: the final grouping, or the first error.
pub open spec fn open_model(acc: Seq<GroupModel>, files: Seq<RawArchive>) -> Result<
    Seq<GroupModel>,
    InvalidData,
>
    decreases files.len(),
{
    if files.len() == 0 {
        Ok(acc)
    } else {
        match raw_check(files[0]) {
            Err(e) => Err(e),
            Ok(kind) => open_model(
                model_add(acc, kind, raw_entries(files[0])),
                files.drop_first(),
            ),
        }
    }
}

/// The value stored for `key` in one entry table: the first match in stored
/// order.
pub open spec fn entries_lookup(es: Seq<(Seq<u8>, Seq<u8>)>, key: Seq<u8>) -> Option<Seq<u8>>
    decreases es.len(),
{
    if es.len() == 0 {
        None
    } else if es[0].0 == key {
        Some(es[0].1)
    } else {
        entries_lookup(es.drop_first(), key)
    }
}

/// The value stored for `key` in a group: the first archive, in open
/// order, that holds it wins.
pub open spec fn group_lookup(archives: Seq<Seq<(Seq<u8>, Seq<u8>)>>, key: Seq<u8>) -> Option<
    Seq<u8>,
>
    decreases archives.len(),
{
    if archives.len() == 0 {
        None
    } else {
        match entries_lookup(archives[0], key) {
            Some(v) => Some(v),
            None => group_lookup(archives.drop_first(), key),
        }
    }
}

/// The value stored for `key` under algorithm `kind` in a whole set.
pub open spec fn set_lookup(groups: Seq<GroupModel>, kind: HashKind, key: Seq<u8>) -> Option<
    Seq<u8>,
>
    decreases groups.len(),
{
    if groups.len() == 0 {
        None
    } else if groups[0].kind == kind {
        group_lookup(groups[0].archives, key)
    } else {
        set_lookup(groups.drop_first(), kind, key)
    }
}

struct Archive {
    entries: Vec<(Vec<u8>, Asset)>,
}

impl Archive {
    spec fn spec_entries(self) -> Seq<(Seq<u8>, Seq<u8>)> {
        Seq::new(self.entries@.len(), |i: int| (self.entries@[i].0@, self.entries@[i].1@))
    }
}

struct ArchiveGroup {
    kind: HashKind,
    archives: Vec<Archive>,
}

impl ArchiveGroup {
    spec fn model(self) -> GroupModel {
        GroupModel {
            kind: self.kind,
            archives: Seq::new(self.archives@.len(), |i: int| self.archives@[i].spec_entries()),
        }
    }
}

/// A repository formed by a collection of archive files, each containing
/// many assets.
pub struct ArchiveSet {
    groups: Vec<ArchiveGroup>,
}

impl View for ArchiveSet {
    type V = Seq<GroupModel>;

    /// The groups in first-seen order, each holding its archives' entry
    /// tables in open order.
    closed spec fn view(&self) -> Seq<GroupModel> {
        Seq::new(self.groups@.len(), |i: int| self.groups@[i].model())
    }
}

impl ArchiveSet {
    /// Every key in a group has the length its algorithm mandates, so every
    /// listed digest is well-formed. Holds of every set `open` accepts.
    pub open spec fn wf(self) -> bool {
        model_wf(self@)
    }

    /// Open a repository over the archives found, in the order they were
    /// found.
    ///
    /// Each archive's algorithm is recovered from its two-byte little-endian
    /// extension field; an archive with no such field, an unrecognized
    /// algorithm id, or a key length disagreeing with its algorithm's digest
    /// length fails the whole open with the first such fault.
    #[verifier::loop_isolation(false)]
    pub fn open(files: Vec<RawArchive>) -> (r: Result<ArchiveSet, InvalidData>)
        ensures
            match r {
                Ok(set) => open_model(Seq::empty(), files@) == Ok::<_, InvalidData>(set@)
                    && set.wf(),
                Err(e) => open_model(Seq::empty(), files@) == Err::<Seq<GroupModel>, _>(e),
            },
    {
        let ghost all = files@;
        let mut files = files;
        let mut set = ArchiveSet { groups: Vec::new() };
        proof {
            assert(set@ =~= Seq::<GroupModel>::empty());
        }
        while files.len() > 0
            invariant
                open_model(Seq::empty(), all) == open_model(set@, files@),
                set.wf(),
            decreases files@.len(),
        {
            let ghost before = files@;
            let file = files.remove(0);
            let ghost gfile = file;
            proof {
                assert(files@ =~= before.drop_first());
                assert(gfile == before[0]);
            }
            let kind = match check_raw(&file) {
                Ok(kind) => kind,
                Err(e) => {
                    proof {
                        assert(open_model(set@, before) == Err::<Seq<GroupModel>, InvalidData>(e));
                    }
                    return Err(e);
                },
            };
            let RawArchive { extension: _, key_len: _, entries } = file;
            let archive = Archive { entries };
            let ghost prev = set@;
            proof {
                assert(archive.spec_entries() =~= raw_entries(gfile));
                assert forall|e: int|
                    0 <= e < archive.spec_entries().len() implies (
                #[trigger] archive.spec_entries()[e]).0.len() == kind.spec_len() by {
                    assert(gfile.entries@[e].0@.len() == kind.spec_len());
                }
            }
            add_archive(&mut set, kind, archive);
            proof {
                assert(set@ == model_add(prev, kind, raw_entries(gfile)));
                assert(open_model(set@, files@) == open_model(prev, before));
            }
        }
        proof {
            assert(files@.len() == 0);
            assert(open_model(set@, files@) == Ok::<_, InvalidData>(set@));
        }
        Ok(set)
    }

    /// Access the asset identified by `hash`.
    ///
    /// Scans the group of `hash`'s algorithm in open order and returns the
    /// first match as a zero-copy view; a digest present in several
    /// archives of a group is served from the first-opened one.
    pub fn get(&self, hash: &crate::digest::Hash) -> (r: Option<Asset>)
        ensures
            match r {
                Some(a) => set_lookup(self@, hash.spec_kind(), hash@) == Some(a@),
                None => set_lookup(self@, hash.spec_kind(), hash@) is None,
            },
    {
        let kind = hash.kind();
        let n = self.groups.len();
        let mut g: usize = 0;
        while g < n
            invariant
                g <= n,
                n == self.groups@.len(),
                kind == hash.spec_kind(),
                forall|j: int| 0 <= j < g ==> self.groups@[j].kind != kind,
                set_lookup(self@, hash.spec_kind(), hash@) == set_lookup(
                    self@.skip(g as int),
                    hash.spec_kind(),
                    hash@,
                ),
            decreases n - g,
        {
            let group = &self.groups[g];
            if group.kind == kind {
                let r = group_get(&group.archives, hash.bytes());
                proof {
                    assert(self@.skip(g as int)[0] == self.groups@[g as int].model());
                }
                return r;
            }
            proof {
                assert(self@.skip(g as int).drop_first() =~= self@.skip(g as int + 1));
                assert(self@.skip(g as int)[0] == self.groups@[g as int].model());
            }
            g = g + 1;
        }
        proof {
            assert(self@.skip(g as int) =~= Seq::<GroupModel>::empty());
        }
        None
    }

    /// Enumerate the digests stored in the repository: every key of every
    /// archive, group by group and archive by archive in stored order, as
    /// the digest it names.
    ///
    /// This should only be used for diagnostic purposes. It almost never
    /// makes sense to access an asset you don't already know the hash of.
    #[verifier::loop_isolation(false)]
    pub fn list(&self) -> (r: Vec<crate::digest::Hash>)
        requires
            self.wf(),
        ensures
            digest_keys(r@) == set_digests(self@),
            forall|i: int| 0 <= i < r@.len() ==> (#[trigger] r@[i]).wf(),
    {
        let mut out: Vec<crate::digest::Hash> = Vec::new();
        proof {
            assert(self@.take(0) =~= Seq::<GroupModel>::empty());
            assert(digest_keys(out@) =~= set_digests(self@.take(0)));
        }
        let ng = self.groups.len();
        let mut g: usize = 0;
        while g < ng
            invariant
                g <= ng,
                ng == self.groups@.len(),
                digest_keys(out@) == set_digests(self@.take(g as int)),
                forall|i: int| 0 <= i < out@.len() ==> (#[trigger] out@[i]).wf(),
            decreases ng - g,
        {
            let ghost gi = g as int;
            let ghost kindg = self@[gi].kind;
            let group = &self.groups[g];
            let na = group.archives.len();
            let mut a: usize = 0;
            proof {
                assert(self@[gi].archives.take(0) =~= Seq::<Seq<(Seq<u8>, Seq<u8>)>>::empty());
                assert(digest_keys(out@) =~= set_digests(self@.take(gi)) + archives_digests(
                    kindg,
                    self@[gi].archives.take(0),
                ));
            }
            while a < na
                invariant
                    g < ng,
                    a <= na,
                    na == self.groups@[gi].archives@.len(),
                    digest_keys(out@) == set_digests(self@.take(gi)) + archives_digests(
                        kindg,
                        self@[gi].archives.take(a as int),
                    ),
                    forall|i: int| 0 <= i < out@.len() ==> (#[trigger] out@[i]).wf(),
                decreases na - a,
            {
                let ghost ai = a as int;
                let archive = &group.archives[a];
                let ne = archive.entries.len();
                let mut e: usize = 0;
                proof {
                    assert(self@[gi].archives[ai].take(0) =~= Seq::<(Seq<u8>, Seq<u8>)>::empty());
                    assert(digest_keys(out@) =~= set_digests(self@.take(gi)) + archives_digests(
                        kindg,
                        self@[gi].archives.take(ai),
                    ) + entries_digests(kindg, self@[gi].archives[ai].take(0)));
                }
                while e < ne
                    invariant
                        g < ng,
                        a < na,
                        e <= ne,
                        ne == self.groups@[gi].archives@[ai].entries@.len(),
                        digest_keys(out@) == set_digests(self@.take(gi)) + archives_digests(
                            kindg,
                            self@[gi].archives.take(ai),
                        ) + entries_digests(kindg, self@[gi].archives[ai].take(e as int)),
                        forall|i: int| 0 <= i < out@.len() ==> (#[trigger] out@[i]).wf(),
                    decreases ne - e,
                {
                    let key = &archive.entries[e].0;
                    proof {
                        assert(self@[gi].archives[ai][e as int].0 == key@);
                        assert(key@.len() == kindg.spec_len());
                    }
                    let ghost prev = out@;
                    match crate::digest::Hash::from_bytes(group.kind, key.as_slice()) {
                        Ok(h) => {
                            out.push(h);
                            proof {
                                assert(digest_keys(out@) =~= digest_keys(prev).push(
                                    (kindg, key@),
                                ));
                                assert(self@[gi].archives[ai].take(e + 1) =~= self@[gi].archives[ai].take(
                                    e as int,
                                ).push(self@[gi].archives[ai][e as int]));
                                assert(entries_digests(
                                    kindg,
                                    self@[gi].archives[ai].take(e + 1),
                                ) =~= entries_digests(kindg, self@[gi].archives[ai].take(e as int)).push(
                                    (kindg, key@),
                                ));
                                assert(digest_keys(out@) =~= set_digests(self@.take(gi))
                                    + archives_digests(kindg, self@[gi].archives.take(ai))
                                    + entries_digests(kindg, self@[gi].archives[ai].take(e + 1)));
                            }
                        },
                        Err(_) => {
                            proof {
                                // unreachable: a well-formed set has no
                                // key of the wrong length
                                assert(false);
                            }
                        },
                    }
                    e = e + 1;
                }
                proof {
                    assert(self@[gi].archives[ai].take(ne as int) =~= self@[gi].archives[ai]);
                    lemma_archives_digests_take(kindg, self@[gi].archives, ai);
                    assert(digest_keys(out@) =~= set_digests(self@.take(gi)) + archives_digests(
                        kindg,
                        self@[gi].archives.take(ai + 1),
                    ));
                }
                a = a + 1;
            }
            proof {
                assert(self@[gi].archives.take(na as int) =~= self@[gi].archives);
                lemma_set_digests_take(self@, gi);
                assert(digest_keys(out@) =~= set_digests(self@.take(gi + 1)));
            }
            g = g + 1;
        }
        proof {
            assert(self@.take(ng as int) =~= self@);
        }
        out
    }
}

/// Every key in every group has the length the group's algorithm mandates.
pub open spec fn model_wf(groups: Seq<GroupModel>) -> bool {
    forall|g: int, a: int, e: int|
        0 <= g < groups.len() && 0 <= a < groups[g].archives.len() && 0 <= e
            < groups[g].archives[a].len() ==> (#[trigger] groups[g].archives[a][e]).0.len()
            == groups[g].kind.spec_len()
}

/// Adding an archive whose keys all have its algorithm's length preserves
/// the key-length invariant.
proof fn lemma_model_add_wf(groups: Seq<GroupModel>, kind: HashKind, es: Seq<(Seq<u8>, Seq<u8>)>)
    requires
        model_wf(groups),
        forall|e: int| 0 <= e < es.len() ==> (#[trigger] es[e]).0.len() == kind.spec_len(),
    ensures
        model_wf(model_add(groups, kind, es)),
    decreases groups.len(),
{
    let out = model_add(groups, kind, es);
    if groups.len() == 0 {
        assert forall|g: int, a: int, e: int|
            0 <= g < out.len() && 0 <= a < out[g].archives.len() && 0 <= e
                < out[g].archives[a].len() implies (#[trigger] out[g].archives[a][e]).0.len()
            == out[g].kind.spec_len() by {
            assert(out[g].archives[a] == es);
        }
    } else if groups[0].kind == kind {
        assert forall|g: int, a: int, e: int|
            0 <= g < out.len() && 0 <= a < out[g].archives.len() && 0 <= e
                < out[g].archives[a].len() implies (#[trigger] out[g].archives[a][e]).0.len()
            == out[g].kind.spec_len() by {
            if g == 0 {
                if a < groups[0].archives.len() {
                    assert(out[0].archives[a] == groups[0].archives[a]);
                    assert(groups[0].archives[a][e].0.len() == groups[0].kind.spec_len());
                } else {
                    assert(out[0].archives[a] == es);
                }
            } else {
                assert(out[g] == groups[g]);
                assert(groups[g].archives[a][e].0.len() == groups[g].kind.spec_len());
            }
        }
    } else {
        let rest = model_add(groups.drop_first(), kind, es);
        assert forall|g: int, a: int, e: int|
            0 <= g < groups.drop_first().len() && 0 <= a < groups.drop_first()[g].archives.len()
                && 0 <= e < groups.drop_first()[g].archives[a].len() implies (
        #[trigger] groups.drop_first()[g].archives[a][e]).0.len()
            == groups.drop_first()[g].kind.spec_len() by {
            assert(groups.drop_first()[g] == groups[g + 1]);
            assert(groups[g + 1].archives[a][e].0.len() == groups[g + 1].kind.spec_len());
        }
        lemma_model_add_wf(groups.drop_first(), kind, es);
        assert forall|g: int, a: int, e: int|
            0 <= g < out.len() && 0 <= a < out[g].archives.len() && 0 <= e
                < out[g].archives[a].len() implies (#[trigger] out[g].archives[a][e]).0.len()
            == out[g].kind.spec_len() by {
            if g == 0 {
                assert(out[0] == groups[0]);
                assert(groups[0].archives[a][e].0.len() == groups[0].kind.spec_len());
            } else {
                assert(out[g] == rest[g - 1]);
                assert(rest[g - 1].archives[a][e].0.len() == rest[g - 1].kind.spec_len());
            }
        }
    }
}

/// The digest identities of one entry table: its keys, each tagged with
/// the group's algorithm, in stored order.
pub open spec fn entries_digests(kind: HashKind, es: Seq<(Seq<u8>, Seq<u8>)>) -> Seq<
    (HashKind, Seq<u8>),
> {
    Seq::new(es.len(), |i: int| (kind, es[i].0))
}

/// The digest identities of one group: archive by archive, in open order.
pub open spec fn archives_digests(kind: HashKind, archives: Seq<Seq<(Seq<u8>, Seq<u8>)>>) -> Seq<
    (HashKind, Seq<u8>),
>
    decreases archives.len(),
{
    if archives.len() == 0 {
        Seq::empty()
    } else {
        entries_digests(kind, archives[0]) + archives_digests(kind, archives.drop_first())
    }
}

/// The digest identities of a whole set, group by group.
pub open spec fn set_digests(groups: Seq<GroupModel>) -> Seq<(HashKind, Seq<u8>)>
    decreases groups.len(),
{
    if groups.len() == 0 {
        Seq::empty()
    } else {
        archives_digests(groups[0].kind, groups[0].archives) + set_digests(groups.drop_first())
    }
}

/// The digest identities named by a run of hashes.
pub open spec fn digest_keys(hs: Seq<crate::digest::Hash>) -> Seq<(HashKind, Seq<u8>)> {
    Seq::new(hs.len(), |i: int| (hs[i].spec_kind(), hs[i]@))
}

/// Extending the considered archives by one appends its digests.
proof fn lemma_archives_digests_take(
    kind: HashKind,
    archives: Seq<Seq<(Seq<u8>, Seq<u8>)>>,
    a: int,
)
    requires
        0 <= a < archives.len(),
    ensures
        archives_digests(kind, archives.take(a + 1)) =~= archives_digests(kind, archives.take(a))
            + entries_digests(kind, archives[a]),
    decreases a,
{
    if a == 0 {
        assert(archives.take(1)[0] == archives[0]);
        assert(archives.take(1).drop_first() =~= Seq::<Seq<(Seq<u8>, Seq<u8>)>>::empty());
        assert(archives.take(0) =~= Seq::<Seq<(Seq<u8>, Seq<u8>)>>::empty());
    } else {
        lemma_archives_digests_take(kind, archives.drop_first(), a - 1);
        assert(archives.take(a + 1)[0] == archives[0]);
        assert(archives.take(a + 1).drop_first() =~= archives.drop_first().take(a));
        assert(archives.take(a)[0] == archives[0]);
        assert(archives.take(a).drop_first() =~= archives.drop_first().take(a - 1));
        assert(archives.drop_first()[a - 1] == archives[a]);
    }
}

/// Extending the considered groups by one appends its digests.
proof fn lemma_set_digests_take(groups: Seq<GroupModel>, g: int)
    requires
        0 <= g < groups.len(),
    ensures
        set_digests(groups.take(g + 1)) =~= set_digests(groups.take(g)) + archives_digests(
            groups[g].kind,
            groups[g].archives,
        ),
    decreases g,
{
    if g == 0 {
        assert(groups.take(1)[0] == groups[0]);
        assert(groups.take(1).drop_first() =~= Seq::<GroupModel>::empty());
        assert(groups.take(0) =~= Seq::<GroupModel>::empty());
    } else {
        lemma_set_digests_take(groups.drop_first(), g - 1);
        assert(groups.take(g + 1)[0] == groups[0]);
        assert(groups.take(g + 1).drop_first() =~= groups.drop_first().take(g));
        assert(groups.take(g)[0] == groups[0]);
        assert(groups.take(g).drop_first() =~= groups.drop_first().take(g - 1));
        assert(groups.drop_first()[g - 1] == groups[g]);
    }
}

/// Judge one archive, as `raw_check` does.
fn check_raw(file: &RawArchive) -> (r: Result<HashKind, InvalidData>)
    ensures
        r == raw_check(*file),
{
    let (lo, hi) = match file.extension {
        Some(pair) => pair,
        None => {
            return Err(InvalidData::MissingExtension);
        },
    };
    let id: u16 = (lo as u16) | ((hi as u16) << 8);
    let kind = match HashKind::from_id(id) {
        Some(kind) => kind,
        None => {
            return Err(InvalidData::UnknownKindId);
        },
    };
    if file.key_len != kind.len() {
        return Err(InvalidData::KeyLengthMismatch);
    }
    let ne = file.entries.len();
    let mut e: usize = 0;
    while e < ne
        invariant
            e <= ne,
            ne == file.entries@.len(),
            file.key_len == kind.spec_len(),
            raw_check(*file) matches Ok(k2) ==> k2 == kind,
            raw_check(*file) is Err ==> raw_check(*file) == Err::<HashKind, _>(
                InvalidData::KeyLengthMismatch,
            ),
            forall|j: int| 0 <= j < e ==> (#[trigger] file.entries@[j]).0@.len() == kind.spec_len(),
        decreases ne - e,
    {
        if file.entries[e].0.len() != file.key_len {
            return Err(InvalidData::KeyLengthMismatch);
        }
        e = e + 1;
    }
    Ok(kind)
}

/// Append a validated archive to its group, opening the group if absent.
#[verifier::loop_isolation(false)]
fn add_archive(set: &mut ArchiveSet, kind: HashKind, archive: Archive)
    ensures
        final(set)@ == model_add(old(set)@, kind, archive.spec_entries()),
        old(set).wf() && (forall|e: int|
            0 <= e < archive.spec_entries().len() ==> (#[trigger] archive.spec_entries()[e]).0.len()
                == kind.spec_len()) ==> final(set).wf(),
{
    proof {
        if old(set).wf() && (forall|e: int|
            0 <= e < archive.spec_entries().len() ==> (#[trigger] archive.spec_entries()[e]).0.len()
                == kind.spec_len()) {
            lemma_model_add_wf(old(set)@, kind, archive.spec_entries());
        }
    }
    let ghost orig = *old(set);
    let n = set.groups.len();
    let mut g: usize = 0;
    while g < n
        invariant
            g <= n,
            *set == orig,
            n == set.groups@.len(),
            forall|j: int| 0 <= j < g ==> set.groups@[j].kind != kind,
        decreases n - g,
    {
        if set.groups[g].kind == kind {
            let ghost es = archive.spec_entries();
            let mut group = set.groups.remove(g);
            group.archives.push(archive);
            set.groups.insert(g, group);
            proof {
                assert(set.groups@ =~= orig.groups@.update(g as int, group));
                assert(group.model().archives =~= orig@[g as int].archives.push(es));
                lemma_model_add_at(orig@, kind, es, g as int);
                assert(set@ =~= orig@.update(
                    g as int,
                    GroupModel { kind, archives: orig@[g as int].archives.push(es) },
                ));
                assert(set@ =~= model_add(orig@, kind, es));
            }
            return ;
        }
        g = g + 1;
    }
    let ghost es = archive.spec_entries();
    let mut archives: Vec<Archive> = Vec::new();
    archives.push(archive);
    set.groups.push(ArchiveGroup { kind, archives });
    proof {
        assert(forall|j: int| 0 <= j < orig@.len() ==> orig@[j].kind == orig.groups@[j].kind);
        lemma_model_add_fresh(orig@, kind, es);
        assert(set.groups@ =~= orig.groups@.push(ArchiveGroup { kind, archives }));
        assert(set.groups@[orig.groups@.len() as int].model().archives =~= seq![es]);
        assert(set@ =~= orig@.push(GroupModel { kind, archives: seq![es] }));
        assert(set@ =~= model_add(orig@, kind, es));
    }
}

/// `model_add` with the matching group at index `g` updates exactly that
/// group.
proof fn lemma_model_add_at(groups: Seq<GroupModel>, kind: HashKind, es: Seq<(Seq<u8>, Seq<u8>)>, g: int)
    requires
        0 <= g < groups.len(),
        groups[g].kind == kind,
        forall|j: int| 0 <= j < g ==> groups[j].kind != kind,
    ensures
        model_add(groups, kind, es) =~= groups.update(
            g,
            GroupModel { kind, archives: groups[g].archives.push(es) },
        ),
    decreases g,
{
    if g == 0 {
        assert(model_add(groups, kind, es) == seq![
            GroupModel { kind, archives: groups[0].archives.push(es) },
        ] + groups.drop_first());
    } else {
        lemma_model_add_at(groups.drop_first(), kind, es, g - 1);
        assert(groups.drop_first()[g - 1] == groups[g]);
        assert(model_add(groups, kind, es) == seq![groups[0]] + model_add(
            groups.drop_first(),
            kind,
            es,
        ));
        assert(groups.drop_first().update(
            g - 1,
            GroupModel { kind, archives: groups[g].archives.push(es) },
        ) =~= groups.update(g, GroupModel { kind, archives: groups[g].archives.push(es) }).drop_first());
    }
}

/// `model_add` with no matching group appends a fresh group.
proof fn lemma_model_add_fresh(groups: Seq<GroupModel>, kind: HashKind, es: Seq<(Seq<u8>, Seq<u8>)>)
    requires
        forall|j: int| 0 <= j < groups.len() ==> groups[j].kind != kind,
    ensures
        model_add(groups, kind, es) =~= groups.push(GroupModel { kind, archives: seq![es] }),
    decreases groups.len(),
{
    if groups.len() == 0 {
    } else {
        lemma_model_add_fresh(groups.drop_first(), kind, es);
        assert(groups.push(GroupModel { kind, archives: seq![es] }).drop_first() =~= groups.drop_first().push(
            GroupModel { kind, archives: seq![es] },
        ));
    }
}

/// Scan a group's archives in open order for `key`.
fn group_get(archives: &Vec<Archive>, key: &[u8]) -> (r: Option<Asset>)
    ensures
        match r {
            Some(a) => group_lookup(
                Seq::new(archives@.len(), |i: int| archives@[i].spec_entries()),
                key@,
            ) == Some(a@),
            None => group_lookup(
                Seq::new(archives@.len(), |i: int| archives@[i].spec_entries()),
                key@,
            ) is None,
        },
{
    let ghost model = Seq::new(archives@.len(), |i: int| archives@[i].spec_entries());
    proof {
        assert(model.skip(0) =~= model);
    }
    let n = archives.len();
    let mut a: usize = 0;
    while a < n
        invariant
            a <= n,
            n == archives@.len(),
            model == Seq::new(archives@.len(), |i: int| archives@[i].spec_entries()),
            group_lookup(model, key@) == group_lookup(model.skip(a as int), key@),
        decreases n - a,
    {
        let found = archive_get(&archives[a], key);
        proof {
            assert(model.skip(a as int)[0] == archives@[a as int].spec_entries());
            assert(model.skip(a as int).drop_first() =~= model.skip(a as int + 1));
        }
        if let Some(asset) = found {
            return Some(asset);
        }
        a = a + 1;
    }
    proof {
        assert(model.skip(a as int) =~= Seq::<Seq<(Seq<u8>, Seq<u8>)>>::empty());
    }
    None
}

/// Scan one archive's entries in stored order for `key`.
fn archive_get(archive: &Archive, key: &[u8]) -> (r: Option<Asset>)
    ensures
        match r {
            Some(a) => entries_lookup(archive.spec_entries(), key@) == Some(a@),
            None => entries_lookup(archive.spec_entries(), key@) is None,
        },
{
    let ghost model = archive.spec_entries();
    proof {
        assert(model.skip(0) =~= model);
    }
    let n = archive.entries.len();
    let mut e: usize = 0;
    while e < n
        invariant
            e <= n,
            n == archive.entries@.len(),
            model == archive.spec_entries(),
            entries_lookup(model, key@) == entries_lookup(model.skip(e as int), key@),
        decreases n - e,
    {
        let entry = &archive.entries[e];
        proof {
            assert(model.skip(e as int)[0] == (entry.0@, entry.1@));
            assert(model.skip(e as int).drop_first() =~= model.skip(e as int + 1));
        }
        if crate::digest::bytes_eq(entry.0.as_slice(), key) {
            return Some(entry.1.dup());
        }
        e = e + 1;
    }
    proof {
        assert(model.skip(e as int) =~= Seq::<(Seq<u8>, Seq<u8>)>::empty());
    }
    None
}

} // verus!
