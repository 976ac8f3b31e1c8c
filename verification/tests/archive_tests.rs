use chasset::{ArchiveSet, Asset, HashKind, InvalidData, RawArchive};

fn raw(entries: Vec<(Vec<u8>, Vec<u8>)>) -> RawArchive {
    RawArchive {
        extension: Some((0, 0)),
        key_len: 25,
        entries: entries
            .into_iter()
            .map(|(k, v)| (k, Asset::from_vec(v)))
            .collect(),
    }
}

fn digest(byte: u8) -> chasset::digest::Hash {
    chasset::digest::Hash::from_bytes(HashKind::Blake2b, &[byte; 25]).unwrap()
}

#[test]
fn archive_lookup() {
    let k1 = vec![1u8; 25];
    let v1 = b"first value".to_vec();
    let set = ArchiveSet::open(vec![raw(vec![(k1.clone(), v1.clone())])]).unwrap();
    let found = set.get(&digest(1)).unwrap();
    assert_eq!(found.as_ref(), &v1[..]);
    assert!(set.get(&digest(2)).is_none());
}

#[test]
fn archive_open_rejects_key_length_mismatch() {
    let mut bad = raw(vec![]);
    bad.key_len = 10;
    assert!(matches!(
        ArchiveSet::open(vec![raw(vec![]), bad]),
        Err(InvalidData::KeyLengthMismatch)
    ));
}

#[test]
fn archive_open_rejects_unknown_kind() {
    let mut bad = raw(vec![]);
    bad.extension = Some((42, 1));
    assert!(matches!(
        ArchiveSet::open(vec![bad]),
        Err(InvalidData::UnknownKindId)
    ));
}

#[test]
fn archive_open_rejects_missing_extension() {
    let mut bad = raw(vec![]);
    bad.extension = None;
    assert!(matches!(
        ArchiveSet::open(vec![bad]),
        Err(InvalidData::MissingExtension)
    ));
}

#[test]
fn archive_open_rejects_bad_key() {
    let bad = RawArchive {
        extension: Some((0, 0)),
        key_len: 25,
        entries: vec![(vec![1u8; 24], Asset::from_vec(vec![]))],
    };
    assert!(matches!(
        ArchiveSet::open(vec![bad]),
        Err(InvalidData::KeyLengthMismatch)
    ));
}

#[test]
fn first_opened_archive_wins() {
    // Two archives in the same group both contain key `k`; the value comes
    // from the first-opened archive only.
    let k = vec![9u8; 25];
    let first = raw(vec![(k.clone(), b"from first".to_vec())]);
    let second = raw(vec![(k.clone(), b"from second".to_vec())]);
    let set = ArchiveSet::open(vec![first, second]).unwrap();
    let found = set.get(&digest(9)).unwrap();
    assert_eq!(found.as_ref(), b"from first");
}

#[test]
fn first_entry_wins_within_archive() {
    let k = vec![3u8; 25];
    let one = raw(vec![
        (k.clone(), b"early".to_vec()),
        (k.clone(), b"late".to_vec()),
    ]);
    let set = ArchiveSet::open(vec![one]).unwrap();
    assert_eq!(set.get(&digest(3)).unwrap().as_ref(), b"early");
}

#[test]
fn archive_list() {
    let set = ArchiveSet::open(vec![
        raw(vec![(vec![1u8; 25], b"a".to_vec())]),
        raw(vec![(vec![2u8; 25], b"b".to_vec())]),
    ])
    .unwrap();
    let all = set.list();
    assert_eq!(all, vec![digest(1), digest(2)]);
}

#[test]
fn asset_views() {
    let a = Asset::from_vec(b"payload".to_vec());
    assert_eq!(a.len(), 7);
    assert_eq!(a.as_ref(), b"payload");
    let b = a.dup();
    assert_eq!(b.as_ref(), b"payload");
}
