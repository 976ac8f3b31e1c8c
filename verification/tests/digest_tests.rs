use chasset::digest::HashParseError;
use chasset::{ContentSet, HashKind, InvalidLength};
use std::str::FromStr;

#[test]
fn hash_string_roundtrip() {
    let hash = chasset::digest::Hash::Blake2b([0xAB; 25]);
    let x = hash.to_string();
    let hash2 = x.parse::<chasset::digest::Hash>().unwrap();
    assert_eq!(hash, hash2);
}

#[test]
fn parse_err() {
    assert!(chasset::digest::Hash::from_str("blake2b:00000").is_err());
    assert!(chasset::digest::Hash::from_str("notarealhash:42").is_err());
}

#[test]
fn collection() {
    let hash = chasset::digest::Hash::Blake2b([0xAB; 25]);
    let mut x = ContentSet::default();
    x.insert(hash);
    assert!(x.contains(&hash));
}

#[test]
fn to_string_exact() {
    let hash = chasset::digest::Hash::Blake2b([0xAB; 25]);
    assert_eq!(
        hash.to_string(),
        "blake2b:VOV2XK5LVOV2XK5LVOV2XK5LVOV2XK5LVOV2XK5L"
    );
}

#[test]
fn parse_exact() {
    let h = chasset::digest::Hash::parse_str("blake2b:VOV2XK5LVOV2XK5LVOV2XK5LVOV2XK5LVOV2XK5L")
        .unwrap();
    assert_eq!(h.bytes(), &[0xAB; 25][..]);
    assert_eq!(h.kind(), HashKind::Blake2b);
    // the payload length always matches the tag's length
    assert_eq!(h.bytes().len(), h.kind().len());
}

#[test]
fn parse_missing_delimiter() {
    assert!(matches!(
        chasset::digest::Hash::parse_str("nodelimiterhere"),
        Err(HashParseError::MissingDelimiter)
    ));
}

#[test]
fn parse_unknown_kind() {
    match chasset::digest::Hash::parse_str("notarealhash:42") {
        Err(HashParseError::UnknownKind(p)) => assert_eq!(p, "notarealhash"),
        other => panic!("expected UnknownKind, got {:?}", other),
    }
}

#[test]
fn parse_malformed_value() {
    // truncated base32 payload
    assert!(matches!(
        chasset::digest::Hash::parse_str("blake2b:VOV2XK5L"),
        Err(HashParseError::MalformedValue)
    ));
    // right length, invalid alphabet characters
    assert!(matches!(
        chasset::digest::Hash::parse_str("blake2b:0000000000000000000000000000000000000000"),
        Err(HashParseError::MalformedValue)
    ));
}

#[test]
fn from_bytes_length_enforcement() {
    for n in [0usize, 1, 24, 26, 64] {
        let bytes = vec![7u8; n];
        assert_eq!(
            chasset::digest::Hash::from_bytes(HashKind::Blake2b, &bytes),
            Err(InvalidLength)
        );
    }
    let ok = chasset::digest::Hash::from_bytes(HashKind::Blake2b, &[9u8; 25]).unwrap();
    assert_eq!(ok.bytes(), &[9u8; 25][..]);
}

#[test]
fn kind_accessors() {
    let k = HashKind::Blake2b;
    assert_eq!(k.name(), "blake2b");
    assert_eq!(k.len(), 25);
    assert_eq!(k.id(), 0);
    assert_eq!(HashKind::from_id(0), Some(HashKind::Blake2b));
    assert_eq!(HashKind::from_id(7), None);
    assert_eq!(HashKind::from_str("blake2b"), Ok(HashKind::Blake2b));
    assert!(HashKind::from_str("sha256").is_err());
    assert_eq!(HashKind::default(), HashKind::Blake2b);
}

#[test]
fn binary_roundtrip() {
    let hash = chasset::digest::Hash::Blake2b([0xCD; 25]);
    let bin = hash.to_binary();
    assert_eq!(bin.len(), 27);
    assert_eq!(&bin[0..2], &[0, 0]);
    assert_eq!(&bin[2..], &[0xCD; 25][..]);
    let back = chasset::digest::Hash::from_binary(&bin).unwrap();
    assert_eq!(back, hash);
}

#[test]
fn binary_rejects() {
    assert!(chasset::digest::Hash::from_binary(&[]).is_none());
    assert!(chasset::digest::Hash::from_binary(&[0]).is_none());
    // unknown algorithm id
    let mut bad = vec![1u8, 0u8];
    bad.extend_from_slice(&[0u8; 25]);
    assert!(chasset::digest::Hash::from_binary(&bad).is_none());
    // payload too short for the id
    assert!(chasset::digest::Hash::from_binary(&[0, 0, 1, 2, 3]).is_none());
}

#[test]
fn base32_exact() {
    let enc = chasset::base32::base32_encode(b"hello");
    assert_eq!(enc, b"NBSWY3DP".to_vec());
    let dec = chasset::base32::base32_decode("NBSWY3DP").unwrap();
    assert_eq!(dec, b"hello".to_vec());
    assert!(chasset::base32::base32_decode("NBSWY3D").is_none());
    assert!(chasset::base32::base32_decode("nbswy3dp").is_none());
}

#[test]
fn content_map() {
    let h1 = chasset::digest::Hash::Blake2b([1; 25]);
    let h2 = chasset::digest::Hash::Blake2b([2; 25]);
    let mut m: chasset::ContentMap<u32> = chasset::ContentMap::new();
    assert!(m.get(&h1).is_none());
    m.insert(h1, 10);
    m.insert(h2, 20);
    assert_eq!(m.get(&h1), Some(&10));
    assert_eq!(m.get(&h2), Some(&20));
    m.insert(h1, 11);
    assert_eq!(m.get(&h1), Some(&11));
    assert!(m.contains_key(&h2));
}

#[test]
fn identity_hasher() {
    let mut h = chasset::IdentityHasher::new(0);
    h.write_u64(0x1234);
    assert_eq!(h.finish(), 0x1234);
    h.write_u64(0x1234);
    assert_eq!(h.finish(), 0);
    let mut h2 = chasset::IdentityHasher::default();
    h2.write(&[0x01, 0x02]);
    assert_eq!(h2.finish(), 0x0201);
}
