use chasset::hashing::Hasher;
use chasset::loose_files::{digest_from_path, path_for, temp_name, LooseFiles};
use chasset::HashKind;

const HELLO_STR: &str = "blake2b:2PNTHHAIW2PCX3VYILUCO77OUZW535JSOPJV7AGB";
const EMPTY_STR: &str = "blake2b:SQLFXPT2RIHUT6WYYGZZYQFX3VQTICJXRXGEO2A7";

#[test]
fn hasher_known_digests() {
    let mut h = Hasher::new(HashKind::Blake2b);
    h.process(b"hello");
    let d = h.result();
    assert_eq!(d.to_string(), HELLO_STR);

    let empty = Hasher::new(HashKind::Blake2b).result();
    assert_eq!(empty.to_string(), EMPTY_STR);
}

#[test]
fn hasher_incremental_matches_oneshot() {
    let mut a = Hasher::new(HashKind::Blake2b);
    a.process(b"he");
    a.process(b"l");
    a.process(b"lo");
    let mut b = Hasher::new(HashKind::Blake2b);
    b.process(b"hello");
    assert_eq!(a.result(), b.result());
}

#[test]
fn hasher_order_sensitive() {
    let mut a = Hasher::new(HashKind::Blake2b);
    a.process(b"ab");
    let mut b = Hasher::new(HashKind::Blake2b);
    b.process(b"ba");
    assert_ne!(a.result(), b.result());
}

#[test]
fn writer_idempotent_commit() {
    // Two writers fed the same bytes commit the same digest under the same
    // path; staging twice cannot corrupt the first commit.
    let store = LooseFiles::open("base".to_string());
    let mut w1 = store.stage(0x1111);
    let mut w2 = store.stage(0x2222);
    w1.write(b"same content", 12);
    w2.write(b"same content", 12);
    let (d1, p1) = w1.store();
    let (d2, p2) = w2.store();
    assert_eq!(d1, d2);
    assert_eq!(p1, p2);
}

#[test]
fn writer_counts_only_written_prefix() {
    // A short write feeds only the durable prefix into the digest.
    let store = LooseFiles::open("base".to_string());
    let mut w1 = store.stage(1);
    w1.write(b"hello, world", 5);
    let (d1, _) = w1.store();
    let mut h = Hasher::new(HashKind::Blake2b);
    h.process(b"hello");
    assert_eq!(d1, h.result());
}

#[test]
fn storage_path_layout() {
    let hash = chasset::digest::Hash::Blake2b([0xAB; 25]);
    let p = path_for("base", &hash);
    assert_eq!(p, "base/blake2b/VO/V2XK5LVOV2XK5LVOV2XK5LVOV2XK5LVOV2XK5L");
    let store = LooseFiles::open("base".to_string());
    assert_eq!(store.asset_path(&hash), p);
}

#[test]
fn temp_names_match_hex() {
    for x in [0u64, 1, 0xDEADBEEF, 0xFFFF_FFFF, 0x1_0000_0000, u64::MAX] {
        assert_eq!(temp_name(x), format!("{:08X}", x));
    }
}

#[test]
fn temp_path_never_a_storage_path() {
    // The staging area and the committed tree never share a path, so a
    // reader can never see a partial write under a committed path, and an
    // abandoned temp file is identifiable by its location alone.
    let store = LooseFiles::open("base".to_string());
    let hash = chasset::digest::Hash::Blake2b([0xAB; 25]);
    let committed = store.asset_path(&hash);
    for x in [0u64, 0xAB, u64::MAX] {
        assert_ne!(store.temp_path(x), committed);
    }
}

#[test]
fn list_parses_committed_paths() {
    // What a directory walk finds under a committed path parses back to the
    // digest that named it.
    let hash = chasset::digest::Hash::Blake2b([0xAB; 25]);
    let parsed = digest_from_path(
        "blake2b",
        "VO",
        "V2XK5LVOV2XK5LVOV2XK5LVOV2XK5LVOV2XK5L",
    )
    .unwrap();
    assert_eq!(parsed, hash);
    assert!(digest_from_path("sha9000", "VO", "V2XK5L").is_none());
    assert!(digest_from_path("blake2b", "VO", "tooshort").is_none());
}

#[test]
fn put_pipeline_names_hello_digest() {
    // The stage/write/commit pipeline on b"hello" commits under the path of
    // the digest of b"hello".
    let store = LooseFiles::open("/tmp/assets".to_string());
    let mut w = store.stage(7);
    w.write(b"hello", 5);
    let (d, dest) = w.store();
    assert_eq!(d.to_string(), HELLO_STR);
    assert_eq!(
        dest,
        "/tmp/assets/blake2b/2P/NTHHAIW2PCX3VYILUCO77OUZW535JSOPJV7AGB"
    );
}
