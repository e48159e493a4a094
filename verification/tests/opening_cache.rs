use ninemm::opening::{Bound, Tt};
use ninemm::byte_order::{order_of, push_u64, read_u64, ByteOrder};
use ninemm::opening_cache::{
    db_fingerprint, fingerprint_source, frame, load_or_empty, pack_key, pack_value, parse_cache, parse_cache_in,
    parse_with, unpack_key, unpack_value, write_cache, write_cache_in, ParseOutcome, CACHE_FILENAME, ENTRY_LEN,
    HEADER_LEN,
};
use ninemm::persist::{Manifest, ManifestEntry};
use ninemm::pos::Position;

fn manifest_with(entries: &[(u8, u8, &str)]) -> Manifest {
    let mut m = Manifest::default();
    for &(w, b, xxh3) in entries {
        m.upsert(ManifestEntry { w, b, size: 1, xxh3: xxh3.to_string(), solved_at_unix: 0 });
    }
    m
}

fn contents(tt: &Tt) -> Vec<((u64, u8, u8), (i8, Bound))> {
    let mut v: Vec<_> = tt.keys().into_iter().map(|k| ((k.0 .0, k.1, k.2), tt.get(&k).unwrap())).collect();
    v.sort_by_key(|e| e.0);
    v
}

fn native() -> ByteOrder {
    order_of(&1u16.to_ne_bytes())
}

fn header(fingerprint: u64, n: u64, hash: u64) -> Vec<u8> {
    let mut buf = Vec::new();
    buf.extend_from_slice(b"NMMOPEN1");
    buf.extend_from_slice(&fingerprint.to_ne_bytes());
    buf.extend_from_slice(&n.to_ne_bytes());
    buf.extend_from_slice(&hash.to_ne_bytes());
    buf
}

#[test]
fn round_trip() {
    let manifest = manifest_with(&[(3, 3, "aaaa"), (3, 4, "bbbb")]);
    let fp = db_fingerprint(&manifest);

    let mut tt = Tt::new();
    tt.insert((Position::new(1, 2), 3, 4), (-1, Bound::Exact));
    tt.insert((Position::new(4, 8), 5, 2), (0, Bound::Exact));
    tt.insert((Position::new(16, 32), 9, 9), (1, Bound::Exact));
    tt.insert((Position::new(64, 128), 0, 1), (0, Bound::Lower));
    tt.insert((Position::new(256, 512), 2, 0), (0, Bound::Upper));

    let (bytes, written) = write_cache(fp, &tt, 0);
    assert_eq!(written, 5);
    assert!(bytes.len() > 0);

    let loaded = load_or_empty(Some(&bytes), &manifest);
    assert_eq!(contents(&loaded), contents(&tt));

    // Raw bytes are sorted ascending by key.
    let payload = &bytes[HEADER_LEN..];
    let mut prev: Option<u64> = None;
    for chunk in payload.chunks_exact(ENTRY_LEN) {
        let key = u64::from_ne_bytes(chunk[0..8].try_into().unwrap());
        if let Some(p) = prev {
            assert!(key > p, "entries must be strictly ascending");
        }
        prev = Some(key);
    }
}

#[test]
fn threshold_filter() {
    let manifest = manifest_with(&[(3, 3, "aaaa")]);
    let fp = db_fingerprint(&manifest);

    let mut tt = Tt::new();
    tt.insert((Position::new(1, 2), 1, 1), (0, Bound::Exact)); // sum 2, below
    tt.insert((Position::new(4, 8), 5, 5), (0, Bound::Exact)); // sum 10, at or above

    let (bytes, written) = write_cache(fp, &tt, 10);
    assert_eq!(written, 1);
    let loaded = load_or_empty(Some(&bytes), &manifest);
    assert_eq!(loaded.len(), 1);
    assert!(loaded.contains_key(&(Position::new(4, 8), 5, 5)));
    assert!(!loaded.contains_key(&(Position::new(1, 2), 1, 1)));
}

#[test]
fn missing_file_is_empty() {
    let manifest = manifest_with(&[(3, 3, "aaaa")]);
    let loaded = load_or_empty(None, &manifest);
    assert!(loaded.is_empty());
}

#[test]
fn corrupted_payload_is_rejected() {
    let manifest = manifest_with(&[(3, 3, "aaaa")]);
    let fp = db_fingerprint(&manifest);

    let mut tt = Tt::new();
    tt.insert((Position::new(1, 2), 1, 1), (0, Bound::Exact));
    let (mut bytes, _) = write_cache(fp, &tt, 0);
    let last = bytes.len() - 1;
    bytes[last] ^= 0xFF; // flip a byte inside the single entry

    let loaded = load_or_empty(Some(&bytes), &manifest);
    assert!(loaded.is_empty());
}

#[test]
fn invalid_value_byte_with_correct_checksum_is_rejected() {
    let manifest = manifest_with(&[(3, 3, "aaaa")]);
    let fp = db_fingerprint(&manifest);

    let key = pack_key(Position::new(1, 2), 1, 1);
    let mut payload = Vec::new();
    payload.extend_from_slice(&key.to_ne_bytes());
    payload.push(7); // not a legal packed value
    let checksum = xxhash_rust::xxh3::xxh3_64(&payload);

    let mut buf = header(fp, 1, checksum);
    buf.extend_from_slice(&payload);

    let loaded = load_or_empty(Some(&buf), &manifest);
    assert!(loaded.is_empty());
    assert!(matches!(parse_cache(&buf, &manifest), ParseOutcome::Corrupt(_)));
}

#[test]
fn truncated_and_bad_magic_are_rejected() {
    let manifest = manifest_with(&[(3, 3, "aaaa")]);
    assert!(load_or_empty(Some(b"short"), &manifest).is_empty());

    let mut bad_magic = vec![0u8; HEADER_LEN];
    bad_magic[0..8].copy_from_slice(b"NOTAMAGC");
    assert!(load_or_empty(Some(&bad_magic), &manifest).is_empty());
}

#[test]
fn staleness_is_detected() {
    let manifest_a = manifest_with(&[(3, 3, "aaaa")]);
    let manifest_b = manifest_with(&[(3, 3, "bbbb")]); // different checksum content
    assert_ne!(db_fingerprint(&manifest_a), db_fingerprint(&manifest_b));

    let mut tt = Tt::new();
    tt.insert((Position::new(1, 2), 1, 1), (0, Bound::Exact));
    let (bytes, _) = write_cache(db_fingerprint(&manifest_a), &tt, 0);

    assert!(!load_or_empty(Some(&bytes), &manifest_a).is_empty());
    assert!(load_or_empty(Some(&bytes), &manifest_b).is_empty());
    assert!(matches!(parse_cache(&bytes, &manifest_b), ParseOutcome::Stale));
}

#[test]
fn fingerprint_is_order_independent() {
    let a = manifest_with(&[(3, 3, "aaaa"), (3, 4, "bbbb"), (4, 3, "cccc")]);
    let b = manifest_with(&[(4, 3, "cccc"), (3, 3, "aaaa"), (3, 4, "bbbb")]);
    assert_eq!(db_fingerprint(&a), db_fingerprint(&b));
}

#[test]
fn fingerprint_hashes_the_sorted_entries() {
    let m = manifest_with(&[(3, 4, "bbbb"), (3, 3, "aaaa")]);
    let text = fingerprint_source(&m);
    assert!(text.find("aaaa").unwrap() < text.find("bbbb").unwrap());
    assert_eq!(db_fingerprint(&m), xxhash_rust::xxh3::xxh3_64(text.as_bytes()));
}

#[test]
fn fingerprint_does_not_look_at_times() {
    let mut a = manifest_with(&[(3, 3, "aaaa")]);
    let before = db_fingerprint(&a);
    a.entries[0].solved_at_unix = 1_700_000_000;
    assert_eq!(db_fingerprint(&a), before);
}

#[test]
fn framing_writes_the_header() {
    let bytes = frame(native(), 0x0102, 3, 0xfeed, &vec![9, 8]);
    let mut want = header(0x0102, 3, 0xfeed);
    want.extend_from_slice(&[9, 8]);
    assert_eq!(bytes, want);
    assert_eq!(HEADER_LEN, 32);
    assert_eq!(ENTRY_LEN, 9);
    assert_eq!(CACHE_FILENAME, "opening_cache.bin");
}

#[test]
fn wrong_lengths_are_corrupt() {
    let mut tt = Tt::new();
    tt.insert((Position::new(1, 2), 1, 1), (0, Bound::Exact));
    let (bytes, _) = write_cache(5, &tt, 0);
    let hash = xxhash_rust::xxh3::xxh3_64(&bytes[HEADER_LEN..]);
    assert!(matches!(parse_with(native(), &bytes, 5, hash), ParseOutcome::Loaded(_)));
    assert!(matches!(parse_with(native(), &bytes[..bytes.len() - 1], 5, hash), ParseOutcome::Corrupt(_)));
    assert!(matches!(parse_with(native(), &bytes, 5, hash ^ 1), ParseOutcome::Corrupt(_)));
    assert!(matches!(parse_with(native(), &bytes, 6, hash), ParseOutcome::Stale));
}

#[test]
fn keys_and_values_round_trip() {
    let keys = [(Position::new(1, 2), 0, 9), (Position::new(0xff_0000, 0xffff), 9, 0), (Position::new(0, 0), 9, 9)];
    for (p, m, o) in keys {
        assert_eq!(unpack_key(pack_key(p, m, o)), Some((p, m, o)));
    }
    for (v, b) in [
        (-1, Bound::Exact),
        (0, Bound::Exact),
        (1, Bound::Exact),
        (0, Bound::Lower),
        (0, Bound::Upper),
    ] {
        assert_eq!(unpack_value(pack_value(v, b)), Some((v, b)));
    }
    assert_eq!(unpack_value(7), None);
    assert_eq!(unpack_key(u64::MAX), None);
}

#[test]
fn numbers_in_either_order() {
    let n = 0x0102_0304_0506_0708u64;
    let mut little = vec![9];
    push_u64(&mut little, ByteOrder::Little, n);
    assert_eq!(little, [9, 8, 7, 6, 5, 4, 3, 2, 1]);
    let mut big = vec![9];
    push_u64(&mut big, ByteOrder::Big, n);
    assert_eq!(big, [9, 1, 2, 3, 4, 5, 6, 7, 8]);
    assert_eq!(read_u64(ByteOrder::Little, &little, 1), n);
    assert_eq!(read_u64(ByteOrder::Big, &big, 1), n);
    assert_eq!(read_u64(ByteOrder::Big, &little, 1), n.swap_bytes());
    assert_eq!(order_of(&[1, 0]), ByteOrder::Little);
    assert_eq!(order_of(&[0, 1]), ByteOrder::Big);
}

#[test]
fn caches_are_written_in_the_order_of_the_machine() {
    let manifest = manifest_with(&[(3, 3, "aaaa")]);
    let fp = db_fingerprint(&manifest);
    let mut tt = Tt::new();
    tt.insert((Position::new(1, 2), 1, 2), (1, Bound::Exact));
    let (bytes, _) = write_cache(fp, &tt, 0);
    assert_eq!(bytes[8..16], fp.to_ne_bytes());
    assert_eq!(bytes[16..24], 1u64.to_ne_bytes());
    assert_eq!(bytes, write_cache_in(native(), fp, &tt, 0).0);
    for order in [ByteOrder::Little, ByteOrder::Big] {
        let (bytes, n) = write_cache_in(order, fp, &tt, 0);
        assert_eq!(n, 1);
        match parse_cache_in(order, &bytes, &manifest) {
            ParseOutcome::Loaded(back) => assert_eq!(contents(&back), contents(&tt)),
            _ => panic!("a cache does not read back"),
        }
    }
}
