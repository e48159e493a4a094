use ninemm::persist::{
    as_bytes, bytes_to_u16_vec, check_bytes, hash_text, is_solved, mmap_subspace_verified, new_entry,
    read_subspace_verified, subspace_path, xxh3_of, Manifest, ManifestEntry, PersistError,
};

fn mapped(bytes: &[u8]) -> memmap2::Mmap {
    let mut m = memmap2::MmapMut::map_anon(bytes.len()).unwrap();
    m.copy_from_slice(bytes);
    m.make_read_only().unwrap()
}

#[test]
fn write_read_roundtrip() {
    let data: Vec<u16> = (0..1000).map(|i| (i * 37 % 65535) as u16).collect();
    let entry = new_entry(4, 3, &data, 0);
    let file = as_bytes(&data);
    assert_eq!(entry.size, 1000);

    let back = bytes_to_u16_vec(&file).unwrap();
    assert_eq!(back, data);

    let mut manifest = Manifest::default();
    manifest.upsert(entry);
    let verified = read_subspace_verified(&manifest, 4, 3, &file).unwrap();
    assert_eq!(verified, data);

    assert!(is_solved(&manifest, 4, 3, Some(&file)));
    assert!(!is_solved(&manifest, 5, 3, None));
}

#[test]
fn checksum_mismatch_detected() {
    let data: Vec<u16> = vec![1, 2, 3, 4];
    let mut entry = new_entry(3, 3, &data, 0);
    entry.xxh3 = "deadbeefdeadbeef".to_string(); // corrupt the manifest's checksum
    let mut manifest = Manifest::default();
    manifest.upsert(entry);
    let file = as_bytes(&data);
    assert!(read_subspace_verified(&manifest, 3, 3, &file).is_err());
    match read_subspace_verified(&manifest, 3, 3, &file) {
        Err(PersistError::ChecksumMismatch(actual, expected)) => {
            assert_eq!(actual, xxh3_of(&data));
            assert_eq!(expected, "deadbeefdeadbeef");
        },
        other => panic!("expected a checksum mismatch, got {other:?}"),
    }
}

#[test]
fn each_thing_that_can_be_wrong_with_a_file() {
    let data: Vec<u16> = vec![1, 2, 3, 4];
    let mut manifest = Manifest::default();
    assert!(matches!(read_subspace_verified(&manifest, 3, 3, &as_bytes(&data)), Err(PersistError::NoEntry)));
    manifest.upsert(new_entry(3, 3, &data, 0));
    assert!(matches!(read_subspace_verified(&manifest, 3, 3, &[1, 2, 3]), Err(PersistError::OddLength(3))));
    assert!(matches!(read_subspace_verified(&manifest, 3, 3, &[1, 2]), Err(PersistError::SizeMismatch(1, 4))));
    assert!(matches!(
        read_subspace_verified(&manifest, 3, 3, &[1, 0, 2, 0, 3, 0, 4, 1]),
        Err(PersistError::ChecksumMismatch(_, _))
    ));
    assert!(matches!(bytes_to_u16_vec(&[1, 2, 3]), Err(PersistError::OddLength(3))));
}

#[test]
fn bytes_are_little_endian() {
    assert_eq!(as_bytes(&vec![0x0102, 0xfffe]), vec![0x02, 0x01, 0xfe, 0xff]);
    assert_eq!(bytes_to_u16_vec(&[0x02, 0x01, 0xfe, 0xff]).unwrap(), vec![0x0102, 0xfffe]);
}

#[test]
fn checksums_are_sixteen_hex_digits() {
    assert_eq!(hash_text(0xabc), "0000000000000abc");
    // XXH3 of no bytes at all.
    assert_eq!(xxh3_of(&vec![]), "2d06800538d394c2");
    let data: Vec<u16> = vec![7, 8, 9];
    let want = xxhash_rust::xxh3::xxh3_64(&as_bytes(&data));
    assert_eq!(xxh3_of(&data), format!("{want:016x}"));
}

#[test]
fn mapped_files_are_checked_too() {
    let data: Vec<u16> = vec![10, 20, 30];
    let mut manifest = Manifest::default();
    manifest.upsert(new_entry(5, 4, &data, 0));
    assert!(mmap_subspace_verified(&manifest, 5, 4, &mapped(&as_bytes(&data))).is_ok());
    assert!(matches!(
        mmap_subspace_verified(&manifest, 4, 5, &mapped(&as_bytes(&data))),
        Err(PersistError::NoEntry)
    ));
    assert!(matches!(
        mmap_subspace_verified(&manifest, 5, 4, &mapped(&as_bytes(&vec![10, 20, 31]))),
        Err(PersistError::ChecksumMismatch(_, _))
    ));
    assert!(matches!(
        mmap_subspace_verified(&manifest, 5, 4, &mapped(&as_bytes(&vec![10, 20]))),
        Err(PersistError::SizeMismatch(2, 3))
    ));
}

#[test]
fn upserting_replaces_and_moves_to_the_end() {
    let mut m = Manifest::default();
    assert!(m.find(3, 3).is_none());
    for (w, b, size) in [(3, 3, 1), (4, 3, 2), (3, 3, 5)] {
        m.upsert(ManifestEntry { w, b, size, xxh3: String::new(), solved_at_unix: 0 });
    }
    assert_eq!(m.entries.len(), 2);
    assert_eq!(m.find(3, 3).unwrap().size, 5);
    assert_eq!(m.find(4, 3).unwrap().size, 2);
    assert_eq!(m.entries[1].size, 5);
    assert!(m.find(3, 4).is_none());
}

#[test]
fn file_names() {
    assert_eq!(subspace_path(3, 9), "wdl_3_9.bin");
}

#[test]
fn solved_needs_the_right_contents() {
    let mut m = Manifest::default();
    let data = vec![1, 2, 3];
    m.upsert(new_entry(3, 4, &data, 0));
    let file = as_bytes(&data);
    assert!(is_solved(&m, 3, 4, Some(&file)));
    assert!(!is_solved(&m, 3, 4, Some(&file[..5])));
    assert!(!is_solved(&m, 3, 4, Some(&as_bytes(&vec![1, 2, 4]))));
    assert!(!is_solved(&m, 3, 4, None));
    assert!(!is_solved(&m, 4, 3, Some(&file)));
}

#[test]
fn checks_on_a_length_and_a_hash() {
    let e = new_entry(3, 3, &vec![1], 0);
    let hash = xxhash_rust::xxh3::xxh3_64(&[1, 0]);
    assert!(check_bytes(&e, 2, hash).is_ok());
    assert!(matches!(check_bytes(&e, 1, hash), Err(PersistError::OddLength(1))));
    assert!(matches!(check_bytes(&e, 4, hash), Err(PersistError::SizeMismatch(2, 1))));
    assert!(matches!(check_bytes(&e, 2, hash ^ 1), Err(PersistError::ChecksumMismatch(_, _))));
}
