use ninemm::index::SubspaceId;
use ninemm::loading::{describe_missing, missing_subspaces, Loading};
use ninemm::persist::{as_bytes, new_entry, Manifest, PersistError};
use ninemm::server::is_ready;

fn mapped(bytes: &[u8]) -> memmap2::Mmap {
    let mut m = memmap2::MmapMut::map_anon(bytes.len()).unwrap();
    m.copy_from_slice(bytes);
    m.make_read_only().unwrap()
}

#[test]
fn nothing_is_loaded_from_an_incomplete_manifest() {
    let mut m = Manifest::default();
    m.upsert(new_entry(3, 3, &vec![1], 0));
    match Loading::start(m, false) {
        Err(missing) => {
            assert_eq!(missing.len(), 48);
            assert_eq!(missing[0], (3, 4));
            assert_eq!(missing[47], (9, 9));
        },
        Ok(_) => panic!("an incomplete database was accepted"),
    }
}

#[test]
fn a_partial_database_is_loaded_where_that_is_allowed() {
    let (one, two) = (vec![1u16, 0xffff, 3], vec![7u16]);
    let mut m = Manifest::default();
    m.upsert(new_entry(3, 3, &one, 0));
    m.upsert(new_entry(4, 3, &two, 0));
    let mut l = Loading::start(m, true).ok().unwrap();
    assert_eq!(l.wanted(), Some((3, 3)));
    l.supply_map(mapped(&as_bytes(&one))).unwrap();
    assert_eq!(l.wanted(), Some((4, 3)));
    l.supply_bytes(&as_bytes(&two)).unwrap();
    assert_eq!(l.wanted(), None);
    let loaded = l.finish();
    assert!(!loaded.complete);
    assert_eq!(loaded.subspaces, 2);
    assert_eq!(loaded.manifest.entries.len(), 2);
    assert!(loaded.db.has(3, 3) && loaded.db.has(4, 3) && !loaded.db.has(3, 4));
    assert_eq!(loaded.db.get(SubspaceId::new(3, 3), 1), 0xffff);
    assert_eq!(loaded.db.get(SubspaceId::new(3, 3), 2), 3);
    assert_eq!(loaded.db.get(SubspaceId::new(4, 3), 0), 7);
    // Neither has a value for each of its slots.
    assert!(!loaded.db.is_covered(SubspaceId::new(3, 3)));
    assert!(!is_ready(&loaded.db, false));
}

#[test]
fn a_file_that_disagrees_is_refused() {
    let mut m = Manifest::default();
    m.upsert(new_entry(3, 3, &vec![1, 2], 0));
    let mut l = Loading::start(m, true).ok().unwrap();
    assert!(matches!(l.supply_map(mapped(&as_bytes(&vec![1, 3]))), Err(PersistError::ChecksumMismatch(_, _))));
    assert!(matches!(l.supply_bytes(&[1]), Err(PersistError::OddLength(1))));
    assert_eq!(l.wanted(), Some((3, 3)));
    assert!(l.supply_bytes(&as_bytes(&vec![1, 2])).is_ok());
}

#[test]
fn a_full_manifest_is_complete() {
    let mut m = Manifest::default();
    for w in 3..=9 {
        for b in 3..=9 {
            m.upsert(new_entry(w, b, &vec![w as u16, b as u16], 0));
        }
    }
    assert!(missing_subspaces(&m).is_empty());
    let mut l = Loading::start(m, false).ok().unwrap();
    while let Some((w, b)) = l.wanted() {
        l.supply_bytes(&as_bytes(&vec![w as u16, b as u16])).unwrap();
    }
    let loaded = l.finish();
    assert!(loaded.complete);
    assert_eq!(loaded.subspaces, 49);
    assert!((3..=9).all(|w| (3..=9).all(|b| loaded.db.has(w, b))));
}

#[test]
fn what_is_missing_in_words() {
    let missing = vec![(3, 4), (3, 5), (3, 6), (3, 7), (3, 8), (3, 9)];
    assert_eq!(
        describe_missing("db", &missing),
        "database at db is incomplete (6 of 49 subspaces missing, e.g. [(3, 4), (3, 5), (3, 6), (3, 7), (3, 8)])"
    );
    assert_eq!(
        describe_missing("x", &vec![(9, 9)]),
        "database at x is incomplete (1 of 49 subspaces missing, e.g. [(9, 9)])"
    );
}
