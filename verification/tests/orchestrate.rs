use ninemm::index::{build_index_tables, subspace_size, SubspaceId};
use ninemm::orchestrate::{dependencies, pairs_to_solve, register, solve_on, tally, Run, Scan};
use ninemm::persist::{as_bytes, is_solved, read_subspace_verified, Manifest};
use ninemm::retro::{solve_pair, Database, DRAW};
use ninemm::verify::{Mismatch, PairVerifyReport};
use std::collections::HashMap;

type Files = HashMap<(usize, usize), Vec<u8>>;

fn solve_all(files: &mut Files, manifest: Manifest, max_total: Option<usize>) -> (Manifest, usize) {
    let mut run = Run::new(manifest, max_total);
    let mut solved = 0;
    while let Some((a, b)) = run.current() {
        let file = |w: usize, b: usize| files.get(&(w, b)).map(|f| f.as_slice());
        if run.skip_if_done(file(a, b), file(b, a)) {
            continue;
        }
        let values = dependencies(a, b)
            .into_iter()
            .map(|(w, b)| read_subspace_verified(run.manifest(), w, b, &files[&(w, b)]).unwrap())
            .collect();
        let result = solve_on(a, b, values).unwrap();
        files.insert((a, b), as_bytes(&result.val_ab));
        files.insert((b, a), as_bytes(&result.val_ba));
        run.record(&result, 7, 8);
        solved += 1;
    }
    (Manifest { entries: run.manifest().entries.clone() }, solved)
}

fn file(files: &Files, w: usize, b: usize) -> Option<&[u8]> {
    files.get(&(w, b)).map(|f| f.as_slice())
}

#[test]
fn solve_all_up_to_3_3_produces_expected_file() {
    let mut files = Files::new();
    // Only the {3,3} pair has total 6.
    let (manifest, _) = solve_all(&mut files, Manifest::default(), Some(6));
    assert!(is_solved(&manifest, 3, 3, file(&files, 3, 3)));
    let data = read_subspace_verified(&manifest, 3, 3, &files[&(3, 3)]).unwrap();
    let tables = build_index_tables();
    assert_eq!(data.len(), subspace_size(&tables, SubspaceId::new(3, 3)) as usize);
}

#[test]
fn solve_all_is_resumable() {
    let mut files = Files::new();
    let (manifest, first) = solve_all(&mut files, Manifest::default(), Some(6));
    assert_eq!(first, 1);
    // A second run skips what is there.
    let (manifest, second) = solve_all(&mut files, manifest, Some(6));
    assert_eq!(second, 0);
    assert!(is_solved(&manifest, 3, 3, file(&files, 3, 3)));
}

#[test]
fn a_truncated_file_is_solved_again() {
    let mut files = Files::new();
    let (manifest, _) = solve_all(&mut files, Manifest::default(), Some(6));
    files.get_mut(&(3, 3)).unwrap().truncate(100);
    assert!(!is_solved(&manifest, 3, 3, file(&files, 3, 3)));
    let (_, again) = solve_all(&mut files, manifest, Some(6));
    assert_eq!(again, 1);
}

#[test]
fn a_corrupted_file_is_solved_again() {
    let mut files = Files::new();
    let (manifest, _) = solve_all(&mut files, Manifest::default(), Some(6));
    let good = files[&(3, 3)].clone();
    files.get_mut(&(3, 3)).unwrap()[100] ^= 1;
    assert!(!is_solved(&manifest, 3, 3, file(&files, 3, 3)));
    let (_, again) = solve_all(&mut files, manifest, Some(6));
    assert_eq!(again, 1);
    assert_eq!(files[&(3, 3)], good);
}

#[test]
fn a_second_run_changes_nothing() {
    let mut files = Files::new();
    let (manifest, _) = solve_all(&mut files, Manifest::default(), Some(7));
    let before: Vec<(u8, u8, u64, String)> =
        manifest.entries.iter().map(|e| (e.w, e.b, e.size, e.xxh3.clone())).collect();
    let tables = build_index_tables();
    for &(w, b) in &[(3, 3), (3, 4), (4, 3)] {
        let data = read_subspace_verified(&manifest, w, b, &files[&(w, b)]).unwrap();
        assert_eq!(data.len() as u64, subspace_size(&tables, SubspaceId::new(w, b)));
    }
    assert_eq!(before.len(), 3);
    let copy = files.clone();
    let (manifest, solved) = solve_all(&mut files, manifest, Some(7));
    assert_eq!(solved, 0);
    assert_eq!(files, copy);
    let after: Vec<(u8, u8, u64, String)> =
        manifest.entries.iter().map(|e| (e.w, e.b, e.size, e.xxh3.clone())).collect();
    assert_eq!(after, before);
}

#[test]
fn limits_cut_the_order_off() {
    assert_eq!(pairs_to_solve(Some(5)), vec![]);
    assert_eq!(pairs_to_solve(Some(8)), vec![(3, 3), (3, 4), (3, 5), (4, 4)]);
    assert_eq!(pairs_to_solve(None).len(), 28);
    assert_eq!(pairs_to_solve(Some(18)).len(), 28);
}

#[test]
fn dependencies_of_pairs() {
    assert_eq!(dependencies(3, 3), vec![]);
    assert_eq!(dependencies(3, 4), vec![(3, 3)]);
    assert_eq!(dependencies(4, 4), vec![(3, 4), (3, 4)]);
    assert_eq!(dependencies(4, 6), vec![(5, 4), (3, 6)]);
}

#[test]
fn every_dependency_is_of_an_earlier_pair() {
    let order = pairs_to_solve(None);
    for (i, &(a, b)) in order.iter().enumerate() {
        for (w, v) in dependencies(a, b) {
            assert!(order[..i].iter().any(|&p| p == (w, v) || p == (v, w)));
        }
    }
}

#[test]
fn registering_makes_values_available() {
    let r33 = solve_on(3, 3, vec![]).unwrap();
    let same = solve_pair(3, 3, &Database::new()).unwrap();
    assert_eq!(r33.val_ab, same.val_ab);
    let n = r33.val_ab.len();
    let db = register(3, 4, vec![r33.val_ab]);
    assert!(db.has(3, 3));
    assert!(db.is_covered(SubspaceId::new(3, 3)));
    assert!(!db.has(3, 4));
    assert_eq!(db.get(SubspaceId::new(3, 3), n as u64 - 1), same.val_ab[n - 1]);
}

#[test]
fn manifest_entries_of_a_pair() {
    let mut files = Files::new();
    let (manifest, _) = solve_all(&mut files, Manifest::default(), Some(7));
    let entries: Vec<(u8, u8, u64)> = manifest.entries.iter().map(|e| (e.w, e.b, e.solved_at_unix)).collect();
    assert_eq!(entries, vec![(3, 3, 7), (3, 4, 7), (4, 3, 8)]);
}

#[test]
fn tallies_count_every_value() {
    assert_eq!(tally(&vec![0, 1, 3, DRAW, 2, DRAW, DRAW]), (2, 2, 3));
    assert_eq!(tally(&vec![]), (0, 0, 0));
}

#[test]
fn a_scan_ends_at_the_first_pair_that_is_not_solved() {
    let mut scan = Scan::new();
    assert_eq!(scan.current(), Some((3, 3)));
    assert!(!scan.go_on_if_done(&Manifest::default(), None, None));
    assert_eq!(scan.current(), None);
    assert!(scan.reports().is_empty());
}

#[test]
fn a_scan_ends_at_the_first_inconsistency() {
    let mut scan = Scan::new();
    scan.add_report(PairVerifyReport { a: 3, b: 3, checked: 5, mismatches: vec![] });
    assert_eq!(scan.current(), Some((3, 4)));
    let wrong = Mismatch { idx: 1, stored: 2, expected: 3 };
    scan.add_report(PairVerifyReport { a: 3, b: 4, checked: 5, mismatches: vec![wrong] });
    assert_eq!(scan.current(), None);
    assert_eq!(scan.reports().len(), 2);
}
