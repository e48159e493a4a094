use ninemm::index::{build_index_tables, SubspaceId};
use ninemm::orchestrate::{dependencies, register, solve_on, Run, Scan};
use ninemm::persist::{as_bytes, read_subspace_verified, Manifest};
use ninemm::retro::{Database, DRAW};
use ninemm::verify::{expected_value, tally, verify_pair, PairVerifyReport};
use ninemm::pos::Position;
use std::collections::HashMap;

type Files = HashMap<(usize, usize), Vec<u8>>;

fn solve_all(files: &mut Files, max_total: Option<usize>) -> Manifest {
    let mut run = Run::new(Manifest::default(), max_total);
    while let Some((a, b)) = run.current() {
        let result = solve_on(a, b, load(files, run.manifest(), &dependencies(a, b))).unwrap();
        files.insert((a, b), as_bytes(&result.val_ab));
        files.insert((b, a), as_bytes(&result.val_ba));
        run.record(&result, 0, 0);
    }
    Manifest { entries: run.manifest().entries.clone() }
}

fn load(files: &Files, manifest: &Manifest, subs: &[(usize, usize)]) -> Vec<Vec<u16>> {
    subs.iter().map(|&(w, b)| read_subspace_verified(manifest, w, b, &files[&(w, b)]).unwrap()).collect()
}

fn verify_all(files: &Files, manifest: &Manifest) -> Vec<PairVerifyReport> {
    let mut scan = Scan::new();
    while let Some((a, b)) = scan.current() {
        let file = |w: usize, b: usize| files.get(&(w, b)).map(|f| f.as_slice());
        if !scan.go_on_if_done(manifest, file(a, b), file(b, a)) {
            break;
        }
        let own = load(files, manifest, &[(a, b), (b, a)]);
        let db = register(a, b, load(files, manifest, &dependencies(a, b)));
        scan.add_report(verify_pair(a, b, &own[0], &own[1], &db));
    }
    scan.reports()
}

#[test]
fn verify_matches_freshly_solved_3_3_and_4_3() {
    let mut files = Files::new();
    let manifest = solve_all(&mut files, Some(7)); // {3,3} and {3,4}/{4,3}

    let reports = verify_all(&files, &manifest);
    assert!(!reports.is_empty());
    assert_eq!(reports.len(), 2);
    for r in &reports {
        assert!(
            r.ok(),
            "pair {}-{} has mismatches: {:?}",
            r.a,
            r.b,
            r.mismatches.iter().map(|m| (m.idx, m.stored, m.expected)).collect::<Vec<_>>()
        );
        assert!(r.checked > 0);
    }
}

#[test]
fn tally_matches_known_gasser_figures_for_3_3() {
    let mut files = Files::new();
    let manifest = solve_all(&mut files, Some(6));
    let data = read_subspace_verified(&manifest, 3, 3, &files[&(3, 3)]).unwrap();
    let tables = build_index_tables();
    let t = tally(&tables, SubspaceId::new(3, 3), &data);
    assert_eq!(t.max_loss_depth, 26, "longest 3-3 loss is 26 plies");
    let total_canonical = t.wins + t.losses + t.draws;
    let win_pct = 100.0 * t.wins as f64 / total_canonical as f64;
    assert!((82.0..84.0).contains(&win_pct), "about 83% wins, got {win_pct:.1}%");
}

#[test]
fn wrong_values_are_found() {
    let r33 = solve_on(3, 3, vec![]).unwrap();
    let db = Database::new();
    let mut values = r33.val_ab;
    let tables = build_index_tables();
    let sub = SubspaceId::new(3, 3);
    let place = (0..values.len())
        .find(|&i| ninemm::index::is_canonical_slot(&tables, sub, i as u64) && values[i] == 1)
        .unwrap();
    values[place] = DRAW;
    let report = verify_pair(3, 3, &values, &values, &db);
    assert!(!report.ok());
    assert!(report.mismatches.iter().any(|m| m.idx == place as u64 && m.stored == DRAW && m.expected == 1));
}

#[test]
fn many_mismatches_are_cut_at_fifty() {
    let tables = build_index_tables();
    let sub = SubspaceId::new(3, 3);
    let values = vec![DRAW; ninemm::index::subspace_size(&tables, sub) as usize];
    let report = verify_pair(3, 3, &values, &values, &Database::new());
    assert_eq!(report.mismatches.len(), 50);
    assert!(report.checked > 50);
}

#[test]
fn a_winning_capture_is_expected_to_win_in_one() {
    let tables = build_index_tables();
    let sub = SubspaceId::new(3, 3);
    let values = vec![DRAW; ninemm::index::subspace_size(&tables, sub) as usize];
    let pos = Position::new((1 << 0) | (1 << 1) | (1 << 12), (1 << 5) | (1 << 10) | (1 << 20));
    assert_eq!(expected_value(pos, &values, &Database::new()), 1);
}
