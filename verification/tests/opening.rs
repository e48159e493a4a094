use ninemm::opening::{
    code_to_i8, from_i8, negamax, solve, successors, tt_key, Bound, PlacementState, Tt, Value,
};
use ninemm::opening_cache;
use ninemm::orchestrate::{dependencies, solve_on, Run};
use ninemm::persist::{as_bytes, read_subspace_verified, Manifest};
use ninemm::pos::Position;
use ninemm::retro::Database;
use ninemm::symmetry::{apply_pos, canonicalize, N_SYMS};
use std::collections::HashMap;

/// Value files, held in memory.
type Files = HashMap<(usize, usize), Vec<u8>>;

fn solve_all(files: &mut Files, manifest: Manifest, max_total: Option<usize>) -> Manifest {
    let mut run = Run::new(manifest, max_total);
    while let Some((a, b)) = run.current() {
        let file = |w: usize, b: usize| files.get(&(w, b)).map(|f| f.as_slice());
        if run.skip_if_done(file(a, b), file(b, a)) {
            continue;
        }
        let values = dependencies(a, b)
            .into_iter()
            .map(|(w, b)| read_subspace_verified(run.manifest(), w, b, &files[&(w, b)]).unwrap())
            .collect();
        let result = solve_on(a, b, values).unwrap();
        files.insert((a, b), as_bytes(&result.val_ab));
        files.insert((b, a), as_bytes(&result.val_ba));
        run.record(&result, 0, 0);
    }
    Manifest { entries: run.manifest().entries.clone() }
}

fn load_db_up_to(files: &Files, manifest: &Manifest) -> Database {
    let mut db = Database::new();
    for e in &manifest.entries {
        let (w, b) = (e.w as usize, e.b as usize);
        let data = read_subspace_verified(manifest, w, b, &files[&(w, b)]).unwrap();
        db.insert(w, b, data);
    }
    db
}

fn solved_3_3() -> (Manifest, Database) {
    let mut files = Files::new();
    let manifest = solve_all(&mut files, Manifest::default(), Some(6));
    let db = load_db_up_to(&files, &manifest);
    (manifest, db)
}

/// Plain recursive minimax, with no pruning and no table.
fn brute_force(state: &PlacementState, db: &Database) -> i8 {
    if state.total_mover() < 3 {
        return -1;
    }
    if state.placement_done() {
        return if state.pos.is_blocked() { -1 } else { code_to_i8(db.lookup_pos(state.pos)) };
    }
    let succs = successors(state);
    if succs.is_empty() {
        return -1;
    }
    succs.iter().map(|s| -brute_force(s, db)).max().unwrap()
}

#[test]
fn successors_decrement_hands_correctly() {
    let s0 = PlacementState::initial();
    assert_eq!(s0.mover_hand, 9);
    assert_eq!(s0.opp_hand, 9);
    let succs = successors(&s0);
    assert_eq!(succs.len(), 24); // empty board, no mills possible on move 1
    for s in &succs {
        assert_eq!(s.mover_hand, 9); // was opp_hand (untouched)
        assert_eq!(s.opp_hand, 8); // was mover_hand - 1
        assert_eq!(s.pos.white_count() + s.pos.black_count(), 1);
    }
}

#[test]
fn placement_done_after_18_plies_of_any_line() {
    let mut s = PlacementState::initial();
    for _ in 0..18 {
        let succs = successors(&s);
        assert!(!s.placement_done(), "should not be done before 18 plies");
        s = succs[0];
    }
    assert!(s.placement_done());
    assert!(s.pos.white_count() + s.pos.black_count() <= 18);
    assert_eq!(s.mover_hand, 0);
    assert_eq!(s.opp_hand, 0);
}

#[test]
fn solve_tiny_subtree_matches_hand_evaluation() {
    let (_, db) = solved_3_3();
    let mover = (1 << 3) | (1 << 8);
    let opp = (1 << 10) | (1 << 15);
    let state = PlacementState { pos: Position::new(mover, opp), mover_hand: 1, opp_hand: 1 };
    let mut tt = Tt::new();
    let v = solve(&state, &db, &mut tt);
    assert!(matches!(v, Value::Win | Value::Loss | Value::Draw));
    assert_eq!(v, from_i8(brute_force(&state, &db)));
}

#[test]
fn from_i8_matches_expected_mapping() {
    assert_eq!(from_i8(-1), Value::Loss);
    assert_eq!(from_i8(0), Value::Draw);
    assert_eq!(from_i8(1), Value::Win);
}

#[test]
fn negamax_matches_brute_force_on_a_few_ply_subtree() {
    let (_, db) = solved_3_3();
    let mover = (1 << 3) | (1 << 8);
    let opp = 1 << 16;
    let state = PlacementState { pos: Position::new(mover, opp), mover_hand: 1, opp_hand: 2 };

    let mut tt = Tt::new();
    let ab = negamax(&state, -1, 1, &db, &mut tt);
    let bf = brute_force(&state, &db);
    assert_eq!(ab, bf, "alpha-beta and brute-force minimax disagree");
}

#[test]
fn persistent_cache_gives_identical_results_to_an_empty_tt() {
    let (manifest, db) = solved_3_3();

    let state_a = PlacementState {
        pos: Position::new((1 << 3) | (1 << 8), 1 << 16),
        mover_hand: 1,
        opp_hand: 2,
    };
    let mut tt_a = Tt::new();
    let v_a = solve(&state_a, &db, &mut tt_a);
    assert_eq!(v_a, from_i8(brute_force(&state_a, &db)));

    let fingerprint = opening_cache::db_fingerprint(&manifest);
    let (file, _) = opening_cache::write_cache(fingerprint, &tt_a, 0);
    let mut cached = opening_cache::load_or_empty(Some(&file), &manifest);
    assert!(!cached.is_empty());

    let state_b = successors(&state_a)[0];
    let with_cache = solve(&state_b, &db, &mut cached);
    let without_cache = solve(&state_b, &db, &mut Tt::new());
    assert_eq!(with_cache, without_cache);
    assert_eq!(with_cache, from_i8(brute_force(&state_b, &db)));

    let mut reloaded = opening_cache::load_or_empty(Some(&file), &manifest);
    assert_eq!(solve(&state_a, &db, &mut reloaded), v_a);
}

#[test]
fn tt_reuse_across_solves_never_changes_results() {
    let (_, db) = solved_3_3();
    let root = PlacementState {
        pos: Position::new((1 << 3) | (1 << 8), 1 << 16),
        mover_hand: 1,
        opp_hand: 2,
    };
    let mut states = vec![root];
    for s in successors(&root) {
        states.push(s);
        states.extend(successors(&s));
    }
    let mut shared = Tt::new();
    let shared_results: Vec<i8> = states.iter().map(|s| negamax(s, -1, 1, &db, &mut shared)).collect();
    for (s, &r) in states.iter().zip(&shared_results) {
        assert_eq!(r, brute_force(s, &db), "shared-TT solve diverged at {s:?}");
    }
}

#[test]
fn too_few_stones_are_lost_without_a_search() {
    let state = PlacementState { pos: Position::new(1, 0b1110), mover_hand: 1, opp_hand: 0 };
    assert_eq!(state.total_mover(), 2);
    assert_eq!(state.total_opp(), 3);
    let mut tt = Tt::new();
    assert_eq!(solve(&state, &Database::new(), &mut tt), Value::Loss);
    assert!(tt.is_empty());
}

#[test]
fn codes_as_outcomes() {
    assert_eq!(code_to_i8(0xffff), 0);
    assert_eq!(code_to_i8(0), -1);
    assert_eq!(code_to_i8(26), -1);
    assert_eq!(code_to_i8(1), 1);
}

#[test]
fn keys_are_shared_by_symmetric_states() {
    let state = PlacementState { pos: Position::new(0b1001, 0b10_0000), mover_hand: 7, opp_hand: 8 };
    let key = tt_key(&state);
    assert_eq!(key, (canonicalize(state.pos).0, 7, 8));
    for s in 0..N_SYMS {
        let other = PlacementState { pos: apply_pos(s, state.pos), ..state };
        assert_eq!(tt_key(&other), key);
    }
}

#[test]
fn tables_hold_what_was_put_in_last() {
    let mut tt = Tt::new();
    let key = (Position::new(1, 2), 3, 4);
    assert_eq!(tt.get(&key), None);
    tt.insert(key, (0, Bound::Lower));
    tt.insert(key, (1, Bound::Exact));
    assert_eq!(tt.get(&key), Some((1, Bound::Exact)));
    assert_eq!(tt.len(), 1);
    assert_eq!(tt.keys(), vec![key]);
}

#[test]
fn symmetric_states_are_worth_the_same() {
    let (_, db) = solved_3_3();
    let state = PlacementState {
        pos: Position::new((1 << 3) | (1 << 8), (1 << 16) | (1 << 20)),
        mover_hand: 1,
        opp_hand: 1,
    };
    let v = brute_force(&state, &db);
    for s in [1, 6, 11, 15] {
        let other = PlacementState { pos: apply_pos(s, state.pos), ..state };
        assert_eq!(brute_force(&other, &db), v);
        assert_eq!(negamax(&other, -1, 1, &db, &mut Tt::new()), v);
    }
}

#[test]
fn a_finished_placement_leaves_the_table_alone() {
    let state = PlacementState { pos: Position::new(0b01010101, 0b10101010), mover_hand: 0, opp_hand: 0 };
    let mut tt = Tt::new();
    assert_eq!(negamax(&state, -1, 1, &Database::new(), &mut tt), -1);
    assert!(tt.is_empty());
}

#[test]
fn searches_only_add_to_the_table() {
    let (_, db) = solved_3_3();
    let root = PlacementState {
        pos: Position::new((1 << 3) | (1 << 8), 1 << 16),
        mover_hand: 1,
        opp_hand: 2,
    };
    let mut tt = Tt::new();
    let mut keys = Vec::new();
    for s in successors(&root).iter().take(4) {
        solve(s, &db, &mut tt);
        assert!(keys.iter().all(|k| tt.contains_key(k)));
        keys = tt.keys();
        assert!(tt.contains_key(&tt_key(s)));
    }
    for k in &keys {
        let (v, bound) = tt.get(k).unwrap();
        assert!(v == 0 || bound == Bound::Exact);
        assert!(k.1 <= 2 && k.2 <= 2);
    }
}
