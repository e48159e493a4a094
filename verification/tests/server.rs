use ninemm::index::{build_index_tables, is_canonical_slot, subspace_size, unindex, SubspaceId};
use ninemm::loading::{Loaded, Loading};
use ninemm::opening::Tt;
use ninemm::orchestrate::{dependencies, solve_on, Run};
use ninemm::persist::{as_bytes, read_subspace_verified, Manifest};
use ninemm::pos::{bits, Position};
use ninemm::retro::Database;
use ninemm::server::{
    analyze, is_ready, looks_up, movement_notation, placement_notation, route, to_internal, to_state_json, validate,
    AnalyzeRequest, Color, Outcome, Route, StateJson,
};
use std::collections::HashMap;

fn mapped(bytes: &[u8]) -> memmap2::Mmap {
    let mut m = memmap2::MmapMut::map_anon(bytes.len()).unwrap();
    m.copy_from_slice(bytes);
    m.make_read_only().unwrap()
}

/// {3,3} and {3,4}/{4,3}, mapped.
fn build_dev_db() -> Loaded {
    let mut files: HashMap<(usize, usize), Vec<u8>> = HashMap::new();
    let mut run = Run::new(Manifest::default(), Some(7));
    while let Some((a, b)) = run.current() {
        let values = dependencies(a, b)
            .into_iter()
            .map(|(w, b)| read_subspace_verified(run.manifest(), w, b, &files[&(w, b)]).unwrap())
            .collect();
        let result = solve_on(a, b, values).unwrap();
        files.insert((a, b), as_bytes(&result.val_ab));
        files.insert((b, a), as_bytes(&result.val_ba));
        run.record(&result, 0, 0);
    }
    let manifest = Manifest { entries: run.manifest().entries.clone() };
    let mut loading = Loading::start(manifest, true).ok().unwrap();
    while let Some((w, b)) = loading.wanted() {
        loading.supply_map(mapped(&files[&(w, b)])).unwrap();
    }
    let loaded = loading.finish();
    assert!(is_ready(&loaded.db, loaded.complete));
    loaded
}

fn req(state: StateJson, evaluate: bool) -> AnalyzeRequest {
    AnalyzeRequest { state, evaluate, engine: false }
}

fn state(white: Vec<u8>, black: Vec<u8>, turn: Color, white_hand: u8, black_hand: u8) -> StateJson {
    StateJson { white, black, turn, white_hand, black_hand }
}

fn listed(mask: u32) -> Vec<u8> {
    bits(mask).into_iter().map(|p| p as u8).collect()
}

#[test]
fn rejects_duplicate_point() {
    let loaded = build_dev_db();
    let mut tt = Tt::new();
    let s = state(vec![0, 0], vec![1, 2, 3], Color::White, 0, 0);
    let err = analyze(&req(s, false), &loaded.db, loaded.complete, &mut tt).unwrap_err();
    assert_eq!(err.status, 400);
    assert_eq!(err.message, "duplicate white point 0");
}

#[test]
fn rejects_overlapping_colors() {
    let loaded = build_dev_db();
    let mut tt = Tt::new();
    let s = state(vec![0, 1, 2], vec![2, 3, 4], Color::White, 0, 0);
    let err = analyze(&req(s, false), &loaded.db, loaded.complete, &mut tt).unwrap_err();
    assert_eq!(err.status, 400);
    assert_eq!(err.message, "white and black occupy the same point");
}

#[test]
fn rejects_too_many_total_stones() {
    let loaded = build_dev_db();
    let mut tt = Tt::new();
    let s = state(vec![0, 1, 2, 3, 4, 5, 6, 7, 8], vec![9, 10, 11], Color::White, 1, 0);
    let err = analyze(&req(s, false), &loaded.db, loaded.complete, &mut tt).unwrap_err();
    assert_eq!(err.status, 400);
    assert_eq!(err.message, "white has more than 9 total stones (board + hand)");
}

#[test]
fn rejects_bad_hand_alternation() {
    let loaded = build_dev_db();
    let mut tt = Tt::new();
    let s = state(vec![], vec![], Color::White, 9, 8);
    let err = analyze(&req(s, false), &loaded.db, loaded.complete, &mut tt).unwrap_err();
    assert_eq!(err.status, 400);
}

#[test]
fn fewer_than_three_is_game_over() {
    let loaded = build_dev_db();
    let mut tt = Tt::new();
    let s = state(vec![0, 1], vec![9, 10, 11], Color::White, 0, 0);
    let resp = analyze(&req(s, false), &loaded.db, loaded.complete, &mut tt).unwrap();
    assert!(resp.moves.is_empty());
    let result = resp.result.unwrap();
    assert_eq!(result.winner, Color::Black);
    assert_eq!(result.reason, "fewerThanThree");
}

#[test]
fn blocked_position_is_no_moves_game_over() {
    let loaded = build_dev_db();
    let mut tt = Tt::new();
    let tables = build_index_tables();
    let sub = SubspaceId::new(4, 3);
    let mut found = None;
    for idx in 0..subspace_size(&tables, sub) {
        if !is_canonical_slot(&tables, sub, idx) {
            continue;
        }
        let pos = unindex(&tables, sub, idx);
        if pos.is_blocked() {
            found = Some(pos);
            break;
        }
    }
    let Some(pos) = found else {
        return;
    };
    let s = state(listed(pos.white()), listed(pos.black()), Color::White, 0, 0);
    let resp = analyze(&req(s, false), &loaded.db, loaded.complete, &mut tt).unwrap();
    assert!(resp.moves.is_empty());
    let result = resp.result.unwrap();
    assert_eq!(result.winner, Color::Black);
    assert_eq!(result.reason, "noMoves");
}

#[test]
fn partial_database_rejects_out_of_range_movement_analysis() {
    let loaded = build_dev_db();
    assert!(!loaded.complete);
    let mut tt = Tt::new();
    let s = state(vec![0, 1, 2, 3, 4], vec![9, 10, 11, 12, 13], Color::White, 0, 0);
    let err = analyze(&req(s, true), &loaded.db, loaded.complete, &mut tt).unwrap_err();
    assert_eq!(err.status, 409);
    assert_eq!(err.message, "subspace (5,5) is not loaded (partial database) -- this analysis needs it");
}

#[test]
fn partial_database_rejects_placement_analysis() {
    let loaded = build_dev_db();
    let mut tt = Tt::new();
    let s = state(vec![], vec![], Color::White, 9, 9);
    let err = analyze(&req(s, true), &loaded.db, loaded.complete, &mut tt).unwrap_err();
    assert_eq!(err.status, 409);
    assert!(err.message.starts_with("placement analysis requires the complete 49-subspace database"));
}

#[test]
fn color_swap_invariance() {
    let loaded = build_dev_db();
    let tables = build_index_tables();
    let sub = SubspaceId::new(3, 3);
    let size = subspace_size(&tables, sub);
    let step = (size / 300).max(1);
    let mut checked = 0;
    let mut idx = 0u64;
    while idx < size {
        idx += step;
        if !is_canonical_slot(&tables, sub, idx.min(size - 1)) {
            continue;
        }
        let pos = unindex(&tables, sub, idx.min(size - 1));
        let a = listed(pos.white());
        let b = listed(pos.black());

        let mut tt1 = Tt::new();
        let s1 = state(a.clone(), b.clone(), Color::White, 0, 0);
        let r1 = analyze(&req(s1, true), &loaded.db, loaded.complete, &mut tt1).unwrap();

        let mut tt2 = Tt::new();
        let s2 = state(b.clone(), a.clone(), Color::Black, 0, 0);
        let r2 = analyze(&req(s2, true), &loaded.db, loaded.complete, &mut tt2).unwrap();

        assert_eq!(r1.phase, r2.phase);
        assert_eq!(
            r1.value.map(|v| (v.outcome, v.plies)),
            r2.value.map(|v| (v.outcome, v.plies)),
            "position value mismatch under color swap"
        );
        assert_eq!(r1.moves.len(), r2.moves.len());

        let mut m1: Vec<_> = r1
            .moves
            .iter()
            .map(|m| (m.from, m.to, m.capture, m.value.map(|v| (v.outcome, v.plies))))
            .collect();
        let mut m2: Vec<_> = r2
            .moves
            .iter()
            .map(|m| (m.from, m.to, m.capture, m.value.map(|v| (v.outcome, v.plies))))
            .collect();
        m1.sort();
        m2.sort();
        assert_eq!(m1, m2, "move set mismatch under color swap");
        assert_eq!(r1.engine_move, r2.engine_move);
        checked += 1;
    }
    assert!(checked > 20, "expected to check a reasonable number of positions, got {checked}");
}

#[test]
fn move_value_matches_successor_position_value() {
    let loaded = build_dev_db();
    let tables = build_index_tables();
    let sub = SubspaceId::new(4, 3);
    let size = subspace_size(&tables, sub);
    let step = (size / 200).max(1);
    let mut checked = 0;
    let mut idx = 0u64;
    while idx < size {
        idx += step;
        let i = idx.min(size - 1);
        if !is_canonical_slot(&tables, sub, i) {
            continue;
        }
        let pos = unindex(&tables, sub, i);
        let s = state(listed(pos.white()), listed(pos.black()), Color::White, 0, 0);
        let mut tt = Tt::new();
        let resp = analyze(&req(s, true), &loaded.db, loaded.complete, &mut tt).unwrap();
        if resp.result.is_some() {
            continue;
        }
        for m in &resp.moves {
            let Some(v) = m.value else { continue };
            let mut tt2 = Tt::new();
            let succ_resp =
                analyze(&req(m.result.clone(), true), &loaded.db, loaded.complete, &mut tt2).unwrap();
            match v.outcome {
                Outcome::Draw => {
                    if let Some(sv) = succ_resp.value {
                        assert_eq!(sv.outcome, Outcome::Draw);
                    } else {
                        panic!("expected successor position value for a draw move");
                    }
                }
                Outcome::Win => {
                    let d = v.plies.unwrap();
                    if d == 1 {
                        let r = succ_resp.result.expect("win in 1 must capture the opponent below 3 stones");
                        assert_eq!(r.reason, "fewerThanThree");
                    } else {
                        let sv = succ_resp.value.expect("non-terminal successor must have a value");
                        assert_eq!(sv.outcome, Outcome::Loss);
                        assert_eq!(sv.plies, Some(d - 1));
                    }
                }
                Outcome::Loss => {
                    let d = v.plies.unwrap();
                    let sv = succ_resp.value.expect("non-terminal successor must have a value");
                    assert_eq!(sv.outcome, Outcome::Win);
                    assert_eq!(sv.plies, Some(d - 1));
                }
            }
        }
        checked += 1;
    }
    assert!(checked > 20, "expected to check a reasonable number of positions, got {checked}");
}

#[test]
fn engine_move_index_is_valid() {
    let loaded = build_dev_db();
    let mut tt = Tt::new();
    let tables = build_index_tables();
    let sub = SubspaceId::new(3, 3);
    let pos = unindex(&tables, sub, 0);
    let s = state(listed(pos.white()), listed(pos.black()), Color::White, 0, 0);
    let resp = analyze(&req(s, false), &loaded.db, loaded.complete, &mut tt).unwrap();
    if let Some(i) = resp.engine_move {
        assert!(i < resp.moves.len());
    }
}

#[test]
fn a_winning_move_in_full() {
    let loaded = build_dev_db();
    let mut tt = Tt::new();
    let s = state(vec![12, 1, 0], vec![20, 5, 10], Color::White, 0, 0);
    let resp = analyze(&req(s, true), &loaded.db, loaded.complete, &mut tt).unwrap();
    assert_eq!(resp.phase, "movement");
    assert!(resp.result.is_none());
    let value = resp.value.unwrap();
    assert_eq!((value.outcome, value.plies), (Outcome::Win, Some(1)));
    let m = &resp.moves[resp.engine_move.unwrap()];
    assert_eq!((m.from, m.to, m.capture), (Some(12), 2, Some(5)));
    assert_eq!(m.notation, "f2-g7xd1");
    let v = m.value.unwrap();
    assert_eq!((v.outcome, v.plies), (Outcome::Win, Some(1)));
    assert_eq!(m.result.white, vec![0, 1, 2]);
    assert_eq!(m.result.black, vec![10, 20]);
    assert_eq!(m.result.turn, Color::Black);
    assert_eq!((m.result.white_hand, m.result.black_hand), (0, 0));
    assert!(tt.is_empty());
}

#[test]
fn without_evaluation_there_are_no_values() {
    let loaded = build_dev_db();
    let mut tt = Tt::new();
    let s = state(vec![12, 1, 0], vec![20, 5, 10], Color::Black, 0, 0);
    let resp = analyze(&req(s, false), &loaded.db, loaded.complete, &mut tt).unwrap();
    assert!(resp.value.is_none());
    assert!(resp.moves.iter().all(|m| m.value.is_none()));
    assert!(resp.engine_move.is_some());
}

#[test]
fn every_fault_of_a_state() {
    let message = |s: StateJson| validate(&s).unwrap_err().message;
    assert_eq!(message(state(vec![24], vec![], Color::White, 0, 0)), "point index 24 out of range 0..24");
    assert_eq!(message(state(vec![], vec![255], Color::White, 0, 0)), "point index 255 out of range 0..24");
    assert_eq!(message(state(vec![], vec![7, 3, 7], Color::White, 0, 0)), "duplicate black point 7");
    assert_eq!(message(state(vec![3], vec![7, 3], Color::White, 0, 0)), "white and black occupy the same point");
    assert_eq!(message(state(vec![], vec![], Color::White, 10, 0)), "hand count exceeds 9");
    assert_eq!(message(state(vec![], vec![], Color::White, 0, 200)), "hand count exceeds 9");
    assert_eq!(
        message(state(vec![1], vec![], Color::White, 9, 9)),
        "white has more than 9 total stones (board + hand)"
    );
    assert_eq!(
        message(state(vec![], vec![1], Color::White, 9, 9)),
        "black has more than 9 total stones (board + hand)"
    );
    assert_eq!(
        message(state(vec![], vec![], Color::Black, 9, 9)),
        "hand counts are inconsistent with strict placement alternation"
    );
    assert_eq!(validate(&state(vec![0, 2], vec![5], Color::Black, 7, 8)).unwrap(), (0b101, 1 << 5));
}

#[test]
fn colors_and_perspectives() {
    let white_to_move = to_internal(0b1, 0b110, Color::White);
    let black_to_move = to_internal(0b1, 0b110, Color::Black);
    assert_eq!(white_to_move, Position::new(0b1, 0b110));
    assert_eq!(black_to_move, Position::new(0b110, 0b1));
    for turn in [Color::White, Color::Black] {
        let s = to_state_json(to_internal(0b1, 0b110, turn), turn, 2, 3);
        assert_eq!((s.white, s.black, s.turn, s.white_hand, s.black_hand), (vec![0], vec![1, 2], turn, 2, 3));
        assert_ne!(turn.other(), turn);
    }
}

#[test]
fn notation_of_moves() {
    assert_eq!(movement_notation(6, 7, None), "a1-a4");
    assert_eq!(movement_notation(6, 7, Some(0)), "a1-a4xa7");
    assert_eq!(placement_notation(9, None), "d6");
    assert_eq!(placement_notation(9, Some(17)), "d6xd5");
}

#[test]
fn routes() {
    assert_eq!(route(true, false, "/"), Route::Page);
    assert_eq!(route(true, false, "/api/meta"), Route::Meta);
    assert_eq!(route(false, true, "/api/analyze"), Route::Analyze);
    assert_eq!(route(true, false, "/api/analyze"), Route::NotFound);
    assert_eq!(route(false, true, "/"), Route::NotFound);
    assert_eq!(route(false, false, "/"), Route::NotFound);
    assert_eq!(route(true, false, "/index.html"), Route::NotFound);
}

#[test]
fn missing_captures_are_needed_too() {
    // (4,4) is there in both orders, which are the same, but not (3,4).
    let tables = build_index_tables();
    let mut db = Database::new();
    db.insert(4, 4, vec![0xffff; subspace_size(&tables, SubspaceId::new(4, 4)) as usize]);
    assert!(is_ready(&db, false));
    let s = state(vec![0, 2, 4, 6], vec![16, 18, 20, 22], Color::White, 0, 0);
    let err = analyze(&req(s, false), &db, false, &mut Tt::new()).unwrap_err();
    assert_eq!(err.status, 409);
    assert_eq!(err.message, "subspace (3,4) is not loaded (partial database) -- this analysis needs it");
}

#[test]
fn placements_are_listed_without_a_lookup() {
    let mut tt = Tt::new();
    let s = state(vec![], vec![], Color::White, 9, 9);
    let resp = analyze(&req(s, false), &Database::new(), true, &mut tt).unwrap();
    assert_eq!(resp.phase, "placement");
    assert!(resp.result.is_none() && resp.value.is_none() && resp.engine_move.is_none());
    assert_eq!(resp.moves.len(), 24);
    for (p, m) in resp.moves.iter().enumerate() {
        assert_eq!((m.from, m.to, m.capture), (None, p as u8, None));
        assert_eq!(m.notation, ninemm::board::point_name(p));
        assert!(m.value.is_none());
        assert_eq!((m.result.white.clone(), m.result.black.clone()), (vec![p as u8], vec![]));
        assert_eq!((m.result.turn, m.result.white_hand, m.result.black_hand), (Color::Black, 8, 9));
    }
    assert!(tt.is_empty());
}

#[test]
fn requests_that_take_no_lookup() {
    let db = Database::new();
    let asks = |s: StateJson, evaluate: bool, complete: bool| looks_up(&req(s, evaluate), &db, complete);
    let empty = || state(vec![], vec![], Color::White, 9, 9);
    assert!(asks(empty(), true, true));
    assert!(!asks(empty(), false, true));
    assert!(!asks(empty(), true, false));
    // Faulty, and over.
    assert!(!asks(state(vec![0, 0], vec![], Color::White, 0, 0), true, true));
    assert!(!asks(state(vec![0, 1], vec![9, 10, 11], Color::White, 0, 0), true, true));
    let free = || state(vec![0, 1, 12], vec![5, 10, 20], Color::White, 0, 0);
    assert!(asks(free(), false, true));
    // Refused before anything is looked up.
    assert!(!asks(free(), true, false));
}
