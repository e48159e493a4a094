use ninemm::index::{is_canonical_slot, subspace_size, unindex, SubspaceId};
use ninemm::movegen::successors;
use ninemm::pos::Position;
use ninemm::retro::{is_loss, is_win, solve_pair, Database, DRAW};
use ninemm::oracle;
use ninemm::symmetry::{apply_pos, N_SYMS};
use std::collections::HashMap;

fn to_oracle_value(code: u16) -> oracle::Value {
    if code == DRAW {
        oracle::Value::Draw
    } else if code % 2 == 0 {
        oracle::Value::Loss(code as u32)
    } else {
        oracle::Value::Win(code as u32)
    }
}

/// What the oracle makes of a position, given what the engine stored for its
/// successors: those with fewer stones in `smaller`, the others, undecided ones
/// left out, in `values`.
fn oracle_value(pos: Position, db: &Database) -> oracle::Value {
    let total = pos.white_count() + pos.black_count();
    let mut smaller = HashMap::new();
    let mut values = HashMap::new();
    for s in successors(pos) {
        if s.white_count() < 3 {
            continue;
        }
        let v = to_oracle_value(db.lookup_pos(s));
        if s.white_count() + s.black_count() < total {
            smaller.insert(s.0, v);
        } else if v != oracle::Value::Draw {
            values.insert(s.0, v);
        }
    }
    oracle::relax(pos, &smaller, &values).unwrap_or(oracle::Value::Draw)
}

/// The slots, of every `step`, on which the engine and the oracle disagree, and
/// how many were looked at.
fn diff_against_oracle(
    sub: SubspaceId,
    db: &Database,
    step: usize,
) -> (Vec<(Position, oracle::Value, oracle::Value)>, usize) {
    let mut mismatches = Vec::new();
    let mut checked = 0;
    for idx in (0..subspace_size(db.tables(), sub)).step_by(step) {
        if !is_canonical_slot(db.tables(), sub, idx) {
            continue;
        }
        let pos = unindex(db.tables(), sub, idx);
        let ours = to_oracle_value(db.get(sub, idx));
        let theirs = oracle_value(pos, db);
        if ours != theirs {
            mismatches.push((pos, ours, theirs));
        }
        checked += 1;
    }
    (mismatches, checked)
}

#[test]
fn solved_values_are_justified_by_their_successors() {
    let result = solve_pair(3, 3, &Database::new()).unwrap();
    assert_eq!((result.a, result.b), (3, 3));
    assert_eq!(result.val_ab, result.val_ba);
    let mut db = Database::new();
    db.insert(3, 3, result.val_ab);
    let sub = SubspaceId::new(3, 3);
    let mut checked = 0;
    for idx in (0..subspace_size(db.tables(), sub)).step_by(41) {
        if !is_canonical_slot(db.tables(), sub, idx) {
            assert_eq!(db.get(sub, idx), DRAW);
            continue;
        }
        checked += 1;
        let pos = unindex(db.tables(), sub, idx);
        let succs = successors(pos);
        let replies: Vec<u16> =
            succs.iter().map(|s| if s.white_count() < 3 { 0 } else { db.lookup_pos(*s) }).collect();
        let code = db.lookup_pos(pos);
        assert_eq!(code, db.get(sub, idx));
        if is_win(code) {
            assert_eq!(replies.iter().copied().filter(|c| is_loss(*c)).min(), Some(code - 1));
        } else if code == 0 {
            assert!(succs.is_empty());
        } else if is_loss(code) {
            assert!(replies.iter().all(|c| is_win(*c)));
            assert_eq!(replies.iter().copied().max(), Some(code - 1));
        } else {
            assert!(replies.iter().all(|c| !is_loss(*c)));
            assert!(replies.iter().any(|c| *c == DRAW));
        }
    }
    assert!(checked > 3000, "expected to check a reasonable number of positions, got {checked}");
}

#[test]
fn lookups_are_the_same_for_symmetric_positions() {
    let mut db = Database::new();
    db.insert(3, 3, solve_pair(3, 3, &db).unwrap().val_ab);
    let pos = Position::new((1 << 0) | (1 << 9) | (1 << 12), (1 << 5) | (1 << 10) | (1 << 20));
    for s in 0..N_SYMS {
        assert_eq!(db.lookup_pos(apply_pos(s, pos)), db.lookup_pos(pos));
    }
}

#[test]
fn codes_tell_outcomes_by_parity() {
    assert!(is_loss(0) && is_loss(26) && !is_loss(1) && !is_loss(DRAW));
    assert!(is_win(1) && is_win(31) && !is_win(2) && !is_win(DRAW));
}

#[test]
fn deterministic_rerun_is_byte_identical() {
    let db = Database::new();
    let r1 = solve_pair(3, 3, &db).unwrap();
    let r2 = solve_pair(3, 3, &db).unwrap();
    assert_eq!(r1.val_ab, r2.val_ab);
}

#[test]
fn deterministic_rerun_4_3_is_byte_identical() {
    let mut db = Database::new();
    let r33 = solve_pair(3, 3, &db).unwrap();
    db.insert(3, 3, r33.val_ab);

    let r1 = solve_pair(4, 3, &db).unwrap();
    let r2 = solve_pair(4, 3, &db).unwrap();
    assert_eq!(r1.val_ab, r2.val_ab);
    assert_eq!(r1.val_ba, r2.val_ba);
}

/// A full oracle solve of the pair takes minutes, so a sample of the slots is
/// worked out by the oracle's step, over the values that the engine stored.
#[test]
fn solve_3_3_matches_oracle_exactly() {
    let result = solve_pair(3, 3, &Database::new()).unwrap();
    assert_eq!(result.a, 3);
    assert_eq!(result.b, 3);
    // val_ba must be identical to val_ab in the self-paired case.
    assert_eq!(result.val_ab, result.val_ba);
    let mut db = Database::new();
    db.insert(3, 3, result.val_ab);

    let (mismatches, checked) = diff_against_oracle(SubspaceId::new(3, 3), &db, 7);
    assert!(
        mismatches.is_empty(),
        "{} mismatches, first few: {:?}",
        mismatches.len(),
        &mismatches[..mismatches.len().min(10)]
    );
    assert!(checked > 20_000, "expected to check a reasonable number of slots, got {checked}");
}

/// Both ordered subspaces of the pair, with the {3,3} values for captures.
#[test]
fn solve_4_3_matches_oracle_exactly() {
    let mut db = Database::new();
    let r33 = solve_pair(3, 3, &db).unwrap();
    db.insert(3, 3, r33.val_ab);
    let result = solve_pair(4, 3, &db).unwrap();
    db.insert(4, 3, result.val_ab);
    db.insert(3, 4, result.val_ba);

    for sub in [SubspaceId::new(4, 3), SubspaceId::new(3, 4)] {
        let (mismatches, checked) = diff_against_oracle(sub, &db, 61);
        assert!(
            mismatches.is_empty(),
            "{sub:?}: {} mismatches, first few: {:?}",
            mismatches.len(),
            &mismatches[..mismatches.len().min(10)]
        );
        assert!(checked > 5_000, "expected to check a reasonable number of slots, got {checked}");
    }
}

/// Every value that the oracle works out is justified by the values of its
/// successors, in 5000 positions of the {3,3} pair.
#[test]
fn every_oracle_value_is_self_consistent() {
    let mut db = Database::new();
    db.insert(3, 3, solve_pair(3, 3, &db).unwrap().val_ab);
    let mut checked = 0;
    for &s in oracle::all_states(3, 3).iter().step_by(521) {
        if checked >= 5000 {
            break;
        }
        checked += 1;
        let v = oracle_value(s, &db);
        assert_eq!(v, to_oracle_value(db.lookup_pos(s)));
        let succs = successors(s);
        let value = |q: &Position| to_oracle_value(db.lookup_pos(*q));
        match v {
            oracle::Value::Loss(0) => assert!(succs.is_empty(), "Loss(0) state has moves: {s:?}"),
            oracle::Value::Win(d) => {
                let ok = succs.iter().any(|q| {
                    if q.white_count() < 3 {
                        d == 1
                    } else {
                        matches!(value(q), oracle::Value::Loss(ld) if ld + 1 == d)
                    }
                });
                assert!(ok, "Win({d}) at {s:?} not justified by any successor");
            }
            oracle::Value::Loss(d) => {
                assert!(!succs.is_empty(), "Loss({d}) with d>0 must have moves: {s:?}");
                let all_win = succs.iter().all(|q| {
                    q.white_count() >= 3 && matches!(value(q), oracle::Value::Win(wd) if wd + 1 <= d)
                });
                assert!(all_win, "Loss({d}) at {s:?} not justified by its successors");
            }
            oracle::Value::Draw => {
                assert!(!succs.is_empty(), "blocked position must be Loss(0), not Draw: {s:?}");
            }
        }
    }
    assert_eq!(checked, 5000);
}
