use ninemm::index::{is_canonical_slot, subspace_size, unindex, SubspaceId};
use ninemm::movegen::successors;
use ninemm::opening::{negamax, PlacementState, Tt};
use ninemm::orchestrate::{register, solve_on};
use ninemm::play::{best_movement_move, best_placement_move, render};
use ninemm::pos::Position;
use ninemm::retro::{Database, DRAW};

/// {3,3}, {3,4} and {4,3}.
fn solved_up_to_7() -> Database {
    let r33 = solve_on(3, 3, vec![]).unwrap();
    let r34 = solve_on(3, 4, vec![r33.val_ab]).unwrap();
    let mut db = register(3, 4, vec![r33.val_ba]);
    db.insert(3, 4, r34.val_ab);
    db.insert(4, 3, r34.val_ba);
    db
}

fn solved_3_3() -> Database {
    let r33 = solve_on(3, 3, vec![]).unwrap();
    let mut db = Database::new();
    db.insert(3, 3, r33.val_ab);
    db
}

#[test]
fn best_move_from_blocked_position_is_none() {
    let db = Database::new();
    let white = 1u32;
    let black = (1 << 1) | (1 << 7);
    let pos = Position::new(white, black);
    assert!(best_movement_move(pos, &db).is_none());
}

#[test]
fn best_move_prefers_win_over_draw_over_loss() {
    let db = solved_up_to_7();
    let sub = SubspaceId::new(3, 3);
    let mut checked = 0;
    for idx in (0..subspace_size(db.tables(), sub)).step_by(997) {
        if !is_canonical_slot(db.tables(), sub, idx) {
            continue;
        }
        let pos = unindex(db.tables(), sub, idx);
        let succs = successors(pos);
        if succs.is_empty() {
            continue;
        }
        let Some(choice) = best_movement_move(pos, &db) else { continue };
        let any_win = succs.iter().any(|s| {
            let code = if s.white_count() < 3 { 0 } else { db.lookup_pos(*s) };
            code != DRAW && code % 2 == 0
        });
        if any_win {
            assert!(
                choice.value_code != DRAW && choice.value_code % 2 == 1,
                "chose non-win when a win was available"
            );
        }
        // The choice is worth what the position is worth.
        assert_eq!(choice.value_code, db.lookup_pos(pos));
        checked += 1;
    }
    assert!(checked > 50, "expected to check a reasonable number of positions, got {checked}");
}

#[test]
fn render_shows_correct_stone_count() {
    let pos = Position::new(0b111, 0b111000);
    let rendered = render(pos);
    let w_count = rendered.matches('W').count();
    let b_count = rendered.matches('B').count();
    assert_eq!(w_count, 3);
    assert_eq!(b_count, 3);
}

#[test]
fn render_draws_seven_lines() {
    let pos = Position::new(0b1, 1 << 6);
    assert_eq!(
        render(pos),
        [
            "W     .     . ",
            "  .   .   .   ",
            "    . . .     ",
            ". . .   . . . ",
            "    . . .     ",
            "  .   .   .   ",
            "B     .     . ",
        ]
        .join("\n")
    );
}

#[test]
fn self_play_win_depth_strictly_decreases() {
    let db = solved_3_3();
    let sub = SubspaceId::new(3, 3);
    let mut tested_a_win = false;
    for idx in 0..subspace_size(db.tables(), sub).min(2_000) {
        if !is_canonical_slot(db.tables(), sub, idx) {
            continue;
        }
        let pos = unindex(db.tables(), sub, idx);
        let code = db.lookup_pos(pos);
        if code == DRAW || code % 2 == 0 {
            continue; // only start from positions that are wins for the mover
        }
        tested_a_win = true;

        let mut cur = pos;
        let mut last_depth = code;
        let mut plies = 0;
        loop {
            let our_choice = best_movement_move(cur, &db).expect("a Win position must have a legal move");
            assert_eq!(
                our_choice.value_code, last_depth,
                "move selection disagrees with the position's own stored value"
            );

            let opp_pos = our_choice.successor;
            if opp_pos.white_count() < 3 {
                break; // our move captured the opponent below 3 stones: won outright
            }
            let opp_code = db.lookup_pos(opp_pos);
            assert_eq!(opp_code, last_depth - 1, "winning move must lead to a Loss exactly one ply shallower");
            if opp_code == 0 {
                break; // opponent is immediately blocked: game over
            }

            let opp_choice =
                best_movement_move(opp_pos, &db).expect("a Loss position with depth > 0 must have a legal move");
            cur = opp_choice.successor;
            let new_depth = db.lookup_pos(cur);
            assert!(
                new_depth != DRAW && new_depth % 2 == 1,
                "position after opponent's reply must be a Win for us"
            );
            assert!(new_depth < last_depth, "win depth did not strictly decrease: {last_depth} -> {new_depth}");
            last_depth = new_depth;

            plies += 1;
            if plies > 60 {
                panic!("self-play line did not terminate within 60 plies");
            }
        }
    }
    assert!(tested_a_win, "expected to find at least one Win position to test");
}

#[test]
fn a_mill_that_leaves_two_stones_is_taken() {
    let db = solved_3_3();
    // The stone on 12 can jump to 2 and close 0-1-2.
    let pos = Position::new((1 << 0) | (1 << 1) | (1 << 12), (1 << 5) | (1 << 10) | (1 << 20));
    let choice = best_movement_move(pos, &db).unwrap();
    assert_eq!(choice.value_code, 1);
    assert_eq!(choice.successor.black(), 0b111);
    assert_eq!(choice.successor.white_count(), 2);
}

#[test]
fn the_first_best_placement_is_chosen() {
    let db = solved_3_3();
    let state = PlacementState {
        pos: Position::new((1 << 3) | (1 << 8), (1 << 16) | (1 << 20)),
        mover_hand: 1,
        opp_hand: 1,
    };
    let values: Vec<i8> = ninemm::opening::successors(&state)
        .iter()
        .map(|s| -negamax(s, -1, 1, &db, &mut Tt::new()))
        .collect();
    let best = *values.iter().max().unwrap();
    let first = values.iter().position(|v| *v == best).unwrap();
    let choice = best_placement_move(&state, &db, &mut Tt::new()).unwrap();
    assert_eq!(choice, ninemm::opening::successors(&state)[first]);
}

#[test]
fn no_placement_without_a_stone_in_hand() {
    let state = PlacementState { pos: Position::new(0b1, 0b10), mover_hand: 0, opp_hand: 3 };
    assert!(best_placement_move(&state, &Database::new(), &mut Tt::new()).is_none());
}
