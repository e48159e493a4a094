use ninemm::board::MILLS;
use ninemm::movegen::{
    moves_movement, moves_placement, quiet_predecessors, removable_stones, resolve_mill, successors,
};
use ninemm::pos::{Position, FULL_MASK};
use std::collections::HashSet;

/// Disjoint sets of the given sizes, from a seed.
fn sample_position(w: usize, b: usize, seed: u64) -> Position {
    let mut pts: Vec<u32> = (0..24).collect();
    let mut s = seed | 1;
    for i in (1..pts.len()).rev() {
        s = s.wrapping_mul(6364136223846793005).wrapping_add(1);
        let j = (s >> 33) as usize % (i + 1);
        pts.swap(i, j);
    }
    let white: u32 = pts[..w].iter().map(|p| 1u32 << p).sum();
    let black: u32 = pts[w..w + b].iter().map(|p| 1u32 << p).sum();
    Position::new(white, black)
}

#[test]
fn known_blocked_position_has_no_moves() {
    let white = 1u32;
    let black = (1 << 1) | (1 << 7);
    let succ = moves_movement(white, black);
    assert!(succ.is_empty());
}

#[test]
fn placement_move_count_matches_empty_squares_when_no_mills() {
    let white = 0u32;
    let black = 0u32;
    let succ = moves_placement(white, black);
    assert_eq!(succ.len(), 24); // empty board, no mills possible
}

#[test]
fn mill_closure_offers_one_successor_per_removable_stone() {
    // White completes the mill a7-d7-g7 (points 0, 1, 2); Black has 3 stones,
    // none of which are in a mill, so all 3 are removable.
    let white_after = 0b111u32;
    let black = (1 << 5) | (1 << 10) | (1 << 15);
    let results = resolve_mill(white_after, black, 2);
    assert_eq!(results.len(), black.count_ones() as usize);
}

#[test]
fn mill_closure_with_all_opponent_in_mills_can_remove_any() {
    let white_dest_mover = 0b111u32; // completed mill at 0, 1, 2
    let black = MILLS[3] & FULL_MASK; // an actual opponent mill
    let results = resolve_mill(white_dest_mover, black, 2);
    assert_eq!(results.len(), 3);
}

#[test]
fn no_mill_no_capture_single_result() {
    let mover = 0b1u32;
    let opp = 0b10u32;
    let results = resolve_mill(mover, opp, 0);
    assert_eq!(results, vec![opp]);
}

#[test]
fn quiet_predecessor_roundtrip() {
    for seed in 0..200u64 {
        let pos = sample_position(3 + (seed % 4) as usize, 3 + (seed / 4 % 4) as usize, seed * 7919);
        let quiet_succs: Vec<Position> = moves_movement(pos.white(), pos.black())
            .into_iter()
            .filter(|s| s.white() == pos.black())
            .collect();
        for s in quiet_succs {
            let preds: HashSet<Position> = quiet_predecessors(s).into_iter().collect();
            assert!(preds.contains(&pos), "pos {:?} missing from predecessors of {:?}", pos, s);
        }
    }
}

#[test]
fn quiet_predecessors_excludes_mill_closing_arrival() {
    // The waiting side holds the completed mill 0-1-2: a stone that just came
    // to point 2 from point 3 would have closed it, which is no quiet move.
    let succ = Position::new(1 << 10, 0b111);
    let preds = quiet_predecessors(succ);
    for p in &preds {
        assert!(
            !(p.white() & (1 << 0) != 0 && p.white() & (1 << 1) != 0 && p.white() & (1 << 3) != 0),
            "predecessor {:?} reconstructs a mill-closing arrival at point 2",
            p
        );
    }
    let illegal_predecessor = Position::new(0b1011, 1 << 10);
    assert!(!preds.contains(&illegal_predecessor));
}

#[test]
fn quiet_predecessors_includes_genuinely_quiet_reversal() {
    let succ = Position::new(1 << 10, 0b10011);
    let expected = Position::new(0b1011, 1 << 10);
    let preds = quiet_predecessors(succ);
    assert!(preds.contains(&expected));
}

#[test]
fn stones_in_mills_are_protected() {
    let mill = 0b111u32;
    assert_eq!(removable_stones(mill | (1 << 12)), 1 << 12);
    assert_eq!(removable_stones(mill), mill);
    assert_eq!(removable_stones(0), 0);
}

#[test]
fn three_stones_jump_and_four_slide() {
    // Three stones on points 0, 3 and 9: 19 vacant points each, with the
    // mills 0-1-2 and so on out of reach for lack of a second stone.
    let jump = successors(Position::new((1 << 0) | (1 << 3) | (1 << 12), (1 << 5) | (1 << 16)));
    assert_eq!(jump.len(), 3 * 19);
    // Four stones with one vacant neighbor between them.
    let slide = successors(Position::new((1 << 0) | (1 << 2) | (1 << 4) | (1 << 6), (1 << 1) | (1 << 3) | (1 << 5)));
    assert_eq!(slide.len(), 2);
}

#[test]
fn capture_takes_one_stone_of_the_next_mover() {
    // The stone on 7 goes to 0 and closes 0-1-2; the stones on 12 and 14 can
    // each be taken.
    let pos = Position::new((1 << 7) | (1 << 1) | (1 << 2) | (1 << 20), (1 << 12) | (1 << 14));
    let succ = successors(pos);
    let white_after = 0b111 | (1 << 20);
    assert!(succ.contains(&Position::new(1 << 14, white_after)));
    assert!(succ.contains(&Position::new(1 << 12, white_after)));
    assert!(!succ.contains(&Position::new((1 << 12) | (1 << 14), white_after)));
}

#[test]
fn successors_are_distinct() {
    for seed in 0..100u64 {
        let pos = sample_position(3 + (seed % 7) as usize, 3 + (seed / 7 % 7) as usize, seed * 104729);
        let succ = successors(pos);
        let set: HashSet<Position> = succ.iter().copied().collect();
        assert_eq!(set.len(), succ.len());
    }
}
