use ninemm::pos::{bits, Position, FULL_MASK};

#[test]
fn accessors_roundtrip() {
    let p = Position::new(0b101, 0b010);
    assert_eq!(p.white(), 0b101);
    assert_eq!(p.black(), 0b010);
}

#[test]
fn swap_colors_roundtrip() {
    let p = Position::new(0b101, 0b010);
    assert_eq!(p.swap_colors().swap_colors(), p);
}

#[test]
fn bits_iterates_all_set() {
    let mask = 0b1011u32;
    let v: Vec<usize> = bits(mask);
    assert_eq!(v, vec![0, 1, 3]);
}

#[test]
fn blocked_position_from_figure_3() {
    // Point 0 (a7) has neighbors 1 (d7) and 7 (a4).
    let white = 1u32;
    let black = (1 << 1) | (1 << 7);
    let p = Position::new(white, black);
    assert!(p.is_blocked());
}

#[test]
fn not_blocked_with_empty_neighbor() {
    let white = 1u32;
    let black = 1 << 1;
    let p = Position::new(white, black);
    assert!(!p.is_blocked());
}

#[test]
fn three_stones_never_blocked_unless_board_full() {
    let white = 0b111u32;
    let black = FULL_MASK & !white & !(1 << 23); // one vacant point left
    let p = Position::new(white, black);
    assert!(!p.is_blocked());
}

#[test]
fn three_stones_are_blocked_on_a_full_board() {
    let white = 0b111u32;
    assert!(Position::new(white, FULL_MASK & !white).is_blocked());
}

#[test]
fn sets_and_counts() {
    let p = Position::new(0b1011, 0b0100);
    assert_eq!(p.occupied(), 0b1111);
    assert_eq!(p.empty(), FULL_MASK & !0b1111);
    assert_eq!(p.white_count(), 3);
    assert_eq!(p.black_count(), 1);
    assert!(!p.white_has_too_few());
    assert!(p.swap_colors().white_has_too_few());
}

#[test]
fn mills_are_seen_at_their_points() {
    assert!(Position::is_mill_at(0b111, 0));
    assert!(Position::is_mill_at(0b111, 2));
    assert!(!Position::is_mill_at(0b011, 0));
    assert!(!Position::is_mill_at(0b111, 7));
}

#[test]
fn text_shows_each_point() {
    let p = Position::new(0b1, 0b100);
    assert_eq!(p.to_string(), "W.B.....................");
}

#[test]
fn bits_of_nothing_and_of_everything() {
    assert_eq!(bits(0), Vec::<usize>::new());
    assert_eq!(bits(FULL_MASK), (0..24).collect::<Vec<usize>>());
}
