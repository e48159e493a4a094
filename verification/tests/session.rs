use ninemm::board::parse_point;
use ninemm::movegen::successors;
use ninemm::opening::{PlacementState, Tt};
use ninemm::pos::Position;
use ninemm::retro::{Database, DRAW};
use ninemm::server::{is_ready, Color};
use ninemm::session::{
    choice, describe_value, enter_move, enter_placement, human_side, taken, Entry, Session, Stage, Turn,
};

#[test]
fn sides_by_name() {
    assert_eq!(human_side("white"), Some(Color::White));
    assert_eq!(human_side("w"), Some(Color::White));
    assert_eq!(human_side("black"), Some(Color::Black));
    assert_eq!(human_side("b"), Some(Color::Black));
    assert_eq!(human_side("White"), None);
    assert_eq!(human_side(""), None);
}

#[test]
fn values_in_words() {
    assert_eq!(describe_value(DRAW), "draw");
    assert_eq!(describe_value(0), "loss in 0");
    assert_eq!(describe_value(26), "loss in 26");
    assert_eq!(describe_value(31), "win in 31");
}

#[test]
fn a_game_begins_with_white_placing() {
    let g = Session::new(Color::White);
    assert_eq!(g.next_turn(), Turn::HumanPlaces);
    assert_eq!(g.hands(), Some((9, 9)));
    assert_eq!(g.board(), Position::new(0, 0));
    assert_eq!(Session::new(Color::Black).next_turn(), Turn::EnginePlaces);
}

#[test]
fn placements_are_entered_by_name() {
    let ps = PlacementState::initial();
    match enter_placement(&ps, "a7") {
        Entry::Play(s) => assert_eq!(s.pos, Position::new(0, 1)),
        other => panic!("expected a placement, got {other:?}"),
    }
    assert!(matches!(enter_placement(&ps, "d4"), Entry::Unreadable));
    assert!(matches!(enter_placement(&ps, "nonsense"), Entry::Unreadable));
    let after = PlacementState { pos: Position::new(0, 1), mover_hand: 9, opp_hand: 8 };
    assert!(matches!(enter_placement(&after, "a7"), Entry::Illegal));
}

#[test]
fn a_mill_asks_for_a_capture() {
    // White has 0 and 1 and closes the mill on g7; Black has 5 and 10.
    let ps = PlacementState { pos: Position::new(0b11, (1 << 5) | (1 << 10)), mover_hand: 7, opp_hand: 7 };
    match enter_placement(&ps, "g7") {
        Entry::Capture(list) => {
            let gone: Vec<Option<usize>> = list.iter().map(|s| taken(ps.pos, s.pos)).collect();
            assert_eq!(gone, vec![Some(5), Some(10)]);
        },
        other => panic!("expected a choice, got {other:?}"),
    }
    let one = PlacementState { pos: Position::new(0b11, 1 << 5), mover_hand: 7, opp_hand: 7 };
    match enter_placement(&one, "g7") {
        Entry::Play(s) => assert_eq!(s.pos.white(), 0),
        other => panic!("expected the only capture, got {other:?}"),
    }
}

#[test]
fn moves_are_entered_as_two_points() {
    let pos = Position::new((1 << 0) | (1 << 9) | (1 << 12) | (1 << 20), (1 << 5) | (1 << 10) | (1 << 15));
    assert!(matches!(enter_move(pos, Some("a7"), None), Entry::Incomplete));
    assert!(matches!(enter_move(pos, None, None), Entry::Incomplete));
    assert!(matches!(enter_move(pos, Some("a7"), Some("z9")), Entry::Unreadable));
    assert!(matches!(enter_move(pos, Some("g7"), Some("d7")), Entry::NoStone));
    assert!(matches!(enter_move(pos, Some("a7"), Some("g7")), Entry::Illegal));
    assert!(matches!(enter_move(pos, Some("a7"), Some("a7")), Entry::Illegal));
    match enter_move(pos, Some("a7"), Some("d7")) {
        Entry::Play(s) => {
            assert_eq!(s.black(), (1 << 1) | (1 << 9) | (1 << 12) | (1 << 20));
            assert!(successors(pos).contains(&s));
            assert_eq!(taken(pos, s), None);
        },
        other => panic!("expected a move, got {other:?}"),
    }
}

#[test]
fn a_move_that_closes_a_mill_asks_for_a_capture() {
    let pos = Position::new((1 << 7) | (1 << 1) | (1 << 2) | (1 << 20), (1 << 12) | (1 << 14) | (1 << 18));
    match enter_move(pos, Some("a4"), Some("a7")) {
        Entry::Capture(list) => assert_eq!(list.len(), 3),
        other => panic!("expected a choice, got {other:?}"),
    }
}

#[test]
fn choices_count_from_one() {
    assert_eq!(choice(1, 3), Some(0));
    assert_eq!(choice(3, 3), Some(2));
    assert_eq!(choice(0, 3), None);
    assert_eq!(choice(4, 3), None);
}

#[test]
fn a_whole_placement_phase() {
    let mut g = Session::new(Color::White);
    let mut plies = 0;
    while let Stage::Placement(ps) = g.stage {
        let next = ninemm::opening::successors(&ps);
        // Any placement will do; the last avoids early mills.
        g.place(*next.last().unwrap());
        plies += 1;
        assert_eq!(g.turn, if plies % 2 == 0 { Color::White } else { Color::Black });
    }
    assert_eq!(plies, 18);
    assert_eq!(g.hands(), None);
}

#[test]
fn boards_are_shown_in_physical_colors() {
    let mut g = Session::new(Color::White);
    let Stage::Placement(ps) = g.stage else { panic!("a game begins with placing") };
    let p = parse_point("a7").unwrap();
    let s = ninemm::opening::successors(&ps)[p];
    g.place(s);
    assert_eq!(g.turn, Color::Black);
    assert_eq!(g.board(), Position::new(1, 0));
    assert_eq!(g.hands(), Some((8, 9)));
}

#[test]
fn the_end_of_the_movement_phase() {
    let blocked = Position::new(0b1111, 0b1111_0000 | (1 << 9) | (1 << 11));
    let few = Position::new(0b11, 0b11100);
    let on = |pos| Session { stage: Stage::Movement(pos), turn: Color::Black, human: Color::White };
    assert_eq!(on(few).next_turn(), Turn::TooFew);
    assert_eq!(on(blocked).next_turn(), Turn::NoMoves);
    let free = Position::new(0b111, 0b111000);
    assert_eq!(on(free).next_turn(), Turn::EngineMoves);
    let mut g = on(free);
    g.turn = Color::White;
    assert_eq!(g.next_turn(), Turn::HumanMoves);
    g.make_move(successors(free)[0]);
    assert_eq!(g.turn, Color::Black);
    assert_eq!(g.stage, Stage::Movement(successors(free)[0]));
}

#[test]
fn an_empty_database_is_ready_for_nothing_but_itself() {
    let db = Database::new();
    assert!(is_ready(&db, false));
    assert!(!is_ready(&db, true));
    assert!(Tt::new().is_empty());
}
