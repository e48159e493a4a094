use ninemm::movegen::successors;
use ninemm::oracle::{all_states, combinations, estimate_count, relax, solve_pair, Value};
use ninemm::pos::Position;
use std::collections::HashMap;

#[test]
fn combinations_count_matches_binomial() {
    assert_eq!(combinations(&(0..24).collect::<Vec<_>>(), 3).len(), 2024);
    assert_eq!(combinations(&(0..21).collect::<Vec<_>>(), 3).len(), 1330);
}

#[test]
fn all_states_3_3_matches_expected_raw_count() {
    // C(24,3) * C(21,3) = 2024 * 1330 = 2,691,920
    assert_eq!(all_states(3, 3).len(), 2_691_920);
}

#[test]
fn combinations_come_in_order() {
    assert_eq!(
        combinations(&vec![2, 5, 7, 9], 2),
        vec![vec![2, 5], vec![2, 7], vec![2, 9], vec![5, 7], vec![5, 9], vec![7, 9]]
    );
    assert_eq!(combinations(&vec![1, 2], 0), vec![Vec::<usize>::new()]);
    assert!(combinations(&vec![1, 2], 3).is_empty());
}

#[test]
fn counts_without_listing() {
    assert_eq!(estimate_count(3, 3), 2_691_920);
    assert_eq!(estimate_count(9, 9), 1_307_504 * 5005);
    assert_eq!(estimate_count(1, 1), all_states(1, 1).len() as u64);
}

#[test]
fn one_stone_against_three_is_lost() {
    // The side with three stones moves and leaves the other with fewer than
    // three: it wins in one. The lone stone can move, and then loses in two,
    // or cannot, and has lost.
    let values = solve_pair(1, 3, &HashMap::new());
    assert_eq!(values.len(), 2 * 24 * 1771);
    for (&k, &v) in values.iter() {
        let p = Position(k);
        if p.white_count() == 3 {
            assert_eq!(v, Value::Win(1));
        } else if p.is_blocked() {
            assert_eq!(v, Value::Loss(0));
        } else {
            assert_eq!(v, Value::Loss(2));
        }
    }
}

#[test]
fn a_position_is_worked_out_from_its_successors() {
    // Four stones that slide, with two moves.
    let pos = Position::new((1 << 0) | (1 << 2) | (1 << 4) | (1 << 6), (1 << 1) | (1 << 3) | (1 << 5));
    let next = successors(pos);
    assert_eq!(next.len(), 2);
    let none = HashMap::new();
    let known = |a: Option<Value>, b: Option<Value>| {
        let mut m = HashMap::new();
        for (q, v) in next.iter().zip([a, b]) {
            if let Some(v) = v {
                m.insert(q.0, v);
            }
        }
        relax(pos, &none, &m)
    };
    assert_eq!(known(None, None), None);
    assert_eq!(known(Some(Value::Win(3)), None), None);
    assert_eq!(known(Some(Value::Win(3)), Some(Value::Win(5))), Some(Value::Loss(6)));
    assert_eq!(known(Some(Value::Loss(4)), Some(Value::Win(5))), Some(Value::Win(5)));
    assert_eq!(known(Some(Value::Loss(4)), Some(Value::Loss(2))), Some(Value::Win(3)));
}

#[test]
fn every_value_of_a_small_pair_is_worked_out_from_the_others() {
    let values = solve_pair(1, 3, &HashMap::new());
    let none = HashMap::new();
    for (&k, &v) in values.iter() {
        assert_eq!(relax(Position(k), &none, &values), Some(v));
    }
}
