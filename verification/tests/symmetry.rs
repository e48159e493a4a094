use ninemm::board::{ADJ, MILLS, N};
use ninemm::index::{index, build_index_tables};
use ninemm::movegen::successors;
use ninemm::pos::Position;
use ninemm::symmetry::{
    apply, apply_pos, build_perms, canonicalize, canonicalize_set, is_canonical, is_canonical_set, stabilizer_size,
    N_SYMS, PERMS,
};
use std::collections::HashSet;

/// A stream of board masks.
fn masks(n: usize) -> Vec<u32> {
    let mut s: u64 = 0x9e37_79b9_7f4a_7c15;
    let mut out = Vec::new();
    for _ in 0..n {
        s = s.wrapping_mul(6364136223846793005).wrapping_add(1442695040888963407);
        out.push(((s >> 33) & 0x00ff_ffff) as u32);
    }
    out
}

#[test]
fn all_perms_are_bijections() {
    for s in 0..N_SYMS {
        let mut seen = [false; N];
        for p in 0..N {
            let q = PERMS[s][p] as usize;
            assert!(!seen[q], "sym {s} not injective at {q}");
            seen[q] = true;
        }
    }
}

#[test]
fn all_16_perms_distinct() {
    let set: HashSet<[u8; N]> = PERMS.iter().cloned().collect();
    assert_eq!(set.len(), N_SYMS);
}

#[test]
fn identity_present() {
    let id: [u8; N] = std::array::from_fn(|i| i as u8);
    assert!(PERMS.contains(&id));
}

#[test]
fn every_perm_has_inverse_in_set() {
    for s in 0..N_SYMS {
        let mut inv = [0u8; N];
        for p in 0..N {
            inv[PERMS[s][p] as usize] = p as u8;
        }
        assert!(PERMS.contains(&inv), "sym {s} has no inverse in the set");
    }
}

#[test]
fn group_closed_under_composition() {
    for s1 in 0..N_SYMS {
        for s2 in 0..N_SYMS {
            let mut comp = [0u8; N];
            for p in 0..N {
                comp[p] = PERMS[s2][PERMS[s1][p] as usize];
            }
            assert!(PERMS.contains(&comp), "composition of sym {s1} and {s2} not in group");
        }
    }
}

#[test]
fn perms_are_adjacency_automorphisms() {
    for s in 0..N_SYMS {
        for p in 0..N {
            let mapped_adj = apply(s, ADJ[p]);
            let q = PERMS[s][p] as usize;
            assert_eq!(mapped_adj, ADJ[q], "sym {s} does not map ADJ[{p}] onto ADJ[{q}]");
        }
    }
}

#[test]
fn perms_are_mill_automorphisms() {
    for s in 0..N_SYMS {
        let mapped_mills: HashSet<u32> = MILLS.iter().map(|&m| apply(s, m)).collect();
        let orig_mills: HashSet<u32> = MILLS.iter().cloned().collect();
        assert_eq!(mapped_mills, orig_mills, "sym {s} does not preserve mill set");
    }
}

#[test]
fn canonicalize_is_idempotent() {
    let m = masks(400);
    for i in 0..200 {
        let white = m[2 * i];
        let pos = Position::new(white, m[2 * i + 1] & !white);
        let (canon, _) = canonicalize(pos);
        assert!(is_canonical(canon));
        let (canon2, _) = canonicalize(canon);
        assert_eq!(canon2, canon);
    }
}

#[test]
fn canonical_form_invariant_under_symmetry() {
    for mask in masks(100) {
        for sym in 0..N_SYMS {
            assert_eq!(canonicalize_set(mask), canonicalize_set(apply(sym, mask)));
        }
        assert!(is_canonical_set(canonicalize_set(mask)));
    }
}

#[test]
fn canonicalize_pos_invariant_under_symmetry() {
    let m = masks(200);
    for i in 0..100 {
        let white = m[2 * i];
        let pos = Position::new(white, m[2 * i + 1] & !white);
        let (c1, s) = canonicalize(pos);
        assert_eq!(apply_pos(s, pos), c1);
        for sym in 0..N_SYMS {
            assert_eq!(canonicalize(apply_pos(sym, pos)).0, c1);
        }
    }
}

#[test]
fn apply_pos_preserves_stone_counts() {
    let m = masks(200);
    for i in 0..100 {
        let white = m[2 * i];
        let pos = Position::new(white, m[2 * i + 1] & !white);
        for sym in 0..N_SYMS {
            let out = apply_pos(sym, pos);
            assert_eq!(out.white_count(), pos.white_count());
            assert_eq!(out.black_count(), pos.black_count());
        }
    }
}

#[test]
fn perms_are_what_they_are_built_as() {
    assert_eq!(build_perms(), PERMS);
}

#[test]
fn stabilizers_of_symmetric_positions() {
    let empty = Position::new(0, 0);
    assert_eq!(stabilizer_size(empty), 16);
    // A lone corner of the outer ring is fixed by the identity and by the
    // reflection through it.
    assert_eq!(stabilizer_size(Position::new(1, 0)), 2);
    // The middle ring as a whole is fixed by everything.
    assert_eq!(stabilizer_size(Position::new(0xff00, 0)), 16);
    assert_eq!(stabilizer_size(Position::new(0b1, 0b10)), 1);
}

#[test]
fn orbits_and_stabilizers_multiply_to_sixteen() {
    let m = masks(60);
    for i in 0..30 {
        let white = m[2 * i] & 0x0f0f;
        let pos = Position::new(white, m[2 * i + 1] & !white & 0x0033);
        let orbit: HashSet<Position> = (0..N_SYMS).map(|s| apply_pos(s, pos)).collect();
        assert_eq!(orbit.len() as u32 * stabilizer_size(pos), 16);
    }
}

#[test]
fn moves_commute_with_symmetries_on_values() {
    let pos = Position::new(0b1001_0110, 0b1000_0001_0000_1000 << 4);
    for s in 0..N_SYMS {
        let a: HashSet<Position> = successors(pos).into_iter().map(|t| apply_pos(s, t)).collect();
        let b: HashSet<Position> = successors(apply_pos(s, pos)).into_iter().collect();
        assert_eq!(a, b);
    }
}

#[test]
fn symmetric_positions_share_a_slot() {
    let tables = build_index_tables();
    let pos = Position::new(0b10_0110, 0b1000_0001_0000_1000 << 4);
    let here = index(&tables, pos);
    for s in 0..N_SYMS {
        assert_eq!(index(&tables, apply_pos(s, pos)), here);
    }
}
