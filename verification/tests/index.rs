use ninemm::index::{
    all_subspaces, build_index_tables, index, is_canonical_slot, n_canonical_white, solve_order, subspace_size, unindex,
    SubspaceId, BINOM,
};
use ninemm::pos::Position;
use ninemm::rank::{build_binom, mask_rank, mask_unrank};
use ninemm::symmetry;

#[test]
fn binom_matches_known_values() {
    assert_eq!(BINOM[24][9], 1_307_504);
    assert_eq!(BINOM[24][3], 2024);
    assert_eq!(BINOM[5][0], 1);
    assert_eq!(BINOM[5][5], 1);
}

#[test]
fn mask_rank_unrank_bijection_exhaustive_small() {
    // A universe of 8 points, all C(8,3) = 56 subsets of size 3.
    let universe: u32 = 0xFF;
    let k = 3;
    let mut seen = std::collections::HashSet::new();
    for mask in 0u32..256 {
        if mask.count_ones() as usize != k {
            continue;
        }
        let r = mask_rank(mask, universe);
        assert!(seen.insert(r), "duplicate rank {r}");
        let back = mask_unrank(r, k, universe);
        assert_eq!(back, mask, "unrank({r}) != {mask:b}");
    }
    assert_eq!(seen.len(), BINOM[8][3] as usize);
}

#[test]
fn mask_rank_handles_non_trivial_universe() {
    let pts = [2u32, 5, 7, 10, 15, 20];
    let universe: u32 = pts.iter().map(|p| 1 << p).sum();
    let k = 2;
    let mut seen = std::collections::HashSet::new();
    for i in 0..pts.len() {
        for j in (i + 1)..pts.len() {
            let mask = (1 << pts[i]) | (1 << pts[j]);
            let r = mask_rank(mask, universe);
            assert!(seen.insert(r));
            assert_eq!(mask_unrank(r, k, universe), mask);
        }
    }
    assert_eq!(seen.len(), BINOM[6][2] as usize);
}

#[test]
fn subspace_sizes_sum_matches_expected_order_of_magnitude() {
    let tables = build_index_tables();
    let total: u64 = all_subspaces().iter().map(|&s| subspace_size(&tables, s)).sum();
    // About 8.9e9 after 16-fold symmetry, wasted slots counted.
    assert!(total > 7_000_000_000);
    assert!(total < 10_000_000_000);
}

#[test]
fn solve_order_is_ascending_by_total_stones() {
    let order = solve_order();
    assert_eq!(order.len(), 28);
    let mut last_total = 0;
    for (a, b) in order {
        assert!(a <= b);
        assert!(a + b >= last_total);
        last_total = a + b;
    }
}

#[test]
fn index_is_symmetry_invariant() {
    let tables = build_index_tables();
    let white = 0b0000_0000_1110_0111u32;
    let black = 0b0011_0011_0000_1000_0000u32 & !white;
    let pos = Position::new(white, black);
    let (sub0, idx0) = index(&tables, pos);
    for s in 0..symmetry::N_SYMS {
        let sym_pos = symmetry::apply_pos(s, pos);
        let (sub, idx) = index(&tables, sym_pos);
        assert_eq!(sub, sub0);
        assert_eq!(idx, idx0, "symmetry {s} broke index invariance");
    }
}

#[test]
fn canonical_slots_round_trip_exactly() {
    let tables = build_index_tables();
    for &(a, b) in &[(3, 3), (4, 3), (3, 4)] {
        let sub = SubspaceId::new(a, b);
        let size = subspace_size(&tables, sub);
        let step = (size / 500).max(1);
        let mut idx = 0u64;
        while idx < size {
            if is_canonical_slot(&tables, sub, idx) {
                let pos = unindex(&tables, sub, idx);
                let (sub2, idx2) = index(&tables, pos);
                assert_eq!(sub2, sub);
                assert_eq!(idx2, idx, "canonical slot {idx} in {sub:?} did not round-trip");
            }
            idx += step;
        }
    }
}

#[test]
fn non_canonical_slots_exist_and_are_consistent() {
    let tables = build_index_tables();
    let sub = SubspaceId::new(3, 3);
    let size = subspace_size(&tables, sub);
    let mut found_wasted = false;
    for idx in 0..size.min(20_000) {
        if !is_canonical_slot(&tables, sub, idx) {
            found_wasted = true;
            let pos = unindex(&tables, sub, idx);
            let (sub2, idx2) = index(&tables, pos);
            assert_eq!(sub2, sub);
            assert!(idx2 <= idx);
            assert!(is_canonical_slot(&tables, sub2, idx2));
        }
    }
    assert!(found_wasted, "expected at least one wasted slot in 3-3 within the scanned range");
}

#[test]
fn index_never_panics_on_arbitrary_valid_positions() {
    let tables = build_index_tables();
    for seed in 0..490u64 {
        let (w, b) = (3 + (seed % 7) as usize, 3 + (seed / 7 % 7) as usize);
        let mut pts: Vec<u32> = (0..24).collect();
        let mut s = (seed * 2_654_435_761) | 1;
        for i in (1..pts.len()).rev() {
            s = s.wrapping_mul(6364136223846793005).wrapping_add(1);
            let j = (s >> 33) as usize % (i + 1);
            pts.swap(i, j);
        }
        let white: u32 = pts[..w].iter().map(|&p| 1 << p).sum();
        let black: u32 = pts[w..w + b].iter().map(|&p| 1 << p).sum();
        let pos = Position::new(white, black);
        let (sub, idx) = index(&tables, pos);
        assert_eq!(sub, SubspaceId::new(w, b));
        assert!(idx < subspace_size(&tables, sub));
    }
}

#[test]
fn built_binomials_are_the_constants() {
    assert_eq!(build_binom(), BINOM);
}

#[test]
fn sizes_of_the_smallest_subspace() {
    let tables = build_index_tables();
    assert_eq!(n_canonical_white(&tables, 3), 158);
    assert_eq!(subspace_size(&tables, SubspaceId::new(3, 3)), 158 * 1330);
}

#[test]
fn flipping_exchanges_the_counts() {
    let sub = SubspaceId::new(4, 7);
    assert_eq!(sub.flip(), SubspaceId::new(7, 4));
    assert_eq!(sub.flip().flip(), sub);
}

#[test]
fn all_splits_are_listed_in_order() {
    let all = all_subspaces();
    assert_eq!(all.len(), 49);
    assert_eq!(all[0], SubspaceId::new(3, 3));
    assert_eq!(all[7], SubspaceId::new(4, 3));
    assert_eq!(all[48], SubspaceId::new(9, 9));
}

#[test]
fn order_of_the_first_pairs() {
    assert_eq!(solve_order()[..5], [(3, 3), (3, 4), (3, 5), (4, 4), (3, 6)]);
    assert_eq!(solve_order()[27], (9, 9));
}

#[test]
fn ranks_count_in_ascending_order() {
    assert_eq!(mask_rank(0b0011, 0b1111), 0);
    assert_eq!(mask_rank(0b0101, 0b1111), 1);
    assert_eq!(mask_rank(0b1100, 0b1111), 5);
    assert_eq!(mask_unrank(5, 2, 0b1111), 0b1100);
}
