use ninemm::board::{
    build_adj, build_mills, build_point_mills, parse_point, point, point_name, ring_index, ADJ, MILLS, N, N_MILLS,
    POINT_MILLS,
};

#[test]
fn degree_distribution() {
    // 12 corners with degree 2, 8 outer and inner midpoints with degree 3,
    // 4 middle midpoints with degree 4.
    let mut deg_count = std::collections::HashMap::new();
    for p in 0..N {
        let d = ADJ[p].count_ones();
        *deg_count.entry(d).or_insert(0) += 1;
    }
    assert_eq!(deg_count.get(&2), Some(&12));
    assert_eq!(deg_count.get(&3), Some(&8));
    assert_eq!(deg_count.get(&4), Some(&4));
}

#[test]
fn edge_count() {
    let total: u32 = ADJ.iter().map(|m| m.count_ones()).sum();
    assert_eq!(total, 64); // 2 * 32 edges
}

#[test]
fn adjacency_symmetric() {
    for p in 0..N {
        for q in 0..N {
            if ADJ[p] & (1 << q) != 0 {
                assert!(ADJ[q] & (1 << p) != 0, "adjacency not symmetric for {p},{q}");
            }
        }
    }
}

#[test]
fn no_self_adjacency() {
    for p in 0..N {
        assert_eq!(ADJ[p] & (1 << p), 0);
    }
}

#[test]
fn mill_count_and_size() {
    assert_eq!(MILLS.len(), N_MILLS);
    for m in MILLS {
        assert_eq!(m.count_ones(), 3);
    }
}

#[test]
fn every_point_in_exactly_two_mills() {
    for p in 0..N {
        let count = MILLS.iter().filter(|m| **m & (1 << p) != 0).count();
        assert_eq!(count, 2, "point {p} not in exactly 2 mills");
    }
}

#[test]
fn mills_are_distinct() {
    let mut set = std::collections::HashSet::new();
    for m in MILLS {
        assert!(set.insert(m), "duplicate mill {m:x}");
    }
}

#[test]
fn point_mills_matches_mills() {
    for p in 0..N {
        for m in POINT_MILLS[p] {
            assert!(MILLS.contains(&m));
            assert!(m & (1 << p) != 0);
        }
    }
}

#[test]
fn point_name_roundtrip() {
    for p in 0..N {
        let name = point_name(p);
        assert_eq!(parse_point(&name), Some(p), "roundtrip failed for {p} ({name})");
    }
}

#[test]
fn known_point_names() {
    assert_eq!(point_name(0), "a7");
    assert_eq!(point_name(1), "d7");
    assert_eq!(point_name(2), "g7");
    assert_eq!(point_name(6), "a1");
    assert_eq!(point_name(9), "d6");
    assert_eq!(point_name(17), "d5");
}

#[test]
fn mill_lines_are_geometrically_straight() {
    let names: Vec<String> = (0..N).map(point_name).collect();
    let mill_names: Vec<Vec<&str>> = MILLS
        .iter()
        .map(|m| (0..N).filter(|p| m & (1 << p) != 0).map(|p| names[p].as_str()).collect())
        .collect();
    let has = |a: &str, b: &str, c: &str| {
        mill_names.iter().any(|m| {
            let mut s: Vec<&str> = m.clone();
            s.sort();
            let mut want = vec![a, b, c];
            want.sort();
            s == want
        })
    };
    assert!(has("a7", "d7", "g7"));
    assert!(has("d7", "d6", "d5"));
    assert!(has("a1", "a4", "a7"));
}

#[test]
fn texts_that_name_no_point() {
    for s in ["", "a", "7", "d4", "h1", "a8", "a0", "A1", "a1 ", " a1", "b1", "a11", "a-1"] {
        assert_eq!(parse_point(s), None, "{s:?} should name no point");
    }
}

#[test]
fn rows_are_read_as_numbers() {
    assert_eq!(parse_point("a07"), Some(0));
    assert_eq!(parse_point("a+7"), Some(0));
    assert_eq!(parse_point("d007"), Some(1));
}

#[test]
fn built_tables_are_the_constants() {
    assert_eq!(build_adj(), ADJ);
    assert_eq!(build_mills(), MILLS);
    assert_eq!(build_point_mills(), POINT_MILLS);
}

#[test]
fn rings_wrap_around() {
    assert_eq!(point(0, 0), 0);
    assert_eq!(point(2, 7), 23);
    for p in 0..N {
        let (ring, i) = ring_index(p);
        assert_eq!(point(ring, i), p);
    }
}

#[test]
fn corner_of_the_outer_ring() {
    assert_eq!(ADJ[0], (1 << 1) | (1 << 7));
    assert_eq!(ADJ[9], (1 << 1) | (1 << 8) | (1 << 10) | (1 << 17));
    assert!(MILLS.contains(&0b111));
}
