//! Binomial coefficients and the combinatorial number system: ranking the
//! `k`-subsets of a point set.

use vstd::prelude::*;

use crate::mask::{
    contains, count, count_below, group_mask, insert, lemma_count_on_board, lemma_ext, lemma_on_board,
    member, on_board, with,
};

verus! {

/// Pascal's triangle: `BINOM[n][k]` is the number of `k`-subsets of `n` things.
pub const BINOM: [[u64; 25]; 25] = [
    [1, 0, 0, 0, 0, 0, 0, 0, 0, 0, 0, 0, 0, 0, 0, 0, 0, 0, 0, 0, 0, 0, 0, 0, 0],
    [1, 1, 0, 0, 0, 0, 0, 0, 0, 0, 0, 0, 0, 0, 0, 0, 0, 0, 0, 0, 0, 0, 0, 0, 0],
    [1, 2, 1, 0, 0, 0, 0, 0, 0, 0, 0, 0, 0, 0, 0, 0, 0, 0, 0, 0, 0, 0, 0, 0, 0],
    [1, 3, 3, 1, 0, 0, 0, 0, 0, 0, 0, 0, 0, 0, 0, 0, 0, 0, 0, 0, 0, 0, 0, 0, 0],
    [1, 4, 6, 4, 1, 0, 0, 0, 0, 0, 0, 0, 0, 0, 0, 0, 0, 0, 0, 0, 0, 0, 0, 0, 0],
    [1, 5, 10, 10, 5, 1, 0, 0, 0, 0, 0, 0, 0, 0, 0, 0, 0, 0, 0, 0, 0, 0, 0, 0, 0],
    [1, 6, 15, 20, 15, 6, 1, 0, 0, 0, 0, 0, 0, 0, 0, 0, 0, 0, 0, 0, 0, 0, 0, 0, 0],
    [1, 7, 21, 35, 35, 21, 7, 1, 0, 0, 0, 0, 0, 0, 0, 0, 0, 0, 0, 0, 0, 0, 0, 0, 0],
    [1, 8, 28, 56, 70, 56, 28, 8, 1, 0, 0, 0, 0, 0, 0, 0, 0, 0, 0, 0, 0, 0, 0, 0, 0],
    [1, 9, 36, 84, 126, 126, 84, 36, 9, 1, 0, 0, 0, 0, 0, 0, 0, 0, 0, 0, 0, 0, 0, 0, 0],
    [1, 10, 45, 120, 210, 252, 210, 120, 45, 10, 1, 0, 0, 0, 0, 0, 0, 0, 0, 0, 0, 0, 0, 0, 0],
    [1, 11, 55, 165, 330, 462, 462, 330, 165, 55, 11, 1, 0, 0, 0, 0, 0, 0, 0, 0, 0, 0, 0, 0, 0],
    [1, 12, 66, 220, 495, 792, 924, 792, 495, 220, 66, 12, 1, 0, 0, 0, 0, 0, 0, 0, 0, 0, 0, 0, 0],
    [1, 13, 78, 286, 715, 1287, 1716, 1716, 1287, 715, 286, 78, 13, 1, 0, 0, 0, 0, 0, 0, 0, 0, 0, 0, 0],
    [1, 14, 91, 364, 1001, 2002, 3003, 3432, 3003, 2002, 1001, 364, 91, 14, 1, 0, 0, 0, 0, 0, 0, 0, 0, 0, 0],
    [1, 15, 105, 455, 1365, 3003, 5005, 6435, 6435, 5005, 3003, 1365, 455, 105, 15, 1, 0, 0, 0, 0, 0, 0, 0, 0, 0],
    [1, 16, 120, 560, 1820, 4368, 8008, 11440, 12870, 11440, 8008, 4368, 1820, 560, 120, 16, 1, 0, 0, 0, 0, 0, 0, 0, 0],
    [1, 17, 136, 680, 2380, 6188, 12376, 19448, 24310, 24310, 19448, 12376, 6188, 2380, 680, 136, 17, 1, 0, 0, 0, 0, 0, 0, 0],
    [1, 18, 153, 816, 3060, 8568, 18564, 31824, 43758, 48620, 43758, 31824, 18564, 8568, 3060, 816, 153, 18, 1, 0, 0, 0, 0, 0, 0],
    [1, 19, 171, 969, 3876, 11628, 27132, 50388, 75582, 92378, 92378, 75582, 50388, 27132, 11628, 3876, 969, 171, 19, 1, 0, 0, 0, 0, 0],
    [1, 20, 190, 1140, 4845, 15504, 38760, 77520, 125970, 167960, 184756, 167960, 125970, 77520, 38760, 15504, 4845, 1140, 190, 20, 1, 0, 0, 0, 0],
    [1, 21, 210, 1330, 5985, 20349, 54264, 116280, 203490, 293930, 352716, 352716, 293930, 203490, 116280, 54264, 20349, 5985, 1330, 210, 21, 1, 0, 0, 0],
    [1, 22, 231, 1540, 7315, 26334, 74613, 170544, 319770, 497420, 646646, 705432, 646646, 497420, 319770, 170544, 74613, 26334, 7315, 1540, 231, 22, 1, 0, 0],
    [1, 23, 253, 1771, 8855, 33649, 100947, 245157, 490314, 817190, 1144066, 1352078, 1352078, 1144066, 817190, 490314, 245157, 100947, 33649, 8855, 1771, 253, 23, 1, 0],
    [1, 24, 276, 2024, 10626, 42504, 134596, 346104, 735471, 1307504, 1961256, 2496144, 2704156, 2496144, 1961256, 1307504, 735471, 346104, 134596, 42504, 10626, 2024, 276, 24, 1],
];

/// The number of `k`-subsets of `n` things.
pub open spec fn binom(n: nat, k: nat) -> nat
    decreases n,
{
    if k == 0 {
        1
    } else if n == 0 {
        0
    } else {
        binom((n - 1) as nat, (k - 1) as nat) + binom((n - 1) as nat, k)
    }
}

proof fn lemma_binom_row(n: int, k: int)
    requires
        1 <= n < 25,
        1 <= k < 25,
    ensures
        BINOM[n][k] == BINOM[n - 1][k - 1] + BINOM[n - 1][k],
{
}

/// The table holds the binomial coefficients.
pub proof fn lemma_binom(n: int, k: int)
    requires
        0 <= n < 25,
        0 <= k < 25,
    ensures
        BINOM[n][k] == binom(n as nat, k as nat),
    decreases n,
{
    if n == 0 || k == 0 {
    } else {
        lemma_binom_row(n, k);
        lemma_binom(n - 1, k - 1);
        lemma_binom(n - 1, k);
    }
}

/// Pascal's triangle, built row by row.
pub fn build_binom() -> (c: [[u64; 25]; 25])
    ensures
        c@ == BINOM@,
        forall|n: int, k: int| 0 <= n < 25 && 0 <= k < 25 ==> #[trigger] c[n][k] == binom(n as nat, k as nat),
{
    let mut c: [[u64; 25]; 25] = [[0; 25]; 25];
    let mut n: usize = 0;
    while n < 25
        invariant
            n <= 25,
            forall|i: int| 0 <= i < n ==> #[trigger] c[i] == BINOM[i],
        decreases 25 - n,
    {
        let mut row: [u64; 25] = [0; 25];
        row[0] = 1;
        proof {
            lemma_binom(n as int, 0);
        }
        let mut k: usize = 1;
        while k < 25
            invariant
                1 <= k <= 25,
                n < 25,
                forall|i: int| 0 <= i < n ==> #[trigger] c[i] == BINOM[i],
                forall|j: int| 0 <= j < k ==> #[trigger] row[j] == BINOM[n as int][j],
            decreases 25 - k,
        {
            if n > 0 {
                proof {
                    lemma_binom_row(n as int, k as int);
                    assert(c[n - 1] == BINOM[n - 1]);
                }
                row[k] = c[n - 1][k - 1] + c[n - 1][k];
            } else {
                proof {
                    lemma_binom(0, k as int);
                }
                row[k] = 0;
            }
            k = k + 1;
        }
        proof {
            assert(row@ =~= BINOM[n as int]@);
        }
        c[n] = row;
        n = n + 1;
    }
    proof {
        assert(c@ =~= BINOM@);
        assert forall|n: int, k: int| 0 <= n < 25 && 0 <= k < 25 implies #[trigger] c[n][k] == binom(n as nat, k as nat) by {
            lemma_binom(n, k);
        }
    }
    c
}

/// There is at least one `k`-subset exactly when `k` does not exceed `n`.
pub proof fn lemma_binom_positive(n: nat, k: nat)
    ensures
        binom(n, k) > 0 <==> k <= n,
    decreases n,
{
    if n > 0 && k > 0 {
        lemma_binom_positive((n - 1) as nat, (k - 1) as nat);
        lemma_binom_positive((n - 1) as nat, k);
    }
}

/// One more thing to choose from does not lower the number of choices.
pub proof fn lemma_binom_mono(n: nat, k: nat)
    ensures
        binom(n, k) <= binom(n + 1, k),
{
}

/// The coefficients of the table stay below 2^24.
pub proof fn lemma_binom_small(n: nat, k: nat)
    requires
        n <= 24,
        k <= 24,
    ensures
        binom(n, k) <= 2704156,
{
    lemma_binom(n as int, k as int);
    lemma_binom_table_small(n as int, k as int);
}

proof fn lemma_binom_table_small(n: int, k: int)
    requires
        0 <= n < 25,
        0 <= k < 25,
    ensures
        BINOM[n][k] <= 2704156,
{
}

/// The rank of the points of `sub` below `n` among the equally large subsets
/// of the points of `universe` below `n`.
pub open spec fn rank_below(sub: u32, universe: u32, n: int) -> nat
    decreases n,
{
    if n <= 0 {
        0
    } else if member(sub, n - 1) {
        rank_below(sub, universe, n - 1) + binom(count_below(universe, n - 1), count_below(sub, n - 1) + 1)
    } else {
        rank_below(sub, universe, n - 1)
    }
}

/// The rank of `sub` among the equally large subsets of `universe`.
pub open spec fn rank(sub: u32, universe: u32) -> nat {
    rank_below(sub, universe, 24)
}

/// Every point of `sub` belongs to `universe`.
pub open spec fn subset(sub: u32, universe: u32) -> bool {
    forall|p: int| #[trigger] member(sub, p) ==> member(universe, p)
}

/// A rank is less than the number of subsets.
pub proof fn lemma_rank_bound(sub: u32, universe: u32, n: int)
    requires
        0 <= n,
        subset(sub, universe),
    ensures
        rank_below(sub, universe, n) < binom(count_below(universe, n), count_below(sub, n)),
    decreases n,
{
    if n > 0 {
        lemma_rank_bound(sub, universe, n - 1);
        lemma_binom_mono(count_below(universe, n - 1), count_below(sub, n - 1));
    }
}

/// Equally large subsets with one rank agree.
proof fn lemma_rank_injective(a: u32, b: u32, universe: u32, n: int)
    requires
        0 <= n,
        subset(a, universe),
        subset(b, universe),
        count_below(a, n) == count_below(b, n),
        rank_below(a, universe, n) == rank_below(b, universe, n),
    ensures
        forall|p: int| p < n ==> member(a, p) == member(b, p),
    decreases n,
{
    broadcast use group_mask;
    if n > 0 {
        lemma_rank_bound(a, universe, n - 1);
        lemma_rank_bound(b, universe, n - 1);
        assert(member(a, n - 1) == member(b, n - 1));
        lemma_rank_injective(a, b, universe, n - 1);
    }
}

/// What lies below `n` alone decides counts and ranks below `n`.
proof fn lemma_below_congruent(a: u32, b: u32, universe: u32, n: int)
    requires
        forall|p: int| p < n ==> member(a, p) == member(b, p),
    ensures
        count_below(a, n) == count_below(b, n),
        rank_below(a, universe, n) == rank_below(b, universe, n),
    decreases n,
{
    if n > 0 {
        lemma_below_congruent(a, b, universe, n - 1);
    }
}

/// The `k`-subset of the points of `universe` below `n` with rank `r`.
pub open spec fn unrank_below(r: nat, k: nat, universe: u32, n: int) -> u32
    decreases n,
{
    if n <= 0 {
        0
    } else {
        let c = binom(count_below(universe, n - 1), k);
        if member(universe, n - 1) && c <= r && k > 0 {
            with(unrank_below((r - c) as nat, (k - 1) as nat, universe, n - 1), n - 1)
        } else {
            unrank_below(r, k, universe, n - 1)
        }
    }
}

/// The `k`-subset of `universe` with rank `r`.
pub open spec fn unrank(r: nat, k: nat, universe: u32) -> u32 {
    unrank_below(r, k, universe, 24)
}

proof fn lemma_unrank_below(r: nat, k: nat, universe: u32, n: int)
    requires
        0 <= n <= 24,
        r < binom(count_below(universe, n), k),
    ensures
        subset(unrank_below(r, k, universe, n), universe),
        forall|p: int| #[trigger] member(unrank_below(r, k, universe, n), p) ==> p < n,
        count_below(unrank_below(r, k, universe, n), n) == k,
        rank_below(unrank_below(r, k, universe, n), universe, n) == r,
    decreases n,
{
    broadcast use group_mask;
    let m = unrank_below(r, k, universe, n);
    if n > 0 {
        let u = count_below(universe, n - 1);
        let c = binom(u, k);
        if member(universe, n - 1) && c <= r && k > 0 {
            let low = unrank_below((r - c) as nat, (k - 1) as nat, universe, n - 1);
            lemma_unrank_below((r - c) as nat, (k - 1) as nat, universe, n - 1);
            lemma_below_congruent(m, low, universe, n - 1);
        } else {
            lemma_unrank_below(r, k, universe, n - 1);
            assert(!member(m, n - 1));
        }
    }
}

/// Unranking gives the subset of that size and that rank.
pub proof fn unranking_inverts_ranking(r: nat, k: nat, universe: u32)
    requires
        on_board(universe),
        r < binom(count(universe), k),
    ensures
        subset(unrank(r, k, universe), universe),
        on_board(unrank(r, k, universe)),
        count(unrank(r, k, universe)) == k,
        rank(unrank(r, k, universe), universe) == r,
{
    lemma_count_on_board(universe);
    lemma_unrank_below(r, k, universe, 24);
    lemma_on_board(unrank(r, k, universe));
    lemma_count_on_board(unrank(r, k, universe));
}

/// Ranking and then unranking gives the subset back.
pub proof fn ranking_inverts_unranking(sub: u32, universe: u32)
    requires
        on_board(universe),
        subset(sub, universe),
    ensures
        on_board(sub),
        rank(sub, universe) < binom(count(universe), count(sub)),
        unrank(rank(sub, universe), count(sub), universe) == sub,
{
    lemma_on_board(universe);
    lemma_on_board(sub);
    lemma_count_on_board(universe);
    lemma_count_on_board(sub);
    lemma_rank_bound(sub, universe, 24);
    let m = unrank(rank(sub, universe), count(sub), universe);
    lemma_unrank_below(rank(sub, universe), count(sub), universe, 24);
    lemma_rank_injective(m, sub, universe, 24);
    assert forall|p: int| 0 <= p < 32 implies member(m, p) == member(sub, p) by {}
    lemma_ext(m, sub);
}

/// Rank a subset of `universe` (its points renumbered densely in ascending
/// order) by the combinatorial number system.
pub fn mask_rank(sub: u32, universe: u32) -> (r: u64)
    requires
        on_board(universe),
        sub & !universe == 0,
    ensures
        r == rank(sub, universe),
        r < binom(count(universe), count(sub)),
{
    broadcast use group_mask;

    proof {
        crate::mask::lemma_disjoint(sub, !universe);
        lemma_on_board(universe);
        ranking_inverts_unranking(sub, universe);
    }
    let mut r: u64 = 0;
    let mut below: usize = 0;
    let mut chosen: usize = 0;
    let mut p: usize = 0;
    while p < 24
        invariant
            p <= 24,
            subset(sub, universe),
            below == count_below(universe, p as int),
            chosen == count_below(sub, p as int),
            below <= p,
            chosen <= below,
            r == rank_below(sub, universe, p as int),
            r <= 2704156 * p,
        decreases 24 - p,
    {
        if contains(universe, p) {
            if contains(sub, p) {
                chosen = chosen + 1;
                proof {
                    lemma_binom(below as int, chosen as int);
                    lemma_binom_small(below as nat, chosen as nat);
                }
                r = r + BINOM[below][chosen];
            }
            below = below + 1;
        }
        p = p + 1;
    }
    r
}

/// Reconstruct the `k`-subset of `universe` with the given rank.
pub fn mask_unrank(r: u64, k: usize, universe: u32) -> (m: u32)
    requires
        on_board(universe),
        r < binom(count(universe), k as nat),
    ensures
        m == unrank(r as nat, k as nat, universe),
        subset(m, universe),
        on_board(m),
        count(m) == k,
{
    proof {
        lemma_count_on_board(universe);
        lemma_binom_positive(count(universe), k as nat);
        unranking_inverts_ranking(r as nat, k as nat, universe);
    }
    let ghost target = unrank(r as nat, k as nat, universe);
    let mut left: u64 = r;
    let mut j: usize = k;
    let mut below: usize = universe.count_ones() as usize;
    let mut m: u32 = 0;
    let mut p: usize = 24;
    proof {
        broadcast use group_mask;
    }
    while p > 0
        invariant
            p <= 24,
            j <= 24,
            below <= 24,
            below == count_below(universe, p as int),
            forall|q: int| #[trigger]
                member(target, q) == (member(m, q) || member(unrank_below(left as nat, j as nat, universe, p as int), q)),
        decreases p,
    {
        broadcast use group_mask;
        p = p - 1;
        if contains(universe, p) {
            below = below - 1;
            proof {
                lemma_binom(below as int, j as int);
            }
            if j > 0 && BINOM[below][j] <= left {
                left = left - BINOM[below][j];
                j = j - 1;
                m = insert(m, p);
            }
        }
    }
    proof {
        broadcast use group_mask;
        assert forall|q: int| 0 <= q < 32 implies member(m, q) == member(target, q) by {}
        lemma_ext(m, target);
    }
    m
}

/// The counts below `n` of two equally large sets that agree from `n` on.
proof fn lemma_agree_above(a: u32, b: u32, n: int)
    requires
        0 <= n <= 32,
        count(a) == count(b),
        forall|q: int| n <= q < 32 ==> member(a, q) == member(b, q),
    ensures
        count_below(a, n) == count_below(b, n),
    decreases 32 - n,
{
    if n < 32 {
        lemma_agree_above(a, b, n + 1);
        assert(member(a, n) == member(b, n));
    }
}

proof fn lemma_rank_order(a: u32, b: u32, universe: u32, p: int, n: int)
    requires
        subset(a, universe),
        subset(b, universe),
        count(a) == count(b),
        0 <= p < n <= 24,
        member(b, p),
        !member(a, p),
        forall|q: int| p < q < 32 ==> member(a, q) == member(b, q),
    ensures
        rank_below(a, universe, n) < rank_below(b, universe, n),
    decreases n,
{
    lemma_agree_above(a, b, n);
    if n == p + 1 {
        lemma_rank_bound(a, universe, p);
        assert(count_below(a, p + 1) == count_below(a, p));
        assert(count_below(b, p + 1) == count_below(b, p) + 1);
    } else {
        lemma_rank_order(a, b, universe, p, n - 1);
        lemma_agree_above(a, b, n - 1);
    }
}

/// Ranks go by the highest point in which two equally large sets differ: the set
/// that has it comes later.
pub proof fn ranks_go_by_the_highest_difference(a: u32, b: u32, universe: u32, p: int)
    requires
        on_board(universe),
        subset(a, universe),
        subset(b, universe),
        count(a) == count(b),
        member(b, p),
        !member(a, p),
        forall|q: int| p < q < 32 ==> member(a, q) == member(b, q),
    ensures
        rank(a, universe) < rank(b, universe),
{
    broadcast use group_mask;
    lemma_on_board(universe);
    assert(member(universe, p));
    lemma_rank_order(a, b, universe, p, 24);
}

} // verus!
