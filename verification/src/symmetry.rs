//! Board symmetries and canonicalization.
//!
//! The mill graph has 16 automorphisms: the dihedral group of the square
//! (rotations and reflections that act on the 8 places of each ring) times
//! the exchange of the outer and the inner ring.
//!
//! Point `p = ring*8 + i` goes to `ring'*8 + i'` where `i' = (a*i + b) mod 8`
//! and `ring' = s ? 2-ring : ring`, for `a` in `{1, -1}`, `b` in
//! `{0, 2, 4, 6}` and `s` in `{0, 1}`.

use vstd::prelude::*;

use crate::board::{adjacent, in_mill, lemma_adj, lemma_mills, mill_full, on_mill, ADJ, MILLS, N};
use crate::mask::{
    contains, count, disjoint, group_mask, insert, lemma_count_without, lemma_disjoint, lemma_ext,
    lemma_on_board, lemma_point_set, lowest, member, on_board, point_set, remove, with,
};
use crate::pos::{lemma_halves_on_board, lemma_pack, lemma_pos_ext, pack, Position};

verus! {

pub const N_SYMS: usize = 16;

/// `PERMS[s][p]` is the point that `p` maps to under symmetry `s`.
pub const PERMS: [[u8; 24]; 16] = [
    [0, 1, 2, 3, 4, 5, 6, 7, 8, 9, 10, 11, 12, 13, 14, 15, 16, 17, 18, 19, 20, 21, 22, 23],
    [16, 17, 18, 19, 20, 21, 22, 23, 8, 9, 10, 11, 12, 13, 14, 15, 0, 1, 2, 3, 4, 5, 6, 7],
    [2, 3, 4, 5, 6, 7, 0, 1, 10, 11, 12, 13, 14, 15, 8, 9, 18, 19, 20, 21, 22, 23, 16, 17],
    [18, 19, 20, 21, 22, 23, 16, 17, 10, 11, 12, 13, 14, 15, 8, 9, 2, 3, 4, 5, 6, 7, 0, 1],
    [4, 5, 6, 7, 0, 1, 2, 3, 12, 13, 14, 15, 8, 9, 10, 11, 20, 21, 22, 23, 16, 17, 18, 19],
    [20, 21, 22, 23, 16, 17, 18, 19, 12, 13, 14, 15, 8, 9, 10, 11, 4, 5, 6, 7, 0, 1, 2, 3],
    [6, 7, 0, 1, 2, 3, 4, 5, 14, 15, 8, 9, 10, 11, 12, 13, 22, 23, 16, 17, 18, 19, 20, 21],
    [22, 23, 16, 17, 18, 19, 20, 21, 14, 15, 8, 9, 10, 11, 12, 13, 6, 7, 0, 1, 2, 3, 4, 5],
    [0, 7, 6, 5, 4, 3, 2, 1, 8, 15, 14, 13, 12, 11, 10, 9, 16, 23, 22, 21, 20, 19, 18, 17],
    [16, 23, 22, 21, 20, 19, 18, 17, 8, 15, 14, 13, 12, 11, 10, 9, 0, 7, 6, 5, 4, 3, 2, 1],
    [2, 1, 0, 7, 6, 5, 4, 3, 10, 9, 8, 15, 14, 13, 12, 11, 18, 17, 16, 23, 22, 21, 20, 19],
    [18, 17, 16, 23, 22, 21, 20, 19, 10, 9, 8, 15, 14, 13, 12, 11, 2, 1, 0, 7, 6, 5, 4, 3],
    [4, 3, 2, 1, 0, 7, 6, 5, 12, 11, 10, 9, 8, 15, 14, 13, 20, 19, 18, 17, 16, 23, 22, 21],
    [20, 19, 18, 17, 16, 23, 22, 21, 12, 11, 10, 9, 8, 15, 14, 13, 4, 3, 2, 1, 0, 7, 6, 5],
    [6, 5, 4, 3, 2, 1, 0, 7, 14, 13, 12, 11, 10, 9, 8, 15, 22, 21, 20, 19, 18, 17, 16, 23],
    [22, 21, 20, 19, 18, 17, 16, 23, 14, 13, 12, 11, 10, 9, 8, 15, 6, 5, 4, 3, 2, 1, 0, 7],
];

/// Where symmetry `s` takes point `p`. Symmetries 8 and up reflect, `s / 2 % 4`
/// counts quarter turns, and odd symmetries exchange the outer and inner ring.
#[verifier::opaque]
pub open spec fn perm(s: int, p: int) -> int {
    let turn = s / 2 % 4 * 2;
    let i = if s < 8 {
        (p % 8 + turn) % 8
    } else {
        (turn + 8 - p % 8) % 8
    };
    let ring = if s % 2 == 1 {
        2 - p / 8
    } else {
        p / 8
    };
    ring * 8 + i
}

/// The permutation table says what the geometry says.
pub proof fn lemma_perms(s: int, p: int)
    requires
        0 <= s < 16,
        0 <= p < 24,
    ensures
        PERMS[s][p] == perm(s, p),
{
    reveal(perm);
}

/// The symmetry that does `t` and then `s`.
#[verifier::opaque]
pub open spec fn compose(s: int, t: int) -> int {
    let turn = if s < 8 {
        (s / 2 % 4 + t / 2 % 4) % 4
    } else {
        (s / 2 % 4 + 4 - t / 2 % 4) % 4
    };
    (s / 8 + t / 8) % 2 * 8 + turn * 2 + (s + t) % 2
}

/// The symmetry that undoes `s`.
#[verifier::opaque]
pub open spec fn inverse(s: int) -> int {
    if s < 8 {
        (4 - s / 2 % 4) % 4 * 2 + s % 2
    } else {
        s
    }
}

/// The mill that symmetry `s` takes mill `k` to.
#[verifier::opaque]
pub open spec fn perm_mill(s: int, k: int) -> int {
    let turn = s / 2 % 4;
    let i = if s < 8 {
        (k % 4 + turn) % 4
    } else {
        (turn + 7 - k % 4) % 4
    };
    if k < 12 {
        (if s % 2 == 1 {
            2 - k / 4
        } else {
            k / 4
        }) * 4 + i
    } else {
        12 + i
    }
}

spec fn perm_u32(s: u32, p: u32) -> u32 {
    let turn = (s / 2 % 4 * 2) as u32;
    let i = if s < 8 {
        ((p % 8 + turn) % 8) as u32
    } else {
        ((turn + 8 - p % 8) % 8) as u32
    };
    let ring = if s % 2 == 1 {
        (2 - p / 8) as u32
    } else {
        p / 8
    };
    (ring * 8 + i) as u32
}

proof fn lemma_perm_u32(s: u32, p: u32)
    requires
        s < 16,
        p < 24,
    ensures
        perm_u32(s, p) == perm(s as int, p as int),
        perm_u32(s, p) < 24,
{
    reveal(perm);
}

spec fn compose_u32(a: u32, b: u32) -> u32 {
    let turn = if a < 8 {
        ((a / 2 % 4 + b / 2 % 4) % 4) as u32
    } else {
        ((a / 2 % 4 + 4 - b / 2 % 4) % 4) as u32
    };
    ((a / 8 + b / 8) % 2 * 8 + turn * 2 + (a + b) % 2) as u32
}

spec fn inverse_u32(a: u32) -> u32 {
    if a < 8 {
        ((4 - a / 2 % 4) % 4 * 2 + a % 2) as u32
    } else {
        a
    }
}

proof fn lemma_group_u32(a: u32, b: u32)
    requires
        a < 16,
        b < 16,
    ensures
        compose_u32(a, b) == compose(a as int, b as int),
        compose_u32(a, b) < 16,
        inverse_u32(a) == inverse(a as int),
        inverse_u32(b) == inverse(b as int),
        inverse_u32(a) < 16,
        inverse_u32(b) < 16,
        inverse_u32(compose_u32(a, b)) == inverse(compose(a as int, b as int)),
{
    reveal(compose);
    reveal(inverse);
}

/// A symmetry takes points to points.
pub broadcast proof fn lemma_perm_range(s: int, p: int)
    requires
        0 <= s < 16,
        0 <= p < 24,
    ensures
        0 <= #[trigger] perm(s, p) < 24,
{
    reveal(perm);
}

/// Symmetry 0 moves nothing.
pub broadcast proof fn lemma_perm_identity(p: int)
    requires
        0 <= p < 24,
    ensures
        #[trigger] perm(0, p) == p,
{
    reveal(perm);
}

/// The symmetries are closed under composition.
pub broadcast proof fn lemma_perm_compose(s: int, t: int, p: int)
    requires
        0 <= s < 16,
        0 <= t < 16,
        0 <= p < 24,
    ensures
        0 <= compose(s, t) < 16,
        #[trigger] perm(s, perm(t, p)) == perm(compose(s, t), p),
{
    let (a, b, q) = (s as u32, t as u32, p as u32);
    let c = compose_u32(a, b);
    lemma_group_u32(a, b);
    assert(perm_u32(a, perm_u32(b, q)) == perm_u32(compose_u32(a, b), q)) by (bit_vector)
        requires
            a < 16,
            b < 16,
            q < 24,
    ;
    lemma_perm_u32(b, q);
    lemma_perm_u32(a, perm_u32(b, q));
    lemma_perm_u32(c, q);
}

pub broadcast proof fn lemma_inverse_range(s: int)
    requires
        0 <= s < 16,
    ensures
        0 <= #[trigger] inverse(s) < 16,
{
    reveal(inverse);
}

/// Every symmetry is undone by one.
pub broadcast proof fn lemma_perm_inverse(s: int, p: int)
    requires
        0 <= s < 16,
        0 <= p < 24,
    ensures
        #[trigger] perm(inverse(s), perm(s, p)) == p,
{
    let (a, q) = (s as u32, p as u32);
    let c = inverse_u32(a);
    lemma_group_u32(a, a);
    assert(perm_u32(inverse_u32(a), perm_u32(a, q)) == q) by (bit_vector)
        requires
            a < 16,
            q < 24,
    ;
    lemma_perm_u32(a, q);
    lemma_perm_u32(c, perm_u32(a, q));
}

/// Every symmetry undoes one.
pub broadcast proof fn lemma_inverse_perm(s: int, p: int)
    requires
        0 <= s < 16,
        0 <= p < 24,
    ensures
        #[trigger] perm(s, perm(inverse(s), p)) == p,
{
    lemma_inverse_range(s);
    lemma_inverse_inverse(s);
    lemma_perm_inverse(inverse(s), p);
}

/// Undoing twice is doing.
pub proof fn lemma_inverse_inverse(s: int)
    requires
        0 <= s < 16,
    ensures
        inverse(inverse(s)) == s,
{
    reveal(inverse);
}

/// How composition and inversion act on symmetries themselves.
pub proof fn lemma_group(s: int, t: int)
    requires
        0 <= s < 16,
        0 <= t < 16,
    ensures
        0 <= compose(s, t) < 16,
        compose(compose(s, t), inverse(t)) == s,
        compose(compose(s, inverse(t)), t) == s,
        compose(inverse(s), compose(s, t)) == t,
        compose(s, compose(inverse(s), t)) == t,
        inverse(compose(s, t)) == compose(inverse(t), inverse(s)),
{
    let (a, b) = (s as u32, t as u32);
    lemma_group_u32(a, b);
    let (ia, ib) = (inverse_u32(a), inverse_u32(b));
    lemma_group_u32(ib, ia);
    lemma_group_u32(compose_u32(a, b), ib);
    lemma_group_u32(a, ib);
    lemma_group_u32(compose_u32(a, ib), b);
    lemma_group_u32(ia, b);
    lemma_group_u32(ia, compose_u32(a, b));
    lemma_group_u32(a, compose_u32(ia, b));
    assert(({
        let (ia, ib) = (inverse_u32(a), inverse_u32(b));
        &&& compose_u32(compose_u32(a, b), ib) == a
        &&& compose_u32(compose_u32(a, ib), b) == a
        &&& compose_u32(ia, compose_u32(a, b)) == b
        &&& compose_u32(a, compose_u32(ia, b)) == b
        &&& inverse_u32(compose_u32(a, b)) == compose_u32(ib, ia)
    })) by (bit_vector)
        requires
            a < 16,
            b < 16,
    ;
}

/// The symmetries keep adjacency.
pub proof fn symmetries_keep_adjacency(s: int, p: int, q: int)
    requires
        0 <= s < 16,
        0 <= p < 24,
        0 <= q < 24,
    ensures
        adjacent(perm(s, p), perm(s, q)) == adjacent(p, q),
{
    reveal(adjacent);
    let (a, x, y) = (s as u32, p as u32, q as u32);
    lemma_perm_u32(a, x);
    lemma_perm_u32(a, y);
    assert(({
        let u = perm_u32(a, x);
        let v = perm_u32(a, y);
        (u / 8 == v / 8 && ((u % 8 + 1) % 8 == v % 8 || (v % 8 + 1) % 8 == u % 8) || u % 8 == v % 8 && u % 2 == 1
            && (u / 8 + 1 == v / 8 || v / 8 + 1 == u / 8)) <==> (x / 8 == y / 8 && ((x % 8 + 1) % 8 == y % 8 || (y
            % 8 + 1) % 8 == x % 8) || x % 8 == y % 8 && x % 2 == 1 && (x / 8 + 1 == y / 8 || y / 8 + 1 == x / 8))
    })) by (bit_vector)
        requires
            a < 16,
            x < 24,
            y < 24,
    ;
}

/// The symmetries take mills to mills.
pub proof fn symmetries_keep_mills(s: int, k: int, p: int)
    requires
        0 <= s < 16,
        0 <= k < 16,
        0 <= p < 24,
    ensures
        0 <= perm_mill(s, k) < 16,
        on_mill(perm_mill(s, k), perm(s, p)) == on_mill(k, p),
{
    reveal(on_mill);
    reveal(perm_mill);
    let (a, b, x) = (s as u32, k as u32, p as u32);
    lemma_perm_u32(a, x);
    let turn = (a / 2 % 4) as u32;
    let i = if a < 8 {
        ((b % 4 + turn) % 4) as u32
    } else {
        ((turn + 7 - b % 4) % 4) as u32
    };
    let c = if b < 12 {
        ((if a % 2 == 1 {
            (2 - b / 4) as u32
        } else {
            b / 4
        }) * 4 + i) as u32
    } else {
        (12 + i) as u32
    };
    assert(c == perm_mill(s, k));
    assert(({
        let turn = (a / 2 % 4) as u32;
        let i = if a < 8 {
            ((b % 4 + turn) % 4) as u32
        } else {
            ((turn + 7 - b % 4) % 4) as u32
        };
        let c = if b < 12 {
            ((if a % 2 == 1 {
                (2 - b / 4) as u32
            } else {
                b / 4
            }) * 4 + i) as u32
        } else {
            (12 + i) as u32
        };
        let y = perm_u32(a, x);
        (if c < 12 {
            y / 8 == c / 4 && (y % 8 + 8 - 2 * (c % 4)) % 8 <= 2
        } else {
            y % 8 == 2 * (c - 12) + 1
        }) <==> (if b < 12 {
            x / 8 == b / 4 && (x % 8 + 8 - 2 * (b % 4)) % 8 <= 2
        } else {
            x % 8 == 2 * (b - 12) + 1
        })
    })) by (bit_vector)
        requires
            a < 16,
            b < 16,
            x < 24,
    ;
}

pub broadcast group group_perm {
    lemma_perm_range,
    lemma_perm_identity,
    lemma_inverse_range,
    lemma_perm_inverse,
    lemma_inverse_perm,
}

/// The images under `s` of the points of `m` below `n`.
pub open spec fn image_below(s: int, m: u32, n: int) -> u32
    decreases n,
{
    if n <= 0 {
        0
    } else if member(m, n - 1) {
        with(image_below(s, m, n - 1), perm(s, n - 1))
    } else {
        image_below(s, m, n - 1)
    }
}

/// The image of a point set under symmetry `s`.
#[verifier::opaque]
pub open spec fn image(s: int, m: u32) -> u32 {
    image_below(s, m, 24)
}

/// The image of a position under symmetry `s`; the side to move stays.
#[verifier::opaque]
pub open spec fn image_pos(s: int, pos: Position) -> Position {
    pack(image(s, pos.w()), image(s, pos.b()))
}

proof fn lemma_image_below(s: int, m: u32, n: int, q: int)
    requires
        0 <= s < 16,
        0 <= n <= 24,
    ensures
        member(image_below(s, m, n), q) == (0 <= q < 24 && perm(inverse(s), q) < n && member(m, perm(inverse(s), q))),
    decreases n,
{
    broadcast use group_mask, group_perm;
    if n > 0 {
        lemma_image_below(s, m, n - 1, q);
        if 0 <= q < 24 && perm(inverse(s), q) == n - 1 {
            assert(perm(s, perm(inverse(s), q)) == q);
        }
        assert(perm(inverse(s), perm(s, n - 1)) == n - 1);
    }
}

/// A point belongs to the image exactly when the point it came from belongs
/// to the set.
pub broadcast proof fn lemma_image(s: int, m: u32, q: int)
    requires
        0 <= s < 16,
    ensures
        #[trigger] member(image(s, m), q) == (0 <= q < 24 && member(m, perm(inverse(s), q))),
{
    broadcast use group_perm;
    reveal(image);
    lemma_image_below(s, m, 24, q);
}

/// Images lie on the board.
pub broadcast proof fn lemma_image_on_board(s: int, m: u32)
    requires
        0 <= s < 16,
    ensures
        on_board(#[trigger] image(s, m)),
{
    broadcast use lemma_image;
    lemma_on_board(image(s, m));
}

/// A point and its image belong to a set and its image alike.
pub proof fn lemma_image_perm(s: int, m: u32, p: int)
    requires
        0 <= s < 16,
        0 <= p < 24,
    ensures
        member(image(s, m), perm(s, p)) == member(m, p),
{
    broadcast use group_perm, lemma_image;
}

/// Doing `t` and then `s` is doing their composition.
pub proof fn lemma_image_compose(s: int, t: int, m: u32)
    requires
        0 <= s < 16,
        0 <= t < 16,
    ensures
        image(s, image(t, m)) == image(compose(s, t), m),
{
    broadcast use group_perm;
    lemma_group(s, t);
    let (a, b) = (image(s, image(t, m)), image(compose(s, t), m));
    assert forall|q: int| 0 <= q < 32 implies member(a, q) == member(b, q) by {
        broadcast use group_mask;
        lemma_image(s, image(t, m), q);
        lemma_image(compose(s, t), m, q);
        if 0 <= q < 24 {
            lemma_image(t, m, perm(inverse(s), q));
            lemma_perm_compose(inverse(t), inverse(s), q);
        }
    }
    lemma_ext(a, b);
}

/// Symmetry 0 changes no board set.
pub proof fn lemma_image_identity(m: u32)
    requires
        on_board(m),
    ensures
        image(0, m) == m,
{
    broadcast use group_perm, group_mask;
    lemma_on_board(m);
    assert(inverse(0) == 0) by {
        reveal(inverse);
    }
    assert forall|q: int| 0 <= q < 32 implies member(image(0, m), q) == member(m, q) by {
        lemma_image(0, m, q);
    }
    lemma_ext(image(0, m), m);
}

/// Every symmetry can be undone by another.
pub proof fn symmetries_can_be_undone(s: int, m: u32)
    requires
        0 <= s < 16,
        on_board(m),
    ensures
        image(inverse(s), image(s, m)) == m,
        image(s, image(inverse(s), m)) == m,
{
    broadcast use group_perm;
    lemma_image_compose(inverse(s), s, m);
    lemma_image_compose(s, inverse(s), m);
    lemma_image_identity(m);
    assert(compose(inverse(s), s) == 0 && compose(s, inverse(s)) == 0) by {
        reveal(compose);
        reveal(inverse);
    }
}

/// A symmetry keeps the number of points.
pub proof fn lemma_image_count(s: int, m: u32)
    requires
        0 <= s < 16,
        on_board(m),
    ensures
        count(image(s, m)) == count(m),
{
    broadcast use group_perm, group_mask, lemma_image;
    lemma_on_board(m);
    lemma_point_set(m);
    lemma_point_set(image(s, m));
    let (x, y) = (point_set(m), point_set(image(s, m)));
    let f = |p: int| perm(s, p);
    assert forall|p: int, q: int| x.contains(p) && x.contains(q) && #[trigger] f(p) == #[trigger] f(q) implies p == q by {
        assert(perm(inverse(s), perm(s, p)) == p);
        assert(perm(inverse(s), perm(s, q)) == q);
    }
    assert forall|p: int| #[trigger] x.contains(p) implies y.contains(f(p)) by {
        lemma_image_perm(s, m, p);
    }
    assert forall|q: int| #[trigger] y.contains(q) implies exists|p: int| x.contains(p) && q == f(p) by {
        let p = perm(inverse(s), q);
        assert(x.contains(p) && q == f(p));
    }
    assert(x.map(f) =~= y);
    vstd::set_lib::lemma_map_size(x, y, f);
}

/// What a symmetry does to point sets: it takes the neighbors of a point to the
/// neighbors of its image, and mills to mills, every mill being the image of
/// one; it keeps unions and counts, stays on the board, and can be undone.
pub proof fn symmetries_are_automorphisms(s: int, p: int, k: int, x: u32, y: u32)
    requires
        0 <= s < 16,
        0 <= p < 24,
        0 <= k < 16,
        on_board(x),
        on_board(y),
    ensures
        image(s, ADJ[p]) == ADJ[PERMS[s][p] as int],
        exists|j: int| 0 <= j < 16 && image(s, MILLS[k]) == #[trigger] MILLS[j],
        exists|j: int| 0 <= j < 16 && image(s, #[trigger] MILLS[j]) == MILLS[k],
        image(s, x | y) == image(s, x) | image(s, y),
        count(image(s, x)) == count(x),
        on_board(image(s, x)),
        0 <= inverse(s) < 16,
        image(inverse(s), image(s, x)) == x,
{
    broadcast use group_perm, group_mask, lemma_image;
    lemma_inverse_range(s);
    lemma_image_count(s, x);
    lemma_image_on_board(s, x);
    symmetries_can_be_undone(s, x);
    let t = inverse(s);
    lemma_perms(s, p);
    let q = perm(s, p);
    assert forall|r: int| 0 <= r < 32 implies member(image(s, ADJ[p]), r) == member(ADJ[q], r) by {
        lemma_perm_range(s, p);
        lemma_adj(q, r);
        lemma_on_board(ADJ[q]);
        if 0 <= r < 24 {
            lemma_perm_range(t, r);
            lemma_inverse_perm(s, r);
            assert(perm(s, perm(t, r)) == r);
            lemma_adj(p, perm(t, r));
            symmetries_keep_adjacency(s, p, perm(t, r));
        }
    }
    lemma_ext(image(s, ADJ[p]), ADJ[q]);
    lemma_mill_image(s, k);
    lemma_mill_image(t, k);
    let j = perm_mill(t, k);
    lemma_mills(k, 0);
    lemma_inverse_inverse(s);
    symmetries_can_be_undone(t, MILLS[k]);
    assert(image(s, MILLS[j]) == MILLS[k]);
    assert(image(s, MILLS[k]) == MILLS[perm_mill(s, k)]);
    assert forall|r: int| 0 <= r < 32 implies member(image(s, x | y), r) == member(image(s, x) | image(s, y), r) by {}
    lemma_ext(image(s, x | y), image(s, x) | image(s, y));
}

proof fn lemma_mill_image(s: int, k: int)
    requires
        0 <= s < 16,
        0 <= k < 16,
    ensures
        0 <= perm_mill(s, k) < 16,
        image(s, MILLS[k]) == MILLS[perm_mill(s, k)],
{
    broadcast use group_perm, group_mask, lemma_image;
    symmetries_keep_mills(s, k, 0);
    let j = perm_mill(s, k);
    let t = inverse(s);
    assert forall|r: int| 0 <= r < 32 implies member(image(s, MILLS[k]), r) == member(MILLS[j], r) by {
        lemma_mills(j, r);
        lemma_on_board(MILLS[j]);
        if 0 <= r < 24 {
            lemma_perm_range(t, r);
            lemma_inverse_perm(s, r);
            assert(perm(s, perm(t, r)) == r);
            lemma_mills(k, perm(t, r));
            symmetries_keep_mills(s, k, perm(t, r));
        }
    }
    lemma_ext(image(s, MILLS[k]), MILLS[j]);
}

/// A symmetry keeps sets apart.
pub proof fn lemma_image_disjoint(s: int, a: u32, b: u32)
    requires
        0 <= s < 16,
        disjoint(a, b),
    ensures
        disjoint(image(s, a), image(s, b)),
{
    broadcast use group_perm, group_mask, lemma_image;
    lemma_disjoint(a, b);
    lemma_disjoint(image(s, a), image(s, b));
}

/// A symmetry keeps what is in a mill.
pub proof fn lemma_image_in_mill(s: int, m: u32, p: int)
    requires
        0 <= s < 16,
        0 <= p < 24,
    ensures
        in_mill(image(s, m), perm(s, p)) == in_mill(m, p),
{
    broadcast use group_perm;
    if in_mill(m, p) {
        lemma_image_in_mill_forward(s, m, p);
    }
    if in_mill(image(s, m), perm(s, p)) {
        let k = choose|k: int| #[trigger] on_mill(k, perm(s, p)) && mill_full(image(s, m), k);
        let t = inverse(s);
        assert(0 <= k < 16) by {
            reveal(on_mill);
        }
        symmetries_keep_mills(t, k, perm(s, p));
        let j = perm_mill(t, k);
        assert(on_mill(j, p));
        assert forall|q: int| #[trigger] on_mill(j, q) implies member(m, q) by {
            assert(0 <= q < 24) by {
                reveal(on_mill);
            }
            symmetries_keep_mills(t, k, perm(s, q));
            assert(on_mill(k, perm(s, q)));
            lemma_image_perm(s, m, q);
        }
        assert(mill_full(m, j));
    }
}

proof fn lemma_image_in_mill_forward(s: int, m: u32, p: int)
    requires
        0 <= s < 16,
        0 <= p < 24,
        in_mill(m, p),
    ensures
        in_mill(image(s, m), perm(s, p)),
{
    broadcast use group_perm;
    let k = choose|k: int| #[trigger] on_mill(k, p) && mill_full(m, k);
    assert(0 <= k < 16) by {
        reveal(on_mill);
    }
    symmetries_keep_mills(s, k, p);
    let j = perm_mill(s, k);
    assert forall|q: int| #[trigger] on_mill(j, q) implies member(image(s, m), q) by {
        assert(0 <= q < 24) by {
            reveal(on_mill);
        }
        let r = perm(inverse(s), q);
        symmetries_keep_mills(s, k, r);
        assert(on_mill(k, r));
        lemma_image(s, m, q);
    }
    assert(mill_full(image(s, m), j));
}

/// The stones of an image.
pub proof fn lemma_image_pos(s: int, pos: Position)
    requires
        0 <= s < 16,
    ensures
        image_pos(s, pos).w() == image(s, pos.w()),
        image_pos(s, pos).b() == image(s, pos.b()),
        disjoint(pos.w(), pos.b()) ==> image_pos(s, pos).wf(),
        count(image_pos(s, pos).w()) == count(pos.w()),
        count(image_pos(s, pos).b()) == count(pos.b()),
{
    broadcast use lemma_image_on_board;
    reveal(image_pos);
    lemma_halves_on_board(pos);
    lemma_pack(image(s, pos.w()), image(s, pos.b()));
    if disjoint(pos.w(), pos.b()) {
        lemma_image_disjoint(s, pos.w(), pos.b());
    }
    lemma_image_count(s, pos.w());
    lemma_image_count(s, pos.b());
}

/// Symmetry 0 changes no position.
pub proof fn lemma_image_pos_identity(pos: Position)
    requires
        pos.wf(),
    ensures
        image_pos(0, pos) == pos,
{
    lemma_halves_on_board(pos);
    lemma_image_pos(0, pos);
    lemma_image_identity(pos.w());
    lemma_image_identity(pos.b());
    lemma_pos_ext(image_pos(0, pos), pos);
}

/// Doing `t` and then `s` is doing their composition.
pub proof fn lemma_image_pos_compose(s: int, t: int, pos: Position)
    requires
        0 <= s < 16,
        0 <= t < 16,
        disjoint(pos.w(), pos.b()),
    ensures
        0 <= compose(s, t) < 16,
        image_pos(s, image_pos(t, pos)) == image_pos(compose(s, t), pos),
{
    lemma_group(s, t);
    lemma_image_pos(t, pos);
    lemma_image_pos(s, image_pos(t, pos));
    lemma_image_pos(compose(s, t), pos);
    lemma_image_compose(s, t, pos.w());
    lemma_image_compose(s, t, pos.b());
    lemma_pos_ext(image_pos(s, image_pos(t, pos)), image_pos(compose(s, t), pos));
}

/// Every symmetry can be undone by another.
pub proof fn lemma_image_pos_inverse(s: int, pos: Position)
    requires
        0 <= s < 16,
        pos.wf(),
    ensures
        0 <= inverse(s) < 16,
        image_pos(inverse(s), image_pos(s, pos)) == pos,
        image_pos(s, image_pos(inverse(s), pos)) == pos,
{
    broadcast use group_perm;
    lemma_image_pos_compose(inverse(s), s, pos);
    lemma_image_pos_compose(s, inverse(s), pos);
    lemma_image_pos_identity(pos);
    assert(compose(inverse(s), s) == 0 && compose(s, inverse(s)) == 0) by {
        reveal(compose);
        reveal(inverse);
    }
}

/// Apply symmetry `sym` to a point set.
#[inline]
pub fn apply(sym: usize, mask: u32) -> (out: u32)
    requires
        sym < 16,
        on_board(mask),
    ensures
        out == image(sym as int, mask),
        on_board(out),
        count(out) == count(mask),
{
    proof {
        lemma_image_count(sym as int, mask);
    }
    let mut out: u32 = 0;
    let mut m: u32 = mask;
    let ghost s = sym as int;
    proof {
        broadcast use group_mask;
        lemma_on_board(mask);
    }
    while m != 0
        invariant
            s == sym as int,
            0 <= s < 16,
            forall|p: int| #[trigger] member(m, p) ==> member(mask, p) && p < 24,
            forall|q: int| #[trigger]
                member(out, q) == (0 <= q < 24 && member(mask, perm(inverse(s), q)) && !member(m, perm(inverse(s), q))),
        decreases count(m),
    {
        let p: usize = lowest(m);
        let ghost before = (m, out);
        m = remove(m, p);
        proof {
            lemma_perms(s, p as int);
            lemma_perm_range(s, p as int);
            lemma_count_without(before.0, p as int);
        }
        out = insert(out, PERMS[sym][p] as usize);
        proof {
            broadcast use group_mask, group_perm;
            assert forall|q: int| #[trigger] member(out, q) == (0 <= q < 24 && member(mask, perm(inverse(s), q))
                && !member(m, perm(inverse(s), q))) by {
                assert(member(out, q) == (member(before.1, q) || q == perm(s, p as int)));
                if 0 <= q < 24 {
                    assert(perm(s, perm(inverse(s), q)) == q);
                }
                assert(perm(inverse(s), perm(s, p as int)) == p);
            }
        }
    }
    proof {
        broadcast use group_mask;
        assert forall|q: int| 0 <= q < 32 implies member(out, q) == member(image(s, mask), q) by {
            lemma_image(s, mask, q);
        }
        lemma_ext(out, image(s, mask));
        lemma_image_on_board(s, mask);
    }
    out
}

/// Apply symmetry `sym` to a position (both colors; the side to move stays).
#[inline]
pub fn apply_pos(sym: usize, pos: Position) -> (out: Position)
    requires
        sym < 16,
        disjoint(pos.w(), pos.b()),
    ensures
        out == image_pos(sym as int, pos),
        out.w() == image(sym as int, pos.w()),
        out.b() == image(sym as int, pos.b()),
        out.wf(),
{
    proof {
        lemma_image_pos(sym as int, pos);
        reveal(image_pos);
    }
    Position::new(apply(sym, pos.white()), apply(sym, pos.black()))
}

/// The order of positions: by white set first, then by black set. This is
/// not the order of the packed numbers, which have black in the high bits.
pub open spec fn lex_less(p: Position, q: Position) -> bool {
    p.w() < q.w() || p.w() == q.w() && p.b() < q.b()
}

/// Among symmetries below `n`, the first whose image is least.
pub open spec fn best_sym(pos: Position, n: int) -> int
    decreases n,
{
    if n <= 1 {
        0
    } else {
        let s = best_sym(pos, n - 1);
        if lex_less(image_pos(n - 1, pos), image_pos(s, pos)) {
            n - 1
        } else {
            s
        }
    }
}

/// The first symmetry that brings a position to its least image.
pub open spec fn canon_sym(pos: Position) -> int {
    best_sym(pos, 16)
}

/// The least of the 16 images of a position.
#[verifier::opaque]
pub open spec fn canon(pos: Position) -> Position {
    image_pos(canon_sym(pos), pos)
}

proof fn lemma_best_sym(pos: Position, n: int)
    requires
        1 <= n <= 16,
    ensures
        0 <= best_sym(pos, n) < n,
        forall|t: int| 0 <= t < n ==> !lex_less(#[trigger] image_pos(t, pos), image_pos(best_sym(pos, n), pos)),
        forall|t: int| 0 <= t < best_sym(pos, n) ==> lex_less(image_pos(best_sym(pos, n), pos), #[trigger] image_pos(t, pos)),
    decreases n,
{
    if n > 1 {
        lemma_best_sym(pos, n - 1);
    }
}

/// The canonical form is an image, no image is less, and the symmetry given
/// is the first that reaches it.
pub proof fn canonical_form_is_the_least_image(pos: Position)
    ensures
        0 <= canon_sym(pos) < 16,
        canon(pos) == image_pos(canon_sym(pos), pos),
        forall|t: int| 0 <= t < 16 ==> !lex_less(#[trigger] image_pos(t, pos), canon(pos)),
        forall|t: int| 0 <= t < canon_sym(pos) ==> lex_less(canon(pos), #[trigger] image_pos(t, pos)),
{
    reveal(canon);
    lemma_best_sym(pos, 16);
}

/// An image that no image is less than is the canonical form.
pub proof fn lemma_canon_unique(pos: Position, s: int)
    requires
        disjoint(pos.w(), pos.b()),
        0 <= s < 16,
        forall|t: int| 0 <= t < 16 ==> !lex_less(#[trigger] image_pos(t, pos), image_pos(s, pos)),
    ensures
        image_pos(s, pos) == canon(pos),
{
    canonical_form_is_the_least_image(pos);
    lemma_image_pos(s, pos);
    lemma_image_pos(canon_sym(pos), pos);
    assert(!lex_less(canon(pos), image_pos(s, pos)));
    lemma_pos_ext(image_pos(s, pos), canon(pos));
}

/// Symmetric positions have one canonical form.
pub proof fn canonical_form_is_invariant(s: int, pos: Position)
    requires
        0 <= s < 16,
        disjoint(pos.w(), pos.b()),
    ensures
        canon(image_pos(s, pos)) == canon(pos),
{
    broadcast use group_perm;
    let q = image_pos(s, pos);
    lemma_image_pos(s, pos);
    canonical_form_is_the_least_image(pos);
    let c = canon_sym(pos);
    let t = compose(c, inverse(s));
    lemma_group(c, inverse(s));
    lemma_inverse_inverse(s);
    lemma_group(c, s);
    lemma_image_pos_compose(t, s, pos);
    assert(compose(t, s) == c);
    assert(image_pos(t, q) == canon(pos));
    assert forall|u: int| 0 <= u < 16 implies !lex_less(#[trigger] image_pos(u, q), image_pos(t, q)) by {
        lemma_image_pos_compose(u, s, pos);
        assert(!lex_less(image_pos(compose(u, s), pos), canon(pos)));
    }
    lemma_canon_unique(q, t);
}

/// A canonical form is its own canonical form, with the same stone counts.
pub proof fn canonical_form_is_idempotent(pos: Position)
    requires
        disjoint(pos.w(), pos.b()),
    ensures
        canon(canon(pos)) == canon(pos),
        canon(pos).wf(),
        count(canon(pos).w()) == count(pos.w()),
        count(canon(pos).b()) == count(pos.b()),
{
    canonical_form_is_the_least_image(pos);
    lemma_image_pos(canon_sym(pos), pos);
    canonical_form_is_invariant(canon_sym(pos), pos);
}

/// A position is an image of its canonical form.
pub proof fn lemma_from_canon(pos: Position)
    requires
        pos.wf(),
    ensures
        0 <= inverse(canon_sym(pos)) < 16,
        image_pos(inverse(canon_sym(pos)), canon(pos)) == pos,
{
    canonical_form_is_the_least_image(pos);
    lemma_image_pos_inverse(canon_sym(pos), pos);
}

/// Two positions are symmetric exactly when they have one canonical form.
pub proof fn lemma_same_canon(p: Position, q: Position)
    requires
        p.wf(),
        q.wf(),
        canon(p) == canon(q),
    ensures
        exists|s: int| 0 <= s < 16 && #[trigger] image_pos(s, p) == q,
{
    broadcast use group_perm;
    canonical_form_is_the_least_image(p);
    canonical_form_is_the_least_image(q);
    lemma_from_canon(q);
    let s = compose(inverse(canon_sym(q)), canon_sym(p));
    lemma_image_pos_compose(inverse(canon_sym(q)), canon_sym(p), p);
    assert(image_pos(s, p) == q);
}

/// No image of the set is less than the set.
pub open spec fn is_canon_set(m: u32) -> bool {
    forall|s: int| 0 <= s < 16 ==> m <= #[trigger] image(s, m)
}

/// The white set of a canonical form is canonical.
pub proof fn lemma_canon_white(pos: Position)
    requires
        disjoint(pos.w(), pos.b()),
    ensures
        is_canon_set(canon(pos).w()),
{
    let c = canon(pos);
    canonical_form_is_the_least_image(pos);
    lemma_image_pos(canon_sym(pos), pos);
    assert forall|s: int| 0 <= s < 16 implies c.w() <= #[trigger] image(s, c.w()) by {
        lemma_image_pos(s, c);
        lemma_image_pos_compose(s, canon_sym(pos), pos);
        assert(!lex_less(image_pos(compose(s, canon_sym(pos)), pos), c));
    }
}

/// The canonical form of a position, and the first symmetry that produces it.
///
/// Over all 16 symmetries this is the image that minimizes `white` first and
/// `black` second, to match the indexing scheme, which ranks the canonical
/// white set first.
pub fn canonicalize(pos: Position) -> (r: (Position, usize))
    requires
        disjoint(pos.w(), pos.b()),
    ensures
        r.0 == canon(pos),
        r.1 == canon_sym(pos),
        r.0.wf(),
{
    let mut best: Position = apply_pos(0, pos);
    let mut best_sym_idx: usize = 0;
    let (mut best_white, mut best_black): (u32, u32) = (best.white(), best.black());
    let mut s: usize = 1;
    while s < N_SYMS
        invariant
            1 <= s <= 16,
            disjoint(pos.w(), pos.b()),
            best_sym_idx == best_sym(pos, s as int),
            best == image_pos(best_sym_idx as int, pos),
            best.wf(),
            best_white == best.w(),
            best_black == best.b(),
        decreases 16 - s,
    {
        let white: u32 = apply(s, pos.white());
        proof {
            lemma_image_pos(s as int, pos);
        }
        if white <= best_white {
            let black: u32 = apply(s, pos.black());
            if white < best_white || black < best_black {
                proof {
                    reveal(image_pos);
                }
                best = Position::new(white, black);
                best_white = white;
                best_black = black;
                best_sym_idx = s;
            }
        }
        s = s + 1;
    }
    proof {
        reveal(canon);
    }
    (best, best_sym_idx)
}

/// Whether `pos` is already its own canonical form. Of the raw encodings of
/// one orbit exactly one is. Retrograde analysis skips index slots that hold
/// any other, so that every edge of the game graph is counted once.
pub fn is_canonical(pos: Position) -> (r: bool)
    requires
        disjoint(pos.w(), pos.b()),
    ensures
        r == (canon(pos) == pos),
{
    canonicalize(pos).0 == pos
}

/// The least image of a set among symmetries below `n`.
pub open spec fn least_image(m: u32, n: int) -> u32
    decreases n,
{
    if n <= 1 {
        m
    } else if image(n - 1, m) < least_image(m, n - 1) {
        image(n - 1, m)
    } else {
        least_image(m, n - 1)
    }
}

/// The least of the 16 images of a set.
pub open spec fn canon_set(m: u32) -> u32 {
    least_image(m, 16)
}

proof fn lemma_least_image(m: u32, n: int)
    requires
        on_board(m),
        1 <= n <= 16,
    ensures
        exists|s: int| 0 <= s < n && #[trigger] image(s, m) == least_image(m, n),
        forall|s: int| 0 <= s < n ==> least_image(m, n) <= #[trigger] image(s, m),
    decreases n,
{
    lemma_image_identity(m);
    if n > 1 {
        lemma_least_image(m, n - 1);
        let s = choose|s: int| 0 <= s < n - 1 && #[trigger] image(s, m) == least_image(m, n - 1);
        assert(image(s, m) == least_image(m, n - 1));
        assert(image(n - 1, m) == image(n - 1, m));
    } else {
        assert(image(0, m) == least_image(m, n));
    }
}

/// The canonical form of a set is one of its images, and none is less.
pub proof fn canonical_set_is_the_least_image(m: u32)
    requires
        on_board(m),
    ensures
        exists|s: int| 0 <= s < 16 && #[trigger] image(s, m) == canon_set(m),
        forall|s: int| 0 <= s < 16 ==> canon_set(m) <= #[trigger] image(s, m),
        is_canon_set(m) <==> canon_set(m) == m,
{
    lemma_least_image(m, 16);
    lemma_image_identity(m);
}

/// The canonical form of a point set alone.
pub fn canonicalize_set(mask: u32) -> (best: u32)
    requires
        on_board(mask),
    ensures
        best == canon_set(mask),
        on_board(best),
{
    let mut best: u32 = mask;
    let mut s: usize = 1;
    while s < N_SYMS
        invariant
            1 <= s <= 16,
            on_board(mask),
            on_board(best),
            best == least_image(mask, s as int),
        decreases 16 - s,
    {
        let cand: u32 = apply(s, mask);
        if cand < best {
            best = cand;
        }
        s = s + 1;
    }
    best
}

/// Whether a point set is its own canonical form.
pub fn is_canonical_set(mask: u32) -> (r: bool)
    requires
        on_board(mask),
    ensures
        r == is_canon_set(mask),
        r == (canon_set(mask) == mask),
{
    proof {
        canonical_set_is_the_least_image(mask);
        lemma_image_identity(mask);
    }
    let mut s: usize = 1;
    while s < N_SYMS
        invariant
            1 <= s <= 16,
            on_board(mask),
            forall|t: int| 0 <= t < s ==> mask <= #[trigger] image(t, mask),
        decreases 16 - s,
    {
        if apply(s, mask) < mask {
            proof {
                canonical_set_is_the_least_image(mask);
            }
            return false;
        }
        s = s + 1;
    }
    true
}

/// The number of symmetries below `n` that leave a position as it is.
pub open spec fn stab_below(pos: Position, n: int) -> nat
    decreases n,
{
    if n <= 0 {
        0
    } else if image_pos(n - 1, pos) == pos {
        stab_below(pos, n - 1) + 1
    } else {
        stab_below(pos, n - 1)
    }
}

/// The number of symmetries that leave a position as it is.
pub open spec fn stab(pos: Position) -> nat {
    stab_below(pos, 16)
}

/// The size of the stabilizer of a position.
pub fn stabilizer_size(pos: Position) -> (n: u32)
    requires
        pos.wf(),
    ensures
        n == stab(pos),
        1 <= n <= 16,
{
    let (white, black) = (pos.white(), pos.black());
    let mut n: u32 = 0;
    let mut s: usize = 0;
    while s < N_SYMS
        invariant
            s <= 16,
            n <= s,
            s >= 1 ==> n >= 1,
            pos.wf(),
            white == pos.w(),
            black == pos.b(),
            on_board(white),
            on_board(black),
            n == stab_below(pos, s as int),
        decreases 16 - s,
    {
        proof {
            lemma_image_pos(s as int, pos);
            lemma_image_pos_identity(pos);
            if image_pos(s as int, pos).w() == white && image_pos(s as int, pos).b() == black {
                lemma_pos_ext(image_pos(s as int, pos), pos);
            }
        }
        if apply(s, white) == white && apply(s, black) == black {
            n = n + 1;
        }
        s = s + 1;
    }
    n
}

/// The permutation table, built from the geometry.
pub fn build_perms() -> (perms: [[u8; 24]; 16])
    ensures
        perms@ == PERMS@,
        forall|s: int, p: int| 0 <= s < 16 && 0 <= p < 24 ==> #[trigger] perms[s][p] == perm(s, p),
{
    let mut perms: [[u8; 24]; 16] = [[0; 24]; 16];
    let mut s: usize = 0;
    while s < N_SYMS
        invariant
            s <= 16,
            forall|t: int| 0 <= t < s ==> #[trigger] perms[t] == PERMS[t],
        decreases 16 - s,
    {
        let mut row: [u8; 24] = [0; 24];
        let mut p: usize = 0;
        while p < N
            invariant
                p <= 24,
                s < 16,
                forall|q: int| 0 <= q < p ==> #[trigger] row[q] == perm(s as int, q),
            decreases 24 - p,
        {
            row[p] = sym_map(s, p) as u8;
            p = p + 1;
        }
        proof {
            assert forall|q: int| 0 <= q < 24 implies row[q] == PERMS[s as int][q] by {
                lemma_perms(s as int, q);
            }
            assert(row@ =~= PERMS[s as int]@);
        }
        perms[s] = row;
        s = s + 1;
    }
    proof {
        assert(perms@ =~= PERMS@);
        assert forall|s: int, p: int| 0 <= s < 16 && 0 <= p < 24 implies #[trigger] perms[s][p] == perm(s, p) by {
            lemma_perms(s, p);
        }
    }
    perms
}

/// Where symmetry `sym` takes point `p`.
pub fn sym_map(sym: usize, p: usize) -> (q: usize)
    requires
        sym < 16,
        p < 24,
    ensures
        q == perm(sym as int, p as int),
        q < 24,
{
    proof {
        reveal(perm);
    }
    let turn: usize = sym / 2 % 4 * 2;
    let i: usize = if sym < 8 {
        (p % 8 + turn) % 8
    } else {
        (turn + 8 - p % 8) % 8
    };
    let ring: usize = if sym % 2 == 1 {
        2 - p / 8
    } else {
        p / 8
    };
    ring * 8 + i
}

/// The stabilizer counts the symmetries that leave a position as it is.
pub proof fn stabilizers_are_counted(pos: Position, n: int)
    requires
        0 <= n,
    ensures
        Set::new(|s: int| 0 <= s < n && image_pos(s, pos) == pos).finite(),
        stab_below(pos, n) == Set::new(|s: int| 0 <= s < n && image_pos(s, pos) == pos).len(),
    decreases n,
{
    let a = Set::new(|s: int| 0 <= s < n && image_pos(s, pos) == pos);
    if n > 0 {
        stabilizers_are_counted(pos, n - 1);
        let b = Set::new(|s: int| 0 <= s < n - 1 && image_pos(s, pos) == pos);
        if image_pos(n - 1, pos) == pos {
            assert(a =~= b.insert(n - 1));
        } else {
            assert(a =~= b);
        }
    } else {
        assert(a =~= Set::<int>::empty());
    }
}

/// What a symmetry does to a position: each stone goes where its point goes, and
/// the sides keep their stones.
pub proof fn symmetries_move_stones_with_their_points(s: int, pos: Position, p: int)
    requires
        0 <= s < 16,
        0 <= p < 24,
        pos.wf(),
    ensures
        image_pos(s, pos).wf(),
        member(image_pos(s, pos).w(), PERMS[s][p] as int) <==> member(pos.w(), p),
        member(image_pos(s, pos).b(), PERMS[s][p] as int) <==> member(pos.b(), p),
{
    lemma_image_pos(s, pos);
    lemma_perms(s, p);
    lemma_halves_on_board(pos);
    lemma_image_perm(s, pos.w(), p);
    lemma_image_perm(s, pos.b(), p);
}

} // verus!
