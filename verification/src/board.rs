//! Board geometry: point numbering, adjacency, mills.
//!
//! 24 points on three concentric rings (0 = outer, 1 = middle, 2 = inner),
//! 8 points per ring. Within a ring, point `ring*8 + i` for `i` in `0..8`
//! runs clockwise starting at the top-left corner; even `i` are corners,
//! odd `i` are edge midpoints. The midpoints carry the spokes that connect
//! adjacent rings at the same `i`.

use vstd::prelude::*;

use crate::mask::{contains, group_mask, insert, lemma_ext, lemma_on_board, lemma_subset, member, on_board};

verus! {

/// Number of points on the board.
pub const N: usize = 24;

/// Number of mills.
pub const N_MILLS: usize = 16;

/// Adjacency mask of each point (`q` belongs to `ADJ[p]` iff `q` is adjacent to `p`).
pub const ADJ: [u32; 24] = [
    0x000082, 0x000205, 0x00000a, 0x000814, 0x000028, 0x002050, 0x0000a0, 0x008041,
    0x008200, 0x020502, 0x000a00, 0x081408, 0x002800, 0x205020, 0x00a000, 0x804180,
    0x820000, 0x050200, 0x0a0000, 0x140800, 0x280000, 0x502000, 0xa00000, 0x418000,
];

/// Mask of each of the 16 mills: four on each ring, then the four spokes.
pub const MILLS: [u32; 16] = [
    0x000007, 0x00001c, 0x000070, 0x0000c1, 0x000700, 0x001c00, 0x007000, 0x00c100,
    0x070000, 0x1c0000, 0x700000, 0xc10000, 0x020202, 0x080808, 0x202020, 0x808080,
];

/// For each point, the two mills it belongs to, as masks.
pub const POINT_MILLS: [[u32; 2]; 24] = [
    [0x000007, 0x0000c1],
    [0x000007, 0x020202],
    [0x000007, 0x00001c],
    [0x00001c, 0x080808],
    [0x00001c, 0x000070],
    [0x000070, 0x202020],
    [0x000070, 0x0000c1],
    [0x0000c1, 0x808080],
    [0x000700, 0x00c100],
    [0x000700, 0x020202],
    [0x000700, 0x001c00],
    [0x001c00, 0x080808],
    [0x001c00, 0x007000],
    [0x007000, 0x202020],
    [0x007000, 0x00c100],
    [0x00c100, 0x808080],
    [0x070000, 0xc10000],
    [0x070000, 0x020202],
    [0x070000, 0x1c0000],
    [0x1c0000, 0x080808],
    [0x1c0000, 0x700000],
    [0x700000, 0x202020],
    [0x700000, 0xc10000],
    [0xc10000, 0x808080],
];

/// Points `p` and `q` are joined by a board line: neighbours on one ring, or
/// midpoints at the same place of two neighbouring rings.
#[verifier::opaque]
pub open spec fn adjacent(p: int, q: int) -> bool {
    &&& 0 <= p < 24
    &&& 0 <= q < 24
    &&& {
        ||| p / 8 == q / 8 && ((p % 8 + 1) % 8 == q % 8 || (q % 8 + 1) % 8 == p % 8)
        ||| p % 8 == q % 8 && p % 2 == 1 && (p / 8 + 1 == q / 8 || q / 8 + 1 == p / 8)
    }
}

/// Point `p` lies on mill `k`: for `k < 12`, three consecutive points of ring
/// `k / 4` that start at corner `2 * (k % 4)`; then the four spokes.
#[verifier::opaque]
pub open spec fn on_mill(k: int, p: int) -> bool {
    &&& 0 <= k < 16
    &&& 0 <= p < 24
    &&& if k < 12 {
        p / 8 == k / 4 && (p % 8 + 8 - 2 * (k % 4)) % 8 <= 2
    } else {
        p % 8 == 2 * (k - 12) + 1
    }
}

/// All three points of mill `k` belong to `m`.
pub open spec fn mill_full(m: u32, k: int) -> bool {
    forall|q: int| #[trigger] on_mill(k, q) ==> member(m, q)
}

/// Point `p` lies on a mill all of whose points belong to `m`.
pub open spec fn in_mill(m: u32, p: int) -> bool {
    exists|k: int| #[trigger] on_mill(k, p) && mill_full(m, k)
}

spec fn adjacent_u32(p: u32, q: u32) -> bool {
    ||| p / 8 == q / 8 && ((p % 8 + 1) % 8 == q % 8 || (q % 8 + 1) % 8 == p % 8)
    ||| p % 8 == q % 8 && p % 2 == 1 && (p / 8 + 1 == q / 8 || q / 8 + 1 == p / 8)
}

spec fn adj_mask(p: u32) -> u32 {
    if p == 0 { 0x000082u32 } else if p == 1 { 0x000205u32 } else if p == 2 { 0x00000au32 }
    else if p == 3 { 0x000814u32 } else if p == 4 { 0x000028u32 } else if p == 5 { 0x002050u32 }
    else if p == 6 { 0x0000a0u32 } else if p == 7 { 0x008041u32 } else if p == 8 { 0x008200u32 }
    else if p == 9 { 0x020502u32 } else if p == 10 { 0x000a00u32 } else if p == 11 { 0x081408u32 }
    else if p == 12 { 0x002800u32 } else if p == 13 { 0x205020u32 } else if p == 14 { 0x00a000u32 }
    else if p == 15 { 0x804180u32 } else if p == 16 { 0x820000u32 } else if p == 17 { 0x050200u32 }
    else if p == 18 { 0x0a0000u32 } else if p == 19 { 0x140800u32 } else if p == 20 { 0x280000u32 }
    else if p == 21 { 0x502000u32 } else if p == 22 { 0xa00000u32 } else { 0x418000u32 }
}

/// The adjacency table says what the geometry says.
pub proof fn lemma_adj(p: int, q: int)
    requires
        0 <= p < 24,
    ensures
        member(ADJ[p], q) == adjacent(p, q),
        on_board(ADJ[p]),
{
    reveal(adjacent);
    let m = adj_mask(p as u32);
    assert(ADJ[p] == m);
    assert(m <= 0x00ff_ffff);
    lemma_on_board(m);
    if 0 <= q < 24 {
        let (a, b) = (p as u32, q as u32);
        assert((adj_mask(a) >> b) & 1u32 == 1u32 <==> adjacent_u32(a, b)) by (bit_vector)
            requires
                a < 24,
                b < 24,
        ;
        reveal(member);
    }
}

spec fn on_mill_u32(k: u32, p: u32) -> bool {
    if k < 12 {
        p / 8 == k / 4 && (p % 8 + 8 - 2 * (k % 4)) % 8 <= 2
    } else {
        p % 8 == 2 * (k - 12) + 1
    }
}

spec fn mill_mask(k: u32) -> u32 {
    if k == 0 { 0x000007u32 } else if k == 1 { 0x00001cu32 } else if k == 2 { 0x000070u32 }
    else if k == 3 { 0x0000c1u32 } else if k == 4 { 0x000700u32 } else if k == 5 { 0x001c00u32 }
    else if k == 6 { 0x007000u32 } else if k == 7 { 0x00c100u32 } else if k == 8 { 0x070000u32 }
    else if k == 9 { 0x1c0000u32 } else if k == 10 { 0x700000u32 } else if k == 11 { 0xc10000u32 }
    else if k == 12 { 0x020202u32 } else if k == 13 { 0x080808u32 } else if k == 14 { 0x202020u32 } else { 0x808080u32 }
}

/// The first and the second mill through a point.
pub open spec fn mill_through(p: int, second: bool) -> int {
    if p % 2 == 1 {
        if second {
            12 + p % 8 / 2
        } else {
            p / 8 * 4 + p % 8 / 2
        }
    } else if p % 8 == 0 {
        if second {
            p / 8 * 4 + 3
        } else {
            p / 8 * 4
        }
    } else {
        if second {
            p / 8 * 4 + p % 8 / 2
        } else {
            p / 8 * 4 + p % 8 / 2 - 1
        }
    }
}

/// The mill table says what the geometry says.
pub proof fn lemma_mills(k: int, p: int)
    requires
        0 <= k < 16,
    ensures
        member(MILLS[k], p) == on_mill(k, p),
        on_board(MILLS[k]),
{
    reveal(on_mill);
    let m = mill_mask(k as u32);
    assert(MILLS[k] == m);
    assert(m <= 0x00ff_ffff);
    lemma_on_board(m);
    if 0 <= p < 24 {
        let (a, b) = (k as u32, p as u32);
        assert((mill_mask(a) >> b) & 1u32 == 1u32 <==> on_mill_u32(a, b)) by (bit_vector)
            requires
                a < 16,
                b < 24,
        ;
        reveal(member);
    }
}

/// Every point lies on exactly two mills.
pub proof fn lemma_two_mills(p: int)
    requires
        0 <= p < 24,
    ensures
        forall|k: int| #[trigger] on_mill(k, p) <==> k == mill_through(p, false) || k == mill_through(p, true),
        0 <= mill_through(p, false) < mill_through(p, true) < 16,
{
    reveal(on_mill);
    let b = p as u32;
    assert forall|k: int| #[trigger] on_mill(k, p) <==> k == mill_through(p, false) || k == mill_through(p, true) by {
        if 0 <= k < 16 {
            let a = k as u32;
            assert(on_mill_u32(a, b) <==> (if b % 2 == 1 {
                a == 12 + b % 8 / 2 || a == b / 8 * 4 + b % 8 / 2
            } else if b % 8 == 0 {
                a == b / 8 * 4 + 3 || a == b / 8 * 4
            } else {
                a == b / 8 * 4 + b % 8 / 2 || a + 1 == b / 8 * 4 + b % 8 / 2
            })) by (bit_vector)
                requires
                    a < 16,
                    b < 24,
            ;
        }
    }
}

/// The table of mills through each point holds both of them, in order.
pub proof fn lemma_point_mills(p: int)
    requires
        0 <= p < 24,
    ensures
        POINT_MILLS[p][0] == MILLS[mill_through(p, false)],
        POINT_MILLS[p][1] == MILLS[mill_through(p, true)],
{
    lemma_two_mills(p);
}

/// A mill mask is covered exactly when the mill is full.
pub proof fn lemma_mill_full(m: u32, k: int)
    requires
        0 <= k < 16,
    ensures
        m & MILLS[k] == MILLS[k] <==> mill_full(m, k),
{
    broadcast use group_mask;
    lemma_subset(m, MILLS[k]);
    assert forall|p: int| member(MILLS[k], p) == #[trigger] on_mill(k, p) by {
        lemma_mills(k, p);
    }
    if m & MILLS[k] == MILLS[k] {
        assert forall|q: int| #[trigger] on_mill(k, q) implies member(m, q) by {
            assert(member(MILLS[k], q));
        }
    }
    if mill_full(m, k) {
        assert forall|p: int| 0 <= p < 32 && member(MILLS[k], p) implies member(m, p) by {
            assert(on_mill(k, p));
        }
    }
}

/// Adjacency is symmetric, and no point is its own neighbour.
pub proof fn adjacency_is_symmetric(p: int, q: int)
    ensures
        adjacent(p, q) == adjacent(q, p),
        !adjacent(p, p),
{
    reveal(adjacent);
}

/// The ring of a point and its place on the ring.
#[inline]
pub fn ring_index(p: usize) -> (r: (usize, usize))
    ensures
        r == (p / 8, p % 8),
{
    (p / 8, p % 8)
}

/// The point at place `i` (counted round the ring) of a ring.
#[inline]
pub fn point(ring: usize, i: usize) -> (p: usize)
    requires
        ring < 3,
    ensures
        p == ring * 8 + i % 8,
        p < 24,
{
    ring * 8 + (i % 8)
}

/// The neighbours of place `i` on a ring: one on either side, and for a
/// midpoint those across on the neighbouring rings.
proof fn lemma_neighbours(ring: int, i: int, q: int)
    requires
        0 <= ring < 3,
        0 <= i < 8,
    ensures
        adjacent(ring * 8 + i, q) <==> {
            ||| q == ring * 8 + (i + 1) % 8
            ||| q == ring * 8 + (i + 7) % 8
            ||| i % 2 == 1 && ring > 0 && q == (ring - 1) * 8 + i
            ||| i % 2 == 1 && ring < 2 && q == (ring + 1) * 8 + i
        },
{
    reveal(adjacent);
}

/// The set of neighbours of a point.
fn neighbours(p: usize) -> (m: u32)
    requires
        p < 24,
    ensures
        m == ADJ[p as int],
{
    let (ring, i) = ring_index(p);
    let (next, prev) = (point(ring, (i + 1) % 8), point(ring, (i + 7) % 8));
    let ring_part: u32 = insert(insert(0, next), prev);
    let inward: u32 = if i % 2 == 1 && ring < 2 {
        insert(ring_part, point(ring + 1, i))
    } else {
        ring_part
    };
    let m: u32 = if i % 2 == 1 && ring > 0 {
        insert(inward, point(ring - 1, i))
    } else {
        inward
    };
    proof {
        assert forall|q: int| 0 <= q < 32 implies member(m, q) == member(ADJ[p as int], q) by {
            broadcast use group_mask;
            lemma_adj(p as int, q);
            lemma_neighbours(ring as int, i as int, q);
        }
        lemma_ext(m, ADJ[p as int]);
    }
    m
}

/// The adjacency table, built from the geometry.
pub fn build_adj() -> (adj: [u32; 24])
    ensures
        adj@ == ADJ@,
        forall|p: int, q: int| 0 <= p < 24 ==> member(#[trigger] adj[p], q) == #[trigger] adjacent(p, q),
{
    let mut adj: [u32; 24] = [0; 24];
    let mut p: usize = 0;
    while p < N
        invariant
            p <= 24,
            forall|i: int| 0 <= i < p ==> #[trigger] adj[i] == ADJ[i],
        decreases 24 - p,
    {
        adj[p] = neighbours(p);
        p = p + 1;
    }
    proof {
        assert(adj@ =~= ADJ@);
        assert forall|p: int, q: int| 0 <= p < 24 implies member(#[trigger] adj[p], q) == #[trigger] adjacent(p, q) by {
            lemma_adj(p, q);
        }
    }
    adj
}

/// Point number `j` (0, 1 or 2) of mill `k`.
pub open spec fn mill_point(k: int, j: int) -> int {
    if k < 12 {
        k / 4 * 8 + (2 * (k % 4) + j) % 8
    } else {
        j * 8 + 2 * (k - 12) + 1
    }
}

/// A mill has exactly three points.
pub proof fn mills_have_three_points(k: int, p: int)
    requires
        0 <= k < 16,
    ensures
        on_mill(k, p) <==> p == mill_point(k, 0) || p == mill_point(k, 1) || p == mill_point(k, 2),
        mill_point(k, 0) != mill_point(k, 1),
        mill_point(k, 0) != mill_point(k, 2),
        mill_point(k, 1) != mill_point(k, 2),
{
    reveal(on_mill);
    if 0 <= p < 24 {
        let (a, b) = (k as u32, p as u32);
        assert(on_mill_u32(a, b) <==> (if a < 12 {
            b == a / 4 * 8 + 2 * (a % 4) || b == a / 4 * 8 + (2 * (a % 4) + 1) || b == a / 4 * 8 + (2
                * (a % 4) + 2) % 8
        } else {
            b == 2 * (a - 12) + 1 || b == 8 + 2 * (a - 12) + 1 || b == 16 + 2 * (a - 12) + 1
        })) by (bit_vector)
            requires
                a < 16,
                b < 24,
        ;
    }
}

/// The mill table, built from the geometry.
pub fn build_mills() -> (mills: [u32; 16])
    ensures
        mills@ == MILLS@,
        forall|k: int, p: int| 0 <= k < 16 ==> member(#[trigger] mills[k], p) == #[trigger] on_mill(k, p),
{
    let mut mills: [u32; 16] = [0; 16];
    let mut k: usize = 0;
    while k < N_MILLS
        invariant
            k <= 16,
            forall|i: int| 0 <= i < k ==> #[trigger] mills[i] == MILLS[i],
        decreases 16 - k,
    {
        let (a, b, c) = if k < 12 {
            let (ring, i) = (k / 4, 2 * (k % 4));
            (point(ring, i), point(ring, i + 1), point(ring, i + 2))
        } else {
            let i: usize = 2 * (k - 12) + 1;
            (point(0, i), point(1, i), point(2, i))
        };
        let m: u32 = insert(insert(insert(0, a), b), c);
        proof {
            assert(a == mill_point(k as int, 0) && b == mill_point(k as int, 1) && c == mill_point(k as int, 2));
            assert forall|q: int| 0 <= q < 32 implies member(m, q) == member(MILLS[k as int], q) by {
                broadcast use group_mask;
                lemma_mills(k as int, q);
                mills_have_three_points(k as int, q);
            }
            lemma_ext(m, MILLS[k as int]);
        }
        mills[k] = m;
        k = k + 1;
    }
    proof {
        assert(mills@ =~= MILLS@);
        assert forall|k: int, p: int| 0 <= k < 16 implies member(#[trigger] mills[k], p) == #[trigger] on_mill(k, p) by {
            lemma_mills(k, p);
        }
    }
    mills
}

/// The mills through each point, picked out of the mill table.
pub fn build_point_mills() -> (pm: [[u32; 2]; 24])
    ensures
        pm@ == POINT_MILLS@,
{
    let mut pm: [[u32; 2]; 24] = [[0; 2]; 24];
    let mut p: usize = 0;
    while p < N
        invariant
            p <= 24,
            forall|i: int| 0 <= i < p ==> #[trigger] pm[i] == POINT_MILLS[i],
        decreases 24 - p,
    {
        let (mut first, mut second): (u32, u32) = (0, 0);
        let mut found: usize = 0;
        let mut k: usize = 0;
        proof {
            lemma_two_mills(p as int);
            lemma_point_mills(p as int);
        }
        let ghost (s, t) = (mill_through(p as int, false), mill_through(p as int, true));
        while k < N_MILLS
            invariant
                k <= 16,
                p < 24,
                0 <= s < t < 16,
                forall|j: int| #[trigger] on_mill(j, p as int) <==> j == s || j == t,
                found == (if k > t { 2int } else if k > s { 1 } else { 0 }),
                k > s ==> first == MILLS[s],
                k > t ==> second == MILLS[t],
            decreases 16 - k,
        {
            proof {
                lemma_mills(k as int, p as int);
            }
            if contains(MILLS[k], p) {
                if found == 0 {
                    first = MILLS[k];
                } else {
                    second = MILLS[k];
                }
                found = found + 1;
            }
            k = k + 1;
        }
        pm[p] = [first, second];
        assert(pm[p as int]@ =~= POINT_MILLS[p as int]@);
        p = p + 1;
    }
    assert(pm@ =~= POINT_MILLS@);
    pm
}

/// Half the width of the ring of a point, in board lines.
pub open spec fn ring_radius(p: int) -> int {
    3 - p / 8
}

/// The column of a point, from 1 (letter a) to 7 (letter g).
pub open spec fn column(p: int) -> int {
    let i = p % 8;
    if i == 0 || i == 6 || i == 7 {
        4 - ring_radius(p)
    } else if i == 1 || i == 5 {
        4
    } else {
        4 + ring_radius(p)
    }
}

/// The row of a point, from 1 (bottom) to 7 (top).
pub open spec fn row(p: int) -> int {
    let i = p % 8;
    if i <= 2 {
        4 + ring_radius(p)
    } else if i == 3 || i == 7 {
        4
    } else {
        4 - ring_radius(p)
    }
}

/// The name of a point: the letter of its column and the digit of its row.
pub open spec fn name_of(p: int) -> Seq<char> {
    seq![('a' as u32 + (column(p) - 1)) as char, ('0' as u32 + row(p)) as char]
}

/// A text without the plus sign that it may begin with.
pub open spec fn unsigned_part(s: Seq<char>) -> Seq<char> {
    if s.len() > 0 && s[0] == '+' {
        s.skip(1)
    } else {
        s
    }
}

/// The row that a text gives: an optional plus sign, any number of zeros, and
/// a digit from 1 to 7.
pub open spec fn row_in(s: Seq<char>) -> Option<int> {
    if unsigned_part(s).len() > 0 && '1' <= unsigned_part(s).last() <= '7' && (forall|i: int|
        0 <= i < unsigned_part(s).len() - 1 ==> #[trigger] unsigned_part(s)[i] == '0') {
        Some(unsigned_part(s).last() as int - '0' as int)
    } else {
        None
    }
}

/// The text names point `p`: its letter, and a text that gives its row.
pub open spec fn names(s: Seq<char>, p: int) -> bool {
    &&& 0 <= p < 24
    &&& s.len() > 0
    &&& s[0] == name_of(p)[0]
    &&& row_in(s.skip(1)) == Some(row(p))
}

/// Different points have different names.
pub proof fn lemma_names_differ(p: int, q: int)
    requires
        0 <= p < 24,
        0 <= q < 24,
        column(p) == column(q),
        row(p) == row(q),
    ensures
        p == q,
{
}

/// The column and the row of a point.
pub(crate) fn column_row(p: usize) -> (r: (u8, u8))
    requires
        p < 24,
    ensures
        r.0 == column(p as int),
        r.1 == row(p as int),
        1 <= r.0 <= 7,
        1 <= r.1 <= 7,
{
    let (ring, i) = ring_index(p);
    let h: u8 = 3 - ring as u8;
    match i {
        0 => (4 - h, 4 + h),
        1 => (4, 4 + h),
        2 => (4 + h, 4 + h),
        3 => (4 + h, 4),
        4 => (4 + h, 4 - h),
        5 => (4, 4 - h),
        6 => (4 - h, 4 - h),
        _ => (4 - h, 4),
    }
}

/// A point in standard "a1" to "g7" notation.
pub fn point_name(p: usize) -> (s: String)
    requires
        p < 24,
    ensures
        s@ == name_of(p as int),
{
    let (column, row) = column_row(p);
    let mut s: String = String::new();
    s.push((96 + column) as char);
    s.push((48 + row) as char);
    assert(s@ =~= name_of(p as int));
    s
}

/// The row that the text from place `start` gives.
fn parse_row(s: &str, start: usize) -> (r: Option<u8>)
    requires
        start <= s@.len(),
    ensures
        match r {
            Some(row) => row_in(s@.skip(start as int)) == Some(row as int) && 1 <= row <= 7,
            None => row_in(s@.skip(start as int)) is None,
        },
{
    let len: usize = s.unicode_len();
    let ghost rest = s@.skip(start as int);
    let first: usize = if start < len && s.get_char(start) == '+' {
        start + 1
    } else {
        start
    };
    let ghost digits = s@.skip(first as int);
    proof {
        if start < len {
            assert(rest[0] == s@[start as int]);
            assert(rest.skip(1) =~= s@.skip(start + 1));
        }
        assert(unsigned_part(rest) == digits);
    }
    if first >= len {
        return None;
    }
    let mut i: usize = first;
    while i + 1 < len
        invariant
            first <= i < len,
            len == s@.len(),
            digits == s@.skip(first as int),
            digits == unsigned_part(rest),
            rest == s@.skip(start as int),
            forall|k: int| 0 <= k < i - first ==> #[trigger] digits[k] == '0',
        decreases len - i,
    {
        if s.get_char(i) != '0' {
            assert(unsigned_part(rest)[i - first] != '0');
            return None;
        }
        assert(digits[i - first] == '0');
        i = i + 1;
    }
    let c: char = s.get_char(i);
    assert(digits.last() == c);
    if c == '1' {
        Some(1)
    } else if c == '2' {
        Some(2)
    } else if c == '3' {
        Some(3)
    } else if c == '4' {
        Some(4)
    } else if c == '5' {
        Some(5)
    } else if c == '6' {
        Some(6)
    } else if c == '7' {
        Some(7)
    } else {
        None
    }
}

/// Parse "a1" to "g7" notation into a point. Squares that are not part of the
/// board, such as "d4", the center, give `None`.
pub fn parse_point(s: &str) -> (r: Option<usize>)
    ensures
        match r {
            Some(p) => names(s@, p as int),
            None => forall|p: int| !names(s@, p),
        },
{
    if s.unicode_len() == 0 {
        return None;
    }
    let letter: char = s.get_char(0);
    let wanted: u8 = match parse_row(s, 1) {
        Some(row) => row,
        None => {
            return None;
        },
    };
    let mut p: usize = 0;
    while p < N
        invariant
            p <= 24,
            s@.len() > 0,
            letter == s@[0],
            row_in(s@.skip(1)) == Some(wanted as int),
            forall|q: int| 0 <= q < p ==> !#[trigger] names(s@, q),
        decreases 24 - p,
    {
        let (column, row) = column_row(p);
        if (96 + column) as char == letter && row == wanted {
            assert(names(s@, p as int));
            return Some(p);
        }
        proof {
            assert(name_of(p as int)[0] == (96 + column) as char);
        }
        p = p + 1;
    }
    None
}

/// The name of a point parses to the point, and to no other.
pub proof fn point_names_round_trip(p: int, q: int)
    requires
        0 <= p < 24,
        0 <= q < 24,
    ensures
        names(name_of(p), q) <==> p == q,
{
    let s = name_of(p);
    let rest = s.skip(1);
    assert(rest =~= seq![('0' as u32 + row(p)) as char]);
    assert(1 <= row(p) <= 7 && 1 <= column(p) <= 7);
    assert(1 <= row(q) <= 7 && 1 <= column(q) <= 7);
    assert(rest.last() == ('0' as u32 + row(p)) as char);
    assert(row_in(rest) == Some(row(p)));
    if names(s, q) {
        assert(column(p) == column(q));
        lemma_names_differ(p, q);
    }
}

/// A text names one point at most.
pub proof fn texts_name_one_point(s: Seq<char>, p: int, q: int)
    requires
        names(s, p),
        names(s, q),
    ensures
        p == q,
{
    assert(1 <= column(p) <= 7 && 1 <= column(q) <= 7);
    assert(s[0] == ('a' as u32 + (column(p) - 1)) as char);
    assert(s[0] == ('a' as u32 + (column(q) - 1)) as char);
    assert(column(p) == column(q));
    lemma_names_differ(p, q);
}

/// Neighbors stand in one column or in one row, and no point stands between them.
pub proof fn lines_go_straight(p: int, q: int, r: int)
    requires
        0 <= p < 24,
        0 <= q < 24,
        0 <= r < 24,
        member(ADJ[p], q),
    ensures
        column(p) == column(q) || row(p) == row(q),
        column(p) == column(q) && column(r) == column(p) ==> !(row(p) < row(r) < row(q) || row(q) < row(r) < row(p)),
        row(p) == row(q) && row(r) == row(p) ==> !(column(p) < column(r) < column(q) || column(q) < column(r) < column(p)),
{
    lemma_adj(p, q);
    reveal(adjacent);
}

/// The three points of a mill stand in one column or in one row.
pub proof fn mills_are_straight(k: int, p: int, q: int, r: int)
    requires
        0 <= k < 16,
        member(MILLS[k], p),
        member(MILLS[k], q),
        member(MILLS[k], r),
    ensures
        0 <= p < 24,
        column(p) == column(q) == column(r) || row(p) == row(q) == row(r),
{
    lemma_mills(k, p);
    lemma_mills(k, q);
    lemma_mills(k, r);
    mills_have_three_points(k, p);
    mills_have_three_points(k, q);
    mills_have_three_points(k, r);
    reveal(on_mill);
}

} // verus!
