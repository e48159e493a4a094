//! Point sets as bit masks.
//!
//! A `u32` stands for the set of its one-bits. Everything the rest of the
//! library says about a mask it says through `member`, so bit arithmetic is
//! reasoned about in this file alone.

use vstd::prelude::*;
use vstd::set_lib::*;

verus! {

/// The 24 points of the board, as a mask.
pub const FULL_MASK: u32 = 0x00ff_ffff;

/// Point `p` belongs to the set `m`.
#[verifier::opaque]
pub open spec fn member(m: u32, p: int) -> bool {
    0 <= p < 32 && (m >> (p as u32)) & 1u32 == 1u32
}

/// The set `m` holds board points only.
pub open spec fn on_board(m: u32) -> bool {
    m <= FULL_MASK
}

/// The one-point set `{p}`.
pub open spec fn singleton(p: int) -> u32 {
    1u32 << (p as u32)
}

/// The set `m` together with the point `p`.
#[verifier::opaque]
pub open spec fn with(m: u32, p: int) -> u32 {
    m | singleton(p)
}

/// The set `m` without the point `p`.
#[verifier::opaque]
pub open spec fn without(m: u32, p: int) -> u32 {
    m & !singleton(p)
}

/// No point belongs to both sets.
pub open spec fn disjoint(a: u32, b: u32) -> bool {
    a & b == 0
}

/// The points of `m` below `n`, in ascending order.
pub open spec fn points_below(m: u32, n: int) -> Seq<int>
    decreases n,
{
    if n <= 0 {
        Seq::empty()
    } else if member(m, n - 1) {
        points_below(m, n - 1).push(n - 1)
    } else {
        points_below(m, n - 1)
    }
}

/// The points of `m`, in ascending order.
pub open spec fn points(m: u32) -> Seq<int> {
    points_below(m, 32)
}

/// The number of points of `m` below `n`.
pub open spec fn count_below(m: u32, n: int) -> nat
    decreases n,
{
    if n <= 0 {
        0
    } else if member(m, n - 1) {
        count_below(m, n - 1) + 1
    } else {
        count_below(m, n - 1)
    }
}

/// The number of points of `m`.
pub open spec fn count(m: u32) -> nat {
    count_below(m, 32)
}

/// The points of `m` as a mathematical set.
pub open spec fn point_set(m: u32) -> Set<int> {
    Set::new(|p: int| member(m, p))
}

/// `u32::count_ones`: the number of ones in the binary representation, which
/// is the number of points of the set.
pub assume_specification[ u32::count_ones ](i: u32) -> (r: u32)
    ensures
        r == count(i),
;

pub broadcast proof fn lemma_member_range(m: u32, p: int)
    ensures
        #[trigger] member(m, p) ==> 0 <= p < 32,
{
    reveal(member);
}

proof fn lemma_bits(a: u32, b: u32, p: u32)
    requires
        p < 32,
    ensures
        ((a & b) >> p) & 1u32 == 1u32 <==> (a >> p) & 1u32 == 1u32 && (b >> p) & 1u32 == 1u32,
        ((a | b) >> p) & 1u32 == 1u32 <==> (a >> p) & 1u32 == 1u32 || (b >> p) & 1u32 == 1u32,
        ((!a) >> p) & 1u32 == 1u32 <==> (a >> p) & 1u32 != 1u32,
        (0u32 >> p) & 1u32 != 1u32,
{
    assert(((a & b) >> p) & 1u32 == 1u32 <==> (a >> p) & 1u32 == 1u32 && (b >> p) & 1u32 == 1u32)
        by (bit_vector)
        requires
            p < 32,
    ;
    assert(((a | b) >> p) & 1u32 == 1u32 <==> (a >> p) & 1u32 == 1u32 || (b >> p) & 1u32 == 1u32)
        by (bit_vector)
        requires
            p < 32,
    ;
    assert((((!a) >> p) & 1u32 == 1u32 <==> (a >> p) & 1u32 != 1u32) && (0u32 >> p) & 1u32
        != 1u32) by (bit_vector)
        requires
            p < 32,
    ;
}

pub broadcast proof fn lemma_member_and(a: u32, b: u32, p: int)
    ensures
        #[trigger] member(a & b, p) == (member(a, p) && member(b, p)),
{
    reveal(member);
    if 0 <= p < 32 {
        lemma_bits(a, b, p as u32);
    }
}

pub broadcast proof fn lemma_member_or(a: u32, b: u32, p: int)
    ensures
        #[trigger] member(a | b, p) == (member(a, p) || member(b, p)),
{
    reveal(member);
    if 0 <= p < 32 {
        lemma_bits(a, b, p as u32);
    }
}

pub broadcast proof fn lemma_member_not(a: u32, p: int)
    ensures
        #[trigger] member(!a, p) == (0 <= p < 32 && !member(a, p)),
{
    reveal(member);
    if 0 <= p < 32 {
        lemma_bits(a, 0, p as u32);
    }
}

pub broadcast proof fn lemma_member_zero(p: int)
    ensures
        !#[trigger] member(0u32, p),
{
    reveal(member);
    if 0 <= p < 32 {
        lemma_bits(0, 0, p as u32);
    }
}

pub broadcast proof fn lemma_member_full(p: int)
    ensures
        #[trigger] member(FULL_MASK, p) == (0 <= p < 24),
{
    reveal(member);
    if 0 <= p < 32 {
        let q = p as u32;
        assert((0x00ff_ffffu32 >> q) & 1u32 == 1u32 <==> q < 24) by (bit_vector)
            requires
                q < 32,
        ;
    }
}

pub broadcast proof fn lemma_member_singleton(q: int, p: int)
    requires
        0 <= q < 32,
    ensures
        #[trigger] member(singleton(q), p) == (p == q),
{
    reveal(member);
    if 0 <= p < 32 {
        let (a, b) = (p as u32, q as u32);
        assert(((1u32 << b) >> a) & 1u32 == 1u32 <==> a == b) by (bit_vector)
            requires
                a < 32,
                b < 32,
        ;
    }
}

pub broadcast proof fn lemma_member_with(m: u32, q: int, p: int)
    requires
        0 <= q < 32,
    ensures
        #[trigger] member(with(m, q), p) == (member(m, p) || p == q),
{
    reveal(with);
    broadcast use lemma_member_or, lemma_member_singleton;
}

pub broadcast proof fn lemma_member_without(m: u32, q: int, p: int)
    requires
        0 <= q < 32,
    ensures
        #[trigger] member(without(m, q), p) == (member(m, p) && p != q),
{
    reveal(without);
    broadcast use lemma_member_and, lemma_member_not, lemma_member_singleton, lemma_member_range;
}

/// What `member` says of every mask operation.
pub broadcast group group_mask {
    lemma_member_range,
    lemma_member_and,
    lemma_member_or,
    lemma_member_not,
    lemma_member_zero,
    lemma_member_full,
    lemma_member_singleton,
    lemma_member_with,
    lemma_member_without,
}

/// Two masks with the same points are equal.
pub proof fn lemma_ext(a: u32, b: u32)
    requires
        forall|p: int| 0 <= p < 32 ==> member(a, p) == member(b, p),
    ensures
        a == b,
{
    if a != b {
        let d = a ^ b;
        assert(d != 0) by {
            assert(a != b ==> a ^ b != 0) by (bit_vector);
        }
        vstd::std_specs::bits::axiom_u32_trailing_zeros(d);
        let t = vstd::std_specs::bits::u32_trailing_zeros(d);
        assert(t < 32 && (d >> t) & 1u32 == 1u32);
        assert((a >> t) & 1u32 == 1u32 <==> (b >> t) & 1u32 != 1u32) by (bit_vector)
            requires
                ((a ^ b) >> t) & 1u32 == 1u32,
                t < 32,
        ;
        reveal(member);
        assert(member(a, t as int) == member(b, t as int));
    }
}

/// A mask is nonzero exactly when it has a point.
pub proof fn lemma_nonzero(m: u32)
    ensures
        m != 0 <==> exists|p: int| 0 <= p < 32 && member(m, p),
{
    broadcast use group_mask;
    if forall|p: int| 0 <= p < 32 ==> !member(m, p) {
        lemma_ext(m, 0);
    }
}

/// `b` is a subset of `a` exactly when `a & b == b`.
pub proof fn lemma_subset(a: u32, b: u32)
    ensures
        a & b == b <==> forall|p: int| 0 <= p < 32 && member(b, p) ==> member(a, p),
{
    broadcast use group_mask;
    if forall|p: int| 0 <= p < 32 && member(b, p) ==> member(a, p) {
        lemma_ext(a & b, b);
    }
    if a & b == b {
        assert forall|p: int| 0 <= p < 32 && member(b, p) implies member(a, p) by {
            assert(member(a & b, p));
        }
    }
}

/// Two masks are disjoint exactly when no point belongs to both.
pub proof fn lemma_disjoint(a: u32, b: u32)
    ensures
        disjoint(a, b) <==> forall|p: int| 0 <= p < 32 ==> !(member(a, p) && member(b, p)),
        disjoint(a, b) <==> disjoint(b, a),
{
    broadcast use group_mask;
    lemma_nonzero(a & b);
    assert(a & b == b & a) by (bit_vector);
    assert forall|p: int| member(a, p) && member(b, p) implies member(a & b, p) by {}
}

/// A mask lies on the board exactly when it has no point past the last.
pub proof fn lemma_on_board(m: u32)
    ensures
        on_board(m) <==> forall|p: int| 24 <= p < 32 ==> !member(m, p),
        on_board(m) <==> forall|p: int| member(m, p) ==> 0 <= p < 24,
{
    broadcast use group_mask;
    lemma_subset(FULL_MASK, m);
    assert(0x00ff_ffffu32 & m == m <==> m <= 0x00ff_ffffu32) by (bit_vector);
    assert((forall|p: int| 24 <= p < 32 ==> !member(m, p)) ==> forall|p: int|
        member(m, p) ==> 0 <= p < 24);
    if forall|p: int| member(m, p) ==> 0 <= p < 24 {
        assert forall|p: int| 0 <= p < 32 && member(m, p) implies member(FULL_MASK, p) by {}
    }
    if on_board(m) {
        assert forall|p: int| member(m, p) implies 0 <= p < 24 by {
            assert(member(FULL_MASK, p));
        }
    }
}

/// The points below `n` are as many as `count_below` says.
proof fn lemma_point_set_below(m: u32, n: int)
    requires
        0 <= n,
    ensures
        Set::new(|p: int| member(m, p) && p < n).finite(),
        Set::new(|p: int| member(m, p) && p < n).len() == count_below(m, n),
    decreases n,
{
    broadcast use group_mask;
    let s = Set::new(|p: int| member(m, p) && p < n);
    if n == 0 {
        assert(s =~= Set::<int>::empty());
    } else {
        lemma_point_set_below(m, n - 1);
        let t = Set::new(|p: int| member(m, p) && p < n - 1);
        if member(m, n - 1) {
            assert(s =~= t.insert(n - 1));
        } else {
            assert(s =~= t);
        }
    }
}

/// `count` is the size of the point set.
pub proof fn lemma_point_set(m: u32)
    ensures
        point_set(m).finite(),
        point_set(m).len() == count(m),
{
    broadcast use group_mask;
    lemma_point_set_below(m, 32);
    assert(point_set(m) =~= Set::new(|p: int| member(m, p) && p < 32));
}

/// Adding a new point adds one to the count.
pub proof fn lemma_count_with(m: u32, p: int)
    requires
        0 <= p < 32,
    ensures
        count(with(m, p)) == if member(m, p) {
            count(m)
        } else {
            count(m) + 1
        },
{
    broadcast use group_mask;
    lemma_point_set(m);
    lemma_point_set(with(m, p));
    assert(point_set(with(m, p)) =~= point_set(m).insert(p));
}

/// Removing a point takes one off the count.
pub proof fn lemma_count_without(m: u32, p: int)
    requires
        0 <= p < 32,
    ensures
        count(without(m, p)) == if member(m, p) {
            count(m) - 1
        } else {
            count(m) as int
        },
{
    broadcast use group_mask;
    lemma_point_set(m);
    lemma_point_set(without(m, p));
    assert(point_set(without(m, p)) =~= point_set(m).remove(p));
}

/// A set of board points has at most 24 of them, and none past the last.
pub proof fn lemma_count_on_board(m: u32)
    requires
        on_board(m),
    ensures
        count(m) == count_below(m, 24),
        count(m) <= 24,
{
    lemma_on_board(m);
    lemma_count_below_le(m, 24);
    lemma_count_below_flat(m, 24, 32);
}

/// There are at most `n` points below `n`.
pub proof fn lemma_count_below_le(m: u32, n: int)
    requires
        0 <= n,
    ensures
        count_below(m, n) <= n,
    decreases n,
{
    if n > 0 {
        lemma_count_below_le(m, n - 1);
    }
}

/// Where a mask has no point from `a` to `b`, the count does not move.
pub proof fn lemma_count_below_flat(m: u32, a: int, b: int)
    requires
        0 <= a <= b,
        forall|p: int| a <= p < b ==> !member(m, p),
    ensures
        count_below(m, a) == count_below(m, b),
        points_below(m, a) == points_below(m, b),
    decreases b - a,
{
    if a < b {
        lemma_count_below_flat(m, a, b - 1);
    }
}

/// The empty set has no points, and only it.
pub proof fn lemma_count_zero(m: u32)
    ensures
        count(m) == 0 <==> m == 0,
{
    broadcast use group_mask;
    lemma_point_set(m);
    if count(m) == 0 {
        assert forall|p: int| 0 <= p < 32 implies member(m, p) == member(0u32, p) by {
            assert(!point_set(m).contains(p));
        }
        lemma_ext(m, 0);
    } else if m == 0 {
        assert(point_set(m) =~= Set::<int>::empty());
    }
}

/// Disjoint sets count together.
pub proof fn lemma_count_union(a: u32, b: u32)
    requires
        disjoint(a, b),
    ensures
        count(a | b) == count(a) + count(b),
{
    broadcast use group_mask;
    lemma_point_set(a);
    lemma_point_set(b);
    lemma_point_set(a | b);
    lemma_disjoint(a, b);
    assert(point_set(a | b) =~= point_set(a) + point_set(b));
    assert(point_set(a).disjoint(point_set(b)));
    lemma_set_disjoint_lens(point_set(a), point_set(b));
}

/// `points_below` holds exactly the points below the bound, each once and
/// in ascending order.
pub proof fn lemma_points_below(m: u32, n: int)
    requires
        0 <= n,
    ensures
        points_below(m, n).len() == count_below(m, n),
        forall|p: int| #[trigger]
            points_below(m, n).contains(p) <==> 0 <= p < n && member(m, p),
        forall|i: int, j: int|
            0 <= i < j < points_below(m, n).len() ==> points_below(m, n)[i] < points_below(m, n)[j],
    decreases n,
{
    broadcast use group_mask;
    if n > 0 {
        lemma_points_below(m, n - 1);
        let s = points_below(m, n - 1);
        let t = s.push(n - 1);
        if member(m, n - 1) {
            assert forall|p: int| #[trigger]
                t.contains(p) <==> 0 <= p < n && member(m, p) by {
                if t.contains(p) {
                    let i = choose|i: int| 0 <= i <= s.len() && t[i] == p;
                    if i < s.len() {
                        assert(s.contains(s[i]));
                    }
                }
                if 0 <= p < n && member(m, p) {
                    if p == n - 1 {
                        assert(t[s.len() as int] == p);
                    } else {
                        assert(s.contains(p));
                        let i = choose|i: int| 0 <= i < s.len() && s[i] == p;
                        assert(t[i] == p);
                    }
                }
            }
            assert forall|i: int, j: int|
                0 <= i < j < t.len() implies t[i] < t[j] by {
                assert(s.contains(s[i]));
            }
        } else {
            assert forall|p: int| #[trigger]
                s.contains(p) <==> 0 <= p < n && member(m, p) by {}
        }
    }
}

/// Whether `p` belongs to `m`.
#[inline]
pub fn contains(m: u32, p: usize) -> (r: bool)
    requires
        p < 32,
    ensures
        r == member(m, p as int),
{
    proof {
        reveal(member);
    }
    (m >> (p as u32)) & 1 == 1
}

/// The set `m` together with `p`.
#[inline]
pub fn insert(m: u32, p: usize) -> (r: u32)
    requires
        p < 32,
    ensures
        r == with(m, p as int),
{
    proof {
        reveal(with);
    }
    m | (1u32 << (p as u32))
}

/// The set `m` without `p`.
#[inline]
pub fn remove(m: u32, p: usize) -> (r: u32)
    requires
        p < 32,
    ensures
        r == without(m, p as int),
{
    proof {
        reveal(without);
    }
    m & !(1u32 << (p as u32))
}

/// The lowest point of a nonempty set.
#[inline]
pub fn lowest(m: u32) -> (p: usize)
    requires
        m != 0,
    ensures
        p < 32,
        member(m, p as int),
        forall|q: int| q < p ==> !#[trigger] member(m, q),
{
    let t: u32 = m.trailing_zeros();
    proof {
        reveal(member);
        vstd::std_specs::bits::axiom_u32_trailing_zeros(m);
        assert forall|q: int| q < t implies !#[trigger] member(m, q) by {
            if 0 <= q < t {
                assert((m >> (q as u32)) & 1u32 == 0u32);
            }
        }
    }
    t as usize
}

} // verus!
