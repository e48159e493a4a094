//! Position representation.
//!
//! A `Position` always shows the game from the point of view of the side to
//! move: `white()` holds the mover's stones and `black()` the opponent's,
//! whichever physical color is on move. A value computed for a `Position` is
//! a value for the side to move.

use vstd::prelude::*;

use crate::board::{
    adjacent, in_mill, lemma_adj, lemma_mill_full, lemma_point_mills, lemma_two_mills, mill_through,
    on_mill, ADJ, N, POINT_MILLS,
};
use crate::mask::{
    contains, count, disjoint, group_mask, lemma_count_on_board, lemma_count_zero, lemma_disjoint,
    lemma_nonzero, lemma_on_board, member, on_board, points, points_below,
};
pub use crate::mask::FULL_MASK;

verus! {

/// The stones of both sides, packed as `white | black << 24`.
#[derive(Clone, Copy, PartialEq, Eq, Hash, Debug, PartialOrd, Ord, Structural)]
pub struct Position(pub u64);

/// Point `p` carries no stone.
pub open spec fn vacant(white: u32, black: u32, p: int) -> bool {
    0 <= p < 24 && !member(white, p) && !member(black, p)
}

/// The mover may take a stone from `from` to `to`: along a line to an
/// adjacent vacant point, or anywhere vacant with exactly three stones.
pub open spec fn may_step(white: u32, black: u32, from: int, to: int) -> bool {
    &&& member(white, from)
    &&& vacant(white, black, to)
    &&& count(white) == 3 || adjacent(from, to)
}

/// The packed position with the given stones.
pub open spec fn pack(white: u32, black: u32) -> Position {
    Position((white as u64) | ((black as u64) << 24u64))
}

impl Position {
    /// The mover's stones.
    pub open spec fn w(self) -> u32 {
        (self.0 & 0xff_ffffu64) as u32
    }

    /// The opponent's stones.
    pub open spec fn b(self) -> u32 {
        ((self.0 >> 24u64) & 0xff_ffffu64) as u32
    }

    /// No bit past the two sets is used, and no point carries two stones.
    pub open spec fn wf(self) -> bool {
        &&& self.0 < 0x1_0000_0000_0000
        &&& disjoint(self.w(), self.b())
    }

    /// The side to move can move no stone.
    pub open spec fn blocked(self) -> bool {
        forall|from: int, to: int| !#[trigger] may_step(self.w(), self.b(), from, to)
    }
}

/// Both halves of a position are board sets.
pub broadcast proof fn lemma_halves_on_board(pos: Position)
    ensures
        on_board(#[trigger] pos.w()),
        on_board(#[trigger] pos.b()),
{
    let x = pos.0;
    assert((x & 0xff_ffffu64) as u32 <= 0xff_ffffu32 && ((x >> 24u64) & 0xff_ffffu64) as u32
        <= 0xff_ffffu32) by (bit_vector);
}

/// Packing keeps both sets.
pub proof fn lemma_pack(white: u32, black: u32)
    requires
        on_board(white),
        on_board(black),
    ensures
        pack(white, black).w() == white,
        pack(white, black).b() == black,
        pack(white, black).0 < 0x1_0000_0000_0000,
{
    assert(({
        let x = (white as u64) | ((black as u64) << 24u64);
        &&& (x & 0xff_ffffu64) as u32 == white
        &&& ((x >> 24u64) & 0xff_ffffu64) as u32 == black
        &&& x < 0x1_0000_0000_0000u64
    })) by (bit_vector)
        requires
            white <= 0xff_ffffu32,
            black <= 0xff_ffffu32,
    ;
}

/// A position without stray bits is the packing of its two sets.
pub proof fn lemma_unpack(pos: Position)
    requires
        pos.0 < 0x1_0000_0000_0000,
    ensures
        pos == pack(pos.w(), pos.b()),
{
    let x = pos.0;
    assert(x == (((x & 0xff_ffffu64) as u32) as u64) | (((((x >> 24u64) & 0xff_ffffu64) as u32) as u64)
        << 24u64)) by (bit_vector)
        requires
            x < 0x1_0000_0000_0000u64,
    ;
}

impl Position {
    #[inline]
    pub fn new(white: u32, black: u32) -> (pos: Self)
        requires
            on_board(white),
            on_board(black),
            disjoint(white, black),
        ensures
            pos == pack(white, black),
            pos.w() == white,
            pos.b() == black,
            pos.wf(),
    {
        proof {
            lemma_pack(white, black);
        }
        Position((white as u64) | ((black as u64) << 24u64))
    }

    #[inline]
    pub fn white(&self) -> (m: u32)
        ensures
            m == self.w(),
            on_board(m),
    {
        proof {
            lemma_halves_on_board(*self);
        }
        (self.0 & 0xff_ffffu64) as u32
    }

    #[inline]
    pub fn black(&self) -> (m: u32)
        ensures
            m == self.b(),
            on_board(m),
    {
        proof {
            lemma_halves_on_board(*self);
        }
        ((self.0 >> 24u64) & 0xff_ffffu64) as u32
    }

    #[inline]
    pub fn occupied(&self) -> (m: u32)
        ensures
            m == self.w() | self.b(),
            forall|p: int| #[trigger] member(m, p) == (member(self.w(), p) || member(self.b(), p)),
    {
        broadcast use group_mask;
        self.white() | self.black()
    }

    #[inline]
    pub fn empty(&self) -> (m: u32)
        ensures
            on_board(m),
            forall|p: int| #[trigger] member(m, p) == vacant(self.w(), self.b(), p),
    {
        broadcast use group_mask;
        let m: u32 = !self.occupied() & FULL_MASK;
        proof {
            lemma_on_board(m);
        }
        m
    }

    #[inline]
    pub fn white_count(&self) -> (n: u32)
        ensures
            n == count(self.w()),
            n <= 24,
    {
        proof {
            lemma_halves_on_board(*self);
            lemma_count_on_board(self.w());
        }
        self.white().count_ones()
    }

    #[inline]
    pub fn black_count(&self) -> (n: u32)
        ensures
            n == count(self.b()),
            n <= 24,
    {
        proof {
            lemma_halves_on_board(*self);
            lemma_count_on_board(self.b());
        }
        self.black().count_ones()
    }

    /// Swap the two colors (the physical flip, not the change of turn that a
    /// move brings).
    #[inline]
    pub fn swap_colors(&self) -> (r: Position)
        requires
            disjoint(self.w(), self.b()),
        ensures
            r == pack(self.b(), self.w()),
            r.w() == self.b(),
            r.b() == self.w(),
            r.wf(),
    {
        proof {
            lemma_disjoint(self.w(), self.b());
        }
        Position::new(self.black(), self.white())
    }

    /// The side to move has no legal move: every stone is shut in. With three
    /// stones the mover may jump, so only a full board blocks it.
    pub fn is_blocked(&self) -> (r: bool)
        ensures
            r == self.blocked(),
    {
        let white: u32 = self.white();
        let empty: u32 = self.empty();
        if self.white_count() == 3 {
            proof {
                lemma_nonzero(empty);
                lemma_count_zero(white);
                lemma_nonzero(white);
                if empty != 0 {
                    let to = choose|p: int| 0 <= p < 32 && member(empty, p);
                    let from = choose|p: int| 0 <= p < 32 && member(white, p);
                    assert(may_step(white, self.b(), from, to));
                } else {
                    broadcast use group_mask;
                    assert forall|from: int, to: int| !#[trigger] may_step(white, self.b(), from, to) by {
                        assert(!member(empty, to));
                    }
                }
            }
            return empty == 0;
        }
        broadcast use group_mask;

        let mut p: usize = 0;
        while p < N
            invariant
                p <= 24,
                white == self.w(),
                count(white) != 3,
                forall|q: int| #[trigger] member(empty, q) == vacant(self.w(), self.b(), q),
                forall|from: int, to: int| from < p ==> !#[trigger] may_step(white, self.b(), from, to),
            decreases 24 - p,
        {
            broadcast use group_mask;
            let adj: u32 = ADJ[p];
            proof {
                lemma_nonzero(adj & empty);
            }
            if contains(white, p) && adj & empty != 0 {
                proof {
                    let to = choose|q: int| 0 <= q < 32 && member(adj & empty, q);
                    lemma_adj(p as int, to);
                    assert(may_step(white, self.b(), p as int, to));
                }
                return false;
            }
            proof {
                assert forall|to: int| !#[trigger] may_step(white, self.b(), p as int, to) by {
                    lemma_adj(p as int, to);
                    if may_step(white, self.b(), p as int, to) {
                        assert(member(adj & empty, to));
                    }
                }
            }
            p = p + 1;
        }
        proof {
            lemma_on_board(white);
        }
        true
    }

    /// The side to move has fewer than three stones (a loss).
    pub fn white_has_too_few(&self) -> (r: bool)
        ensures
            r == (count(self.w()) < 3),
    {
        self.white_count() < 3
    }

    /// Point `p` lies on a mill that `bits` fills.
    pub fn is_mill_at(bits: u32, p: usize) -> (r: bool)
        requires
            p < 24,
        ensures
            r == in_mill(bits, p as int),
    {
        let first: u32 = POINT_MILLS[p][0];
        let second: u32 = POINT_MILLS[p][1];
        proof {
            let (s, t) = (mill_through(p as int, false), mill_through(p as int, true));
            lemma_two_mills(p as int);
            lemma_point_mills(p as int);
            lemma_mill_full(bits, s);
            lemma_mill_full(bits, t);
            assert(on_mill(s, p as int) && on_mill(t, p as int));
        }
        bits & first == first || bits & second == second
    }
}

/// A sequence of machine indices, as integers.
pub open spec fn as_ints(s: Seq<usize>) -> Seq<int> {
    s.map_values(|x: usize| x as int)
}

/// The points of a mask, in ascending order.
pub fn bits(mask: u32) -> (v: Vec<usize>)
    ensures
        as_ints(v@) == points(mask),
{
    let mut v: Vec<usize> = Vec::new();
    let mut p: usize = 0;
    while p < 32
        invariant
            p <= 32,
            as_ints(v@) == points_below(mask, p as int),
        decreases 32 - p,
    {
        let ghost before = v@;
        if contains(mask, p) {
            v.push(p);
            assert(as_ints(v@) =~= as_ints(before).push(p as int));
        }
        p = p + 1;
    }
    v
}

/// Swapping the colors twice gives the position back.
pub proof fn swap_colors_is_an_involution(pos: Position)
    requires
        pos.wf(),
    ensures
        pack(pack(pos.b(), pos.w()).b(), pack(pos.b(), pos.w()).w()) == pos,
{
    lemma_halves_on_board(pos);
    lemma_pack(pos.b(), pos.w());
    lemma_unpack(pos);
}

/// Positions with the same stones are the same.
pub proof fn lemma_pos_ext(p: Position, q: Position)
    requires
        p.wf(),
        q.wf(),
        p.w() == q.w(),
        p.b() == q.b(),
    ensures
        p == q,
{
    lemma_unpack(p);
    lemma_unpack(q);
}

/// The character that shows point `p`: W, B, or a dot for a vacant point.
pub open spec fn stone_char(pos: Position, p: int) -> char {
    if member(pos.w(), p) {
        'W'
    } else if member(pos.b(), p) {
        'B'
    } else {
        '.'
    }
}

impl Position {
    /// The position as 24 characters, one per point.
    pub fn to_string(&self) -> (s: String)
        ensures
            s@ == Seq::new(24, |p: int| stone_char(*self, p)),
    {
        let mut s: String = String::new();
        let mut p: usize = 0;
        while p < N
            invariant
                p <= 24,
                s@ == Seq::new(p as nat, |p: int| stone_char(*self, p)),
            decreases 24 - p,
        {
            let c: char = if contains(self.white(), p) {
                'W'
            } else if contains(self.black(), p) {
                'B'
            } else {
                '.'
            };
            s.push(c);
            assert(s@ =~= Seq::new((p + 1) as nat, |p: int| stone_char(*self, p)));
            p = p + 1;
        }
        s
    }
}

/// The packed number, in arithmetic.
pub proof fn lemma_packed_number(pos: Position)
    ensures
        pos.w() == pos.0 % 0x100_0000,
        pos.b() == pos.0 / 0x100_0000 % 0x100_0000,
{
    let x = pos.0;
    assert((x & 0xff_ffffu64) as u32 == x % 0x100_0000 && ((x >> 24u64) & 0xff_ffffu64) as u32 == x / 0x100_0000
        % 0x100_0000) by (bit_vector);
}

} // verus!
