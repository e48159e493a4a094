//! Moves and symmetries together.
//!
//! The symmetries carry moves to moves, so whatever the rules say of a
//! position they say of its images. This file also counts: how often a class
//! of symmetric positions is reached from a position, forwards and backwards.

use vstd::prelude::*;
use vstd::set_lib::*;

use crate::board::in_mill;
use crate::mask::{count, disjoint, group_mask, lemma_ext, lemma_on_board, member, on_board, with, without};
use crate::movegen::{
    arrives, capture_edge, is_capture, is_quiet_move, lemma_move_counts, place_leads, placements,
    placements_are_the_legal_placements, quiet_edge, quiet_predecessors_reverse_quiet_moves, quiet_preds,
    relocate, removable, successors_are_the_legal_moves, succs,
};
use crate::pos::{lemma_halves_on_board, may_step, Position};
use crate::symmetry::{
    canon, canonical_form_is_invariant, compose, group_perm, image, image_pos, inverse, lemma_group,
    lemma_image, lemma_image_count, lemma_image_in_mill, lemma_image_perm, lemma_image_pos,
    lemma_image_pos_compose, lemma_image_pos_inverse, lemma_inverse_inverse, lemma_same_canon, perm, stab,
    stab_below, symmetries_keep_adjacency,
};

verus! {

/// A symmetry carries steps to steps.
pub proof fn lemma_image_step(s: int, pos: Position, from: int, to: int)
    requires
        0 <= s < 16,
        may_step(pos.w(), pos.b(), from, to),
    ensures
        may_step(image(s, pos.w()), image(s, pos.b()), perm(s, from), perm(s, to)),
{
    broadcast use group_perm;
    lemma_halves_on_board(pos);
    lemma_on_board(pos.w());
    lemma_image_perm(s, pos.w(), from);
    lemma_image_perm(s, pos.w(), to);
    lemma_image_perm(s, pos.b(), to);
    lemma_image_count(s, pos.w());
    symmetries_keep_adjacency(s, from, to);
}

/// A symmetry commutes with adding and removing a point.
pub proof fn lemma_image_update(s: int, m: u32, p: int)
    requires
        0 <= s < 16,
        on_board(m),
        0 <= p < 24,
    ensures
        image(s, with(m, p)) == with(image(s, m), perm(s, p)),
        image(s, without(m, p)) == without(image(s, m), perm(s, p)),
{
    broadcast use group_perm;
    let (a, b) = (image(s, with(m, p)), with(image(s, m), perm(s, p)));
    let (c, d) = (image(s, without(m, p)), without(image(s, m), perm(s, p)));
    assert forall|q: int| 0 <= q < 32 implies member(a, q) == member(b, q) && member(c, q) == member(d, q) by {
        broadcast use group_mask, lemma_image;
        if 0 <= q < 24 {
            assert(perm(s, perm(inverse(s), q)) == q);
            assert(perm(inverse(s), perm(s, p)) == p);
        }
    }
    lemma_ext(a, b);
    lemma_ext(c, d);
}

/// A symmetry commutes with moving a stone.
pub proof fn lemma_image_relocate(s: int, m: u32, from: int, to: int)
    requires
        0 <= s < 16,
        on_board(m),
        0 <= from < 24,
        0 <= to < 24,
    ensures
        image(s, relocate(m, from, to)) == relocate(image(s, m), perm(s, from), perm(s, to)),
{
    broadcast use group_mask;
    lemma_image_update(s, m, from);
    lemma_on_board(m);
    lemma_on_board(without(m, from));
    lemma_image_update(s, without(m, from), to);
}

/// A symmetry keeps what may be captured.
pub proof fn lemma_image_removable(s: int, m: u32, p: int)
    requires
        0 <= s < 16,
        on_board(m),
        removable(m, p),
    ensures
        removable(image(s, m), perm(s, p)),
{
    broadcast use group_perm;
    lemma_on_board(m);
    lemma_image_perm(s, m, p);
    lemma_image_in_mill(s, m, p);
    if forall|q: int| #[trigger] member(m, q) ==> in_mill(m, q) {
        assert forall|q: int| #[trigger] member(image(s, m), q) implies in_mill(image(s, m), q) by {
            lemma_image(s, m, q);
            let r = perm(inverse(s), q);
            assert(member(m, r));
            lemma_image_in_mill(s, m, r);
        }
    }
}

/// A symmetry carries quiet moves to quiet moves.
pub proof fn lemma_image_quiet(s: int, p: Position, q: Position)
    requires
        0 <= s < 16,
        quiet_edge(p, q),
    ensures
        quiet_edge(image_pos(s, p), image_pos(s, q)),
{
    let (from, to) = choose|from: int, to: int| is_quiet_move(p, q, from, to);
    lemma_halves_on_board(p);
    lemma_on_board(p.w());
    lemma_image_pos(s, p);
    lemma_image_pos(s, q);
    lemma_image_step(s, p, from, to);
    lemma_image_relocate(s, p.w(), from, to);
    lemma_image_in_mill(s, q.b(), to);
    assert(is_quiet_move(image_pos(s, p), image_pos(s, q), perm(s, from), perm(s, to)));
}

/// A symmetry carries captures to captures.
pub proof fn lemma_image_capture(s: int, p: Position, q: Position)
    requires
        0 <= s < 16,
        capture_edge(p, q),
    ensures
        capture_edge(image_pos(s, p), image_pos(s, q)),
{
    let (from, to, t) = choose|from: int, to: int, t: int| is_capture(p, q, from, to, t);
    lemma_halves_on_board(p);
    lemma_on_board(p.w());
    lemma_on_board(p.b());
    lemma_image_pos(s, p);
    lemma_image_pos(s, q);
    lemma_image_step(s, p, from, to);
    lemma_image_relocate(s, p.w(), from, to);
    lemma_image_in_mill(s, q.b(), to);
    lemma_image_removable(s, p.b(), t);
    lemma_image_update(s, p.b(), t);
    assert(is_capture(image_pos(s, p), image_pos(s, q), perm(s, from), perm(s, to), perm(s, t)));
}

/// The successors of an image are the images of the successors.
pub proof fn moves_commute_with_symmetries(s: int, p: Position, q: Position)
    requires
        0 <= s < 16,
        p.wf(),
        q.wf(),
    ensures
        succs(image_pos(s, p)).contains(image_pos(s, q)) <==> succs(p).contains(q),
        quiet_edge(image_pos(s, p), image_pos(s, q)) <==> quiet_edge(p, q),
        capture_edge(image_pos(s, p), image_pos(s, q)) <==> capture_edge(p, q),
{
    let (ip, iq) = (image_pos(s, p), image_pos(s, q));
    lemma_image_pos(s, p);
    lemma_image_pos(s, q);
    lemma_image_pos_inverse(s, p);
    lemma_image_pos_inverse(s, q);
    if quiet_edge(p, q) {
        lemma_image_quiet(s, p, q);
    }
    if quiet_edge(ip, iq) {
        lemma_image_quiet(inverse(s), ip, iq);
    }
    if capture_edge(p, q) {
        lemma_image_capture(s, p, q);
    }
    if capture_edge(ip, iq) {
        lemma_image_capture(inverse(s), ip, iq);
    }
    successors_are_the_legal_moves(p);
    successors_are_the_legal_moves(ip);
}

/// The symmetries that take `x` to `y`.
pub open spec fn carriers(x: Position, y: Position) -> Set<int> {
    Set::new(|g: int| 0 <= g < 16 && image_pos(g, x) == y)
}

/// The symmetries that take `x` into the list `l`.
pub open spec fn carriers_into(x: Position, l: Seq<Position>) -> Set<int> {
    Set::new(|g: int| 0 <= g < 16 && l.contains(image_pos(g, x)))
}

/// The stabilizer sizes of the items of `l` that are symmetric to `x`, summed.
pub open spec fn class_weight(l: Seq<Position>, x: Position) -> nat
    decreases l.len(),
{
    if l.len() == 0 {
        0
    } else {
        class_weight(l.drop_last(), x) + if canon(l.last()) == canon(x) {
            stab(l.last())
        } else {
            0
        }
    }
}

/// The number of items of `l` that are symmetric to `x`.
pub open spec fn class_count(l: Seq<Position>, x: Position) -> nat
    decreases l.len(),
{
    if l.len() == 0 {
        0
    } else {
        class_count(l.drop_last(), x) + if canon(l.last()) == canon(x) {
            1nat
        } else {
            0
        }
    }
}

proof fn lemma_sym_set_finite(s: Set<int>)
    requires
        forall|g: int| s.contains(g) ==> 0 <= g < 16,
    ensures
        s.finite(),
{
    lemma_int_range(0, 16);
    assert(s.subset_of(set_int_range(0, 16)));
    lemma_len_subset(s, set_int_range(0, 16));
}

proof fn lemma_stab_below(pos: Position, n: int)
    requires
        0 <= n,
    ensures
        Set::new(|g: int| 0 <= g < n && image_pos(g, pos) == pos).finite(),
        Set::new(|g: int| 0 <= g < n && image_pos(g, pos) == pos).len() == stab_below(pos, n),
    decreases n,
{
    let s = Set::new(|g: int| 0 <= g < n && image_pos(g, pos) == pos);
    if n == 0 {
        assert(s =~= Set::<int>::empty());
    } else {
        lemma_stab_below(pos, n - 1);
        let t = Set::new(|g: int| 0 <= g < n - 1 && image_pos(g, pos) == pos);
        if image_pos(n - 1, pos) == pos {
            assert(s =~= t.insert(n - 1));
        } else {
            assert(s =~= t);
        }
    }
}

/// As many symmetries take `x` to a symmetric `y` as leave either in place.
pub proof fn lemma_carriers(x: Position, y: Position)
    requires
        x.wf(),
        y.wf(),
    ensures
        carriers(x, y).finite(),
        canon(x) == canon(y) ==> carriers(x, y).len() == stab(x) && carriers(x, y).len() == stab(y),
        canon(x) != canon(y) ==> carriers(x, y).len() == 0,
{
    broadcast use group_perm;
    let c = carriers(x, y);
    lemma_sym_set_finite(c);
    lemma_stab_below(x, 16);
    lemma_stab_below(y, 16);
    let sx = Set::new(|g: int| 0 <= g < 16 && image_pos(g, x) == x);
    let sy = Set::new(|g: int| 0 <= g < 16 && image_pos(g, y) == y);
    if canon(x) == canon(y) {
        lemma_same_canon(x, y);
        let g0 = choose|s: int| 0 <= s < 16 && #[trigger] image_pos(s, x) == y;
        lemma_image_pos_inverse(g0, x);
        let f = |h: int| compose(g0, h);
        let e = |k: int| compose(k, g0);
        assert forall|h: int, k: int| sx.contains(h) && sx.contains(k) && #[trigger] f(h) == #[trigger] f(k) implies h == k by {
            lemma_group(g0, h);
            lemma_group(g0, k);
        }
        assert forall|h: int| sx.contains(h) implies c.contains(#[trigger] f(h)) by {
            lemma_image_pos_compose(g0, h, x);
        }
        assert forall|g: int| #[trigger] c.contains(g) implies sx.map(f).contains(g) by {
            let h = compose(inverse(g0), g);
            lemma_image_pos_compose(inverse(g0), g, x);
            lemma_group(g0, g);
            assert(sx.contains(h) && f(h) == g);
        }
        assert(sx.map(f) =~= c);
        lemma_map_size(sx, c, f);
        assert forall|h: int, k: int| sy.contains(h) && sy.contains(k) && #[trigger] e(h) == #[trigger] e(k) implies h == k by {
            lemma_group(h, g0);
            lemma_group(k, g0);
        }
        assert forall|h: int| sy.contains(h) implies c.contains(#[trigger] e(h)) by {
            lemma_image_pos_compose(h, g0, x);
        }
        assert forall|g: int| #[trigger] c.contains(g) implies sy.map(e).contains(g) by {
            let h = compose(g, inverse(g0));
            lemma_image_pos_compose(g, inverse(g0), y);
            lemma_group(g, g0);
            assert(sy.contains(h) && e(h) == g);
        }
        assert(sy.map(e) =~= c);
        lemma_map_size(sy, c, e);
    } else {
        assert forall|g: int| !#[trigger] c.contains(g) by {
            if c.contains(g) {
                canonical_form_is_invariant(g, x);
            }
        }
        assert(c =~= Set::<int>::empty());
    }
}

/// Counting the symmetries into a list, item by item.
proof fn lemma_carriers_into(x: Position, l: Seq<Position>)
    requires
        x.wf(),
        l.no_duplicates(),
        forall|i: int| 0 <= i < l.len() ==> (#[trigger] l[i]).wf(),
    ensures
        carriers_into(x, l).finite(),
        carriers_into(x, l).len() == class_weight(l, x),
        carriers_into(x, l).len() == class_count(l, x) * stab(x),
    decreases l.len(),
{
    let c = carriers_into(x, l);
    lemma_sym_set_finite(c);
    if l.len() == 0 {
        assert(c =~= Set::<int>::empty());
        assert(0 * stab(x) == 0);
    } else {
        let (r, y) = (l.drop_last(), l.last());
        lemma_carriers_into(x, r);
        lemma_carriers(x, y);
        let (a, b) = (carriers_into(x, r), carriers(x, y));
        assert forall|z: Position| l.contains(z) <==> r.contains(z) || z == y by {
            if l.contains(z) {
                let i = choose|i: int| 0 <= i < l.len() && l[i] == z;
                if i < r.len() {
                    assert(r[i] == z);
                }
            }
            if r.contains(z) {
                let i = choose|i: int| 0 <= i < r.len() && r[i] == z;
                assert(l[i] == z);
            }
            assert(l[l.len() - 1] == y);
        }
        assert(c =~= a + b);
        assert(!r.contains(y)) by {
            if r.contains(y) {
                let i = choose|i: int| 0 <= i < r.len() && r[i] == y;
                assert(l[i] == l[l.len() - 1]);
            }
        }
        assert(a.disjoint(b));
        lemma_set_disjoint_lens(a, b);
        let (n, k) = (class_count(r, x), stab(x));
        assert((n + 1) * k == n * k + k) by (nonlinear_arith);
    }
}

/// Reciprocity: from `p` to the class of `c`, forward edges weighted by the
/// stabilizers of the positions they reach are as many as backward edges from
/// `c` to the class of `p`, each with the weight of the stabilizer of `p`.
pub proof fn forward_and_backward_edges_balance(p: Position, c: Position)
    requires
        p.wf(),
        c.wf(),
        count(c.w()) == count(p.b()),
    ensures
        class_weight(succs(p), c) == class_count(quiet_preds(c), p) * stab(p),
{
    broadcast use group_perm;
    successors_are_the_legal_moves(p);
    quiet_predecessors_reverse_quiet_moves(c);
    assert forall|i: int| 0 <= i < succs(p).len() implies (#[trigger] succs(p)[i]).wf() by {
        assert(succs(p).contains(succs(p)[i]));
    }
    assert forall|i: int| 0 <= i < quiet_preds(c).len() implies (#[trigger] quiet_preds(c)[i]).wf() by {
        assert(quiet_preds(c).contains(quiet_preds(c)[i]));
    }
    lemma_carriers_into(c, succs(p));
    lemma_carriers_into(p, quiet_preds(c));
    let (a, b) = (carriers_into(c, succs(p)), carriers_into(p, quiet_preds(c)));
    let f = |g: int| inverse(g);
    assert forall|g: int| 0 <= g < 16 implies (a.contains(g) <==> b.contains(#[trigger] inverse(g))) by {
        let d = image_pos(g, c);
        lemma_image_pos(g, c);
        lemma_image_pos(inverse(g), p);
        lemma_image_pos_inverse(g, c);
        lemma_move_counts(p, d);
        moves_commute_with_symmetries(inverse(g), p, d);
        assert(a.contains(g) <==> quiet_edge(p, d));
        assert(b.contains(inverse(g)) <==> quiet_edge(image_pos(inverse(g), p), c));
    }
    assert forall|g: int, h: int| a.contains(g) && a.contains(h) && #[trigger] f(g) == #[trigger] f(h) implies g == h by {
        lemma_inverse_inverse(g);
        lemma_inverse_inverse(h);
    }
    assert forall|h: int| #[trigger] b.contains(h) implies a.map(f).contains(h) by {
        let g = inverse(h);
        lemma_inverse_inverse(h);
        assert(a.contains(g) && f(g) == h);
    }
    assert(a.map(f) =~= b);
    lemma_map_size(a, b, f);
}

/// A symmetry carries arrivals to arrivals.
proof fn lemma_image_arrives(g: int, mover: u32, opponent: u32, dest: int, s: Position)
    requires
        0 <= g < 16,
        on_board(mover),
        on_board(opponent),
        0 <= dest < 24,
        arrives(mover, opponent, dest, s),
    ensures
        arrives(image(g, mover), image(g, opponent), perm(g, dest), image_pos(g, s)),
{
    lemma_image_pos(g, s);
    lemma_image_in_mill(g, mover, dest);
    if in_mill(mover, dest) {
        let t = choose|t: int| #[trigger] removable(opponent, t) && s.w() == without(opponent, t);
        lemma_on_board(opponent);
        lemma_image_removable(g, opponent, t);
        lemma_image_update(g, opponent, t);
        assert(removable(image(g, opponent), perm(g, t)));
    }
}

/// A symmetry carries placements to placements.
proof fn lemma_image_place(g: int, p: Position, s: Position)
    requires
        0 <= g < 16,
        p.wf(),
        placements(p.w(), p.b()).contains(s),
    ensures
        placements(image_pos(g, p).w(), image_pos(g, p).b()).contains(image_pos(g, s)),
{
    broadcast use group_perm, group_mask;
    placements_are_the_legal_placements(p);
    lemma_image_pos(g, p);
    placements_are_the_legal_placements(image_pos(g, p));
    let to = choose|to: int| #[trigger] place_leads(p.w(), p.b(), to, s);
    lemma_halves_on_board(p);
    lemma_image_perm(g, p.w(), to);
    lemma_image_perm(g, p.b(), to);
    lemma_image_update(g, p.w(), to);
    lemma_on_board(p.w());
    lemma_on_board(with(p.w(), to));
    lemma_image_arrives(g, with(p.w(), to), p.b(), to, s);
    assert(place_leads(image(g, p.w()), image(g, p.b()), perm(g, to), image_pos(g, s)));
}

/// The placements from an image are the images of the placements.
pub proof fn placements_commute_with_symmetries(g: int, p: Position, s: Position)
    requires
        0 <= g < 16,
        p.wf(),
        s.wf(),
    ensures
        placements(image_pos(g, p).w(), image_pos(g, p).b()).contains(image_pos(g, s)) <==> placements(p.w(), p.b()).contains(s),
{
    lemma_image_pos(g, p);
    lemma_image_pos_inverse(g, p);
    lemma_image_pos_inverse(g, s);
    if placements(p.w(), p.b()).contains(s) {
        lemma_image_place(g, p, s);
    }
    if placements(image_pos(g, p).w(), image_pos(g, p).b()).contains(image_pos(g, s)) {
        lemma_image_place(inverse(g), image_pos(g, p), image_pos(g, s));
    }
}

/// Symmetric positions are blocked alike.
pub proof fn blocked_is_symmetry_invariant(g: int, p: Position)
    requires
        0 <= g < 16,
        p.wf(),
    ensures
        image_pos(g, p).blocked() == p.blocked(),
{
    lemma_image_pos(g, p);
    lemma_image_pos_inverse(g, p);
    lemma_image_pos(inverse(g), image_pos(g, p));
    if !p.blocked() {
        let (from, to) = choose|from: int, to: int| may_step(p.w(), p.b(), from, to);
        lemma_image_step(g, p, from, to);
        assert(may_step(image_pos(g, p).w(), image_pos(g, p).b(), perm(g, from), perm(g, to)));
    }
    if !image_pos(g, p).blocked() {
        let q = image_pos(g, p);
        let (from, to) = choose|from: int, to: int| may_step(q.w(), q.b(), from, to);
        lemma_image_step(inverse(g), q, from, to);
        assert(may_step(p.w(), p.b(), perm(inverse(g), from), perm(inverse(g), to)));
    }
}

} // verus!
