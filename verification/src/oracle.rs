//! Independent verification oracle.
//!
//! A deliberately simple solver, for cross-checking the retrograde engine on
//! small pairs. It shares move generation with the rest of the library and
//! nothing else: no symmetry reduction, no indexing and no reverse moves. It
//! scans all positions of a pair over and over, each time working out a
//! position from its successors, until nothing improves any more.

use std::collections::HashMap;

use vstd::prelude::*;
use vstd::std_specs::hash::*;

use crate::game::{
    depth, in_pair, lemma_pair_closed, minimax, minimax_is_functional, reply, score, scores_are_consistent,
    total, Score,
};
use crate::mask::{
    contains, count, count_below, disjoint, group_mask, insert, lemma_count_on_board, lemma_count_with,
    lemma_disjoint, lemma_ext, lemma_on_board, member, on_board, with,
};
use crate::movegen::{lemma_concat_contains, lemma_concat_distinct, moves_movement, succs};
use crate::pos::{lemma_halves_on_board, lemma_pack, lemma_pos_ext, pack, Position};
use crate::rank::{binom, lemma_binom, lemma_binom_small, BINOM};
use crate::truth::lemma_minimax_agrees;

verus! {

/// The outcome for the side to move, with its depth in plies.
#[derive(Clone, Copy, Debug, PartialEq, Eq, Structural)]
pub enum Value {
    Win(u32),
    Loss(u32),
    Draw,
}

impl View for Value {
    type V = Score;

    open spec fn view(&self) -> Score {
        match self {
            Value::Win(d) => Score::Win(*d as nat),
            Value::Loss(d) => Score::Loss(*d as nat),
            Value::Draw => Score::Draw,
        }
    }
}

/// The worth that a map of values, keyed by packed position, gives to a
/// position; what is not in the map counts as drawn.
pub open spec fn worth_in(values: Map<u64, Value>, p: Position) -> Score {
    if values.contains_key(p.0) {
        values[p.0]@
    } else {
        Score::Draw
    }
}

/// Every capture from the pair `{a, b}` that leaves three stones leads to a
/// key of `smaller`.
pub open spec fn captures_known(a: nat, b: nat, smaller: Map<u64, Value>) -> bool {
    forall|p: Position, s: Position|
        in_pair(a, b, p) && #[trigger] succs(p).contains(s) && total(s) < total(p) && count(s.w()) >= 3
            ==> smaller.contains_key(s.0)
}

/// No depth in the map exceeds `m`.
pub open spec fn depths_bounded(values: Map<u64, Value>, m: nat) -> bool {
    forall|k: u64| #[trigger] values.contains_key(k) ==> depth(values[k]@) <= m
}

/// The least bound on the depths in both maps.
proof fn joint_bound(a: Map<u64, Value>, b: Map<u64, Value>, m: nat) -> (r: nat)
    requires
        depths_bounded(a, m),
        depths_bounded(b, m),
    ensures
        depths_bounded(a, r),
        depths_bounded(b, r),
        r <= m,
        forall|k: nat| #[trigger] depths_bounded(a, k) && #[trigger] depths_bounded(b, k) ==> r <= k,
{
    let (x, y) = (least_bound(a, m), least_bound(b, m));
    if x < y {
        y
    } else {
        x
    }
}

/// Work out a position from what is known of its successors: `smaller` after
/// a capture, `values` after a quiet move. A successor of which nothing is known
/// counts as drawn, and nothing comes out where the position is not decided.
pub fn relax(s: Position, smaller: &HashMap<u64, Value>, values: &HashMap<u64, Value>) -> (r: Option<Value>)
    requires
        s.wf(),
        depths_bounded(smaller@, (u32::MAX - 1) as nat),
        depths_bounded(values@, (u32::MAX - 1) as nat),
        forall|k: u64| #[trigger] values@.contains_key(k) ==> values@[k] !is Draw,
    ensures
        r != Some(Value::Draw),
        minimax(
            s,
            |t: Position| reply(|q: Position| worth_in(smaller@, q), |q: Position| worth_in(values@, q), s, t),
            match r {
                Some(v) => v@,
                None => Score::Draw,
            },
        ),
        forall|m: nat| #[trigger]
            depths_bounded(smaller@, m) && #[trigger] depths_bounded(values@, m) ==> match r {
                Some(v) => depth(v@) <= m + 1,
                None => true,
            },
{
    broadcast use group_hash_axioms;

    let ghost m = joint_bound(smaller@, values@, (u32::MAX - 1) as nat);
    let next: Vec<Position> = moves_movement(s.white(), s.black());
    let ghost f = |q: Position| worth_in(smaller@, q);
    let ghost h = |q: Position| worth_in(values@, q);
    let ghost worth = |t: Position| reply(f, h, s, t);
    if next.len() == 0 {
        return Some(Value::Loss(0));
    }
    let here: u32 = s.white_count() + s.black_count();
    let mut best: Option<u32> = None;
    let mut slowest: u32 = 0;
    let mut all_win: bool = true;
    let mut i: usize = 0;
    while i < next.len()
        invariant
            i <= next.len(),
            next@ == succs(s),
            here == total(s),
            s.wf(),
            depths_bounded(smaller@, m),
            depths_bounded(values@, m),
            m < u32::MAX,
            forall|k: u64| #[trigger] values@.contains_key(k) ==> values@[k] !is Draw,
            worth == (|t: Position| reply(f, h, s, t)),
            f == (|q: Position| worth_in(smaller@, q)),
            h == (|q: Position| worth_in(values@, q)),
            match best {
                Some(d) => {
                    &&& 0 < d <= m + 1
                    &&& exists|k: int| 0 <= k < i && worth(#[trigger] next@[k]) == Score::Loss((d - 1) as nat)
                    &&& forall|k: int|
                        0 <= k < i && worth(#[trigger] next@[k]) is Loss ==> d - 1 <= worth(next@[k])->Loss_0
                },
                None => forall|k: int| 0 <= k < i ==> !(worth(#[trigger] next@[k]) is Loss),
            },
            slowest <= m,
            i == 0 ==> slowest == 0,
            all_win ==> forall|k: int| 0 <= k < i ==> worth(#[trigger] next@[k]) is Win || worth(next@[k]) is Loss,
            !all_win ==> exists|k: int| 0 <= k < i && worth(#[trigger] next@[k]) is Draw,
            forall|k: int| 0 <= k < i && worth(#[trigger] next@[k]) is Win ==> worth(next@[k])->Win_0 <= slowest,
            i > 0 && best is None && all_win ==> exists|k: int|
                0 <= k < i && worth(#[trigger] next@[k]) == Score::Win(slowest as nat),
        decreases next.len() - i,
    {
        broadcast use group_hash_axioms;
        let t: Position = next[i];
        proof {
            assert(succs(s).contains(t));
            lemma_pair_closed(count(s.w()), count(s.b()), s, t);
        }
        let known: Option<Value> = if t.white_count() < 3 {
            Some(Value::Loss(0))
        } else if t.white_count() + t.black_count() < here {
            match smaller.get(&t.0) {
                Some(v) => Some(*v),
                None => None,
            }
        } else {
            match values.get(&t.0) {
                Some(v) => Some(*v),
                None => None,
            }
        };
        assert(worth(next@[i as int]) == match known {
            Some(v) => v@,
            None => Score::Draw,
        });
        let ghost before = (best, slowest, all_win);
        match known {
            Some(Value::Loss(d)) => {
                best = match best {
                    None => Some(d + 1),
                    Some(e) => Some(if d + 1 < e { d + 1 } else { e }),
                };
            },
            Some(Value::Win(d)) => {
                if d > slowest {
                    slowest = d;
                }
            },
            Some(Value::Draw) => {
                all_win = false;
            },
            None => {
                all_win = false;
            },
        }
        proof {
            if best is None && all_win {
                if i > 0 && slowest == before.1 {
                    let k = choose|k: int| 0 <= k < i && worth(#[trigger] next@[k]) == Score::Win(before.1 as nat);
                    assert(worth(next@[k]) == Score::Win(slowest as nat));
                } else {
                    assert(worth(next@[i as int]) is Win);
                    assert(worth(next@[i as int]) == Score::Win(slowest as nat));
                }
            }
        }
        i = i + 1;
    }
    proof {
        assert forall|t: Position| #[trigger] succs(s).contains(t) implies exists|k: int|
            0 <= k < next.len() && #[trigger] next@[k] == t by {}
    }
    match best {
        Some(d) => {
            proof {
                let k = choose|k: int| 0 <= k < i && worth(#[trigger] next@[k]) == Score::Loss((d - 1) as nat);
                assert(succs(s).contains(next@[k]) && worth(next@[k]) == Score::Loss((d - 1) as nat));
                assert forall|t: Position| succs(s).contains(t) && (#[trigger] worth(t)) is Loss implies d - 1 <= worth(t)->Loss_0 by {
                    let k = choose|k: int| 0 <= k < next.len() && #[trigger] next@[k] == t;
                    assert(worth(next@[k]) is Loss);
                }
                assert(minimax(s, worth, Score::Win(d as nat)));
            }
            Some(Value::Win(d))
        },
        None => {
            if all_win {
                proof {
                    let k = choose|k: int| 0 <= k < i && worth(#[trigger] next@[k]) == Score::Win(slowest as nat);
                    assert(succs(s).contains(next@[k]) && worth(next@[k]) == Score::Win(slowest as nat));
                    assert forall|t: Position| succs(s).contains(t) implies (#[trigger] worth(t)) is Win && worth(t)->Win_0
                        <= slowest by {
                        let k = choose|k: int| 0 <= k < next.len() && #[trigger] next@[k] == t;
                        assert(worth(next@[k]) is Win);
                    }
                    assert(minimax(s, worth, Score::Loss((slowest + 1) as nat)));
                }
                Some(Value::Loss(slowest + 1))
            } else {
                proof {
                    let k = choose|k: int| 0 <= k < i && worth(#[trigger] next@[k]) is Draw;
                    assert(succs(s).contains(next@[k]) && worth(next@[k]) is Draw);
                    assert forall|t: Position| succs(s).contains(t) implies !((#[trigger] worth(t)) is Loss) by {
                        let k = choose|k: int| 0 <= k < next.len() && #[trigger] next@[k] == t;
                        assert(!(worth(next@[k]) is Loss));
                    }
                    assert(minimax(s, worth, Score::Draw));
                }
                None
            }
        },
    }
}

/// The `k`-element sublists of `u`, in lexicographic order of places.
pub open spec fn combos(u: Seq<usize>, k: nat) -> Seq<Seq<usize>>
    decreases u.len(),
{
    if k == 0 {
        seq![Seq::empty()]
    } else if u.len() < k {
        Seq::empty()
    } else {
        let rest = u.drop_first();
        combos(rest, (k - 1) as nat).map_values(|c: Seq<usize>| seq![u[0]] + c) + combos(rest, k)
    }
}

/// The lists in a list of vectors.
pub open spec fn lists(v: Seq<Vec<usize>>) -> Seq<Seq<usize>> {
    v.map_values(|c: Vec<usize>| c@)
}

fn combinations_from(universe: &Vec<usize>, k: usize, start: usize, cur: &mut Vec<usize>, out: &mut Vec<Vec<usize>>)
    requires
        start <= universe.len(),
        old(cur).len() <= k,
    ensures
        final(cur)@ == old(cur)@,
        lists(final(out)@) == lists(old(out)@) + combos(
            universe@.skip(start as int),
            (k - old(cur).len()) as nat,
        ).map_values(|c: Seq<usize>| old(cur)@ + c),
    decreases universe.len() - start,
{
    let ghost (cur0, out0) = (cur@, out@);
    let ghost u = universe@.skip(start as int);
    let ghost n = (k - cur0.len()) as nat;
    let ghost f = |c: Seq<usize>| cur0 + c;
    if cur.len() == k {
        let copy: Vec<usize> = cur.clone();
        assert(copy@ =~= cur0);
        out.push(copy);
        assert(combos(u, n).map_values(f) =~= seq![cur0 + Seq::<usize>::empty()]);
        assert(cur0 + Seq::<usize>::empty() =~= cur0);
        assert(lists(out@) =~= lists(out0) + combos(u, n).map_values(f));
        return;
    }
    if universe.len() - start < k - cur.len() {
        assert(combos(u, n).map_values(f) =~= Seq::<Seq<usize>>::empty());
        assert(lists(out@) =~= lists(out0) + combos(u, n).map_values(f));
        return;
    }
    let first: usize = universe[start];
    cur.push(first);
    combinations_from(universe, k, start + 1, cur, out);
    let _ = cur.pop();
    assert(cur@ =~= cur0);
    combinations_from(universe, k, start + 1, cur, out);
    proof {
        let rest = universe@.skip(start + 1);
        assert(u.drop_first() =~= rest);
        let g = |c: Seq<usize>| cur0.push(first) + c;
        let h = |c: Seq<usize>| seq![u[0]] + c;
        let one = combos(rest, (n - 1) as nat);
        assert(one.map_values(g) =~= one.map_values(h).map_values(f)) by {
            assert forall|i: int| 0 <= i < one.len() implies one.map_values(g)[i] == one.map_values(h).map_values(f)[i] by {
                assert(cur0.push(first) + one[i] =~= cur0 + (seq![u[0]] + one[i]));
            }
        }
        assert(combos(u, n).map_values(f) =~= one.map_values(h).map_values(f) + combos(rest, n).map_values(f));
        assert(lists(out@) =~= lists(out0) + combos(u, n).map_values(f));
    }
}

/// All `k`-element sublists of `universe`.
pub fn combinations(universe: &Vec<usize>, k: usize) -> (out: Vec<Vec<usize>>)
    ensures
        lists(out@) == combos(universe@, k as nat),
        out.len() == binom(universe.len() as nat, k as nat),
{
    let mut out: Vec<Vec<usize>> = Vec::new();
    let mut cur: Vec<usize> = Vec::new();
    combinations_from(universe, k, 0, &mut cur, &mut out);
    proof {
        let c = combos(universe@, k as nat);
        assert(universe@.skip(0) =~= universe@);
        assert forall|i: int| 0 <= i < c.len() implies c.map_values(|c: Seq<usize>| Seq::<usize>::empty() + c)[i] == c[i] by {
            assert(Seq::<usize>::empty() + c[i] =~= c[i]);
        }
        assert(lists(out@) =~= c);
        lemma_combos_len(universe@, k as nat);
        assert(lists(out@).len() == out.len());
    }
    out
}

proof fn lemma_combos_len(u: Seq<usize>, k: nat)
    ensures
        combos(u, k).len() == binom(u.len(), k),
    decreases u.len(),
{
    if k == 0 {
    } else if u.len() < k {
        crate::rank::lemma_binom_positive(u.len(), k);
    } else {
        lemma_combos_len(u.drop_first(), (k - 1) as nat);
        lemma_combos_len(u.drop_first(), k);
    }
}

/// The set of the points in a list.
pub open spec fn mask_of(c: Seq<usize>) -> u32
    decreases c.len(),
{
    if c.len() == 0 {
        0
    } else {
        with(mask_of(c.drop_last()), c.last() as int)
    }
}

/// The points outside `m` below `n`, in ascending order.
pub open spec fn rest_below(m: u32, n: int) -> Seq<usize>
    decreases n,
{
    if n <= 0 {
        Seq::empty()
    } else if member(m, n - 1) {
        rest_below(m, n - 1)
    } else {
        rest_below(m, n - 1).push((n - 1) as usize)
    }
}

/// The positions with the white set of one of the first `n` lists of `whites`
/// and `b` black stones.
pub open spec fn states_from(whites: Seq<Seq<usize>>, b: nat, n: int) -> Seq<Position>
    decreases n,
{
    if n <= 0 {
        Seq::empty()
    } else {
        let white = mask_of(whites[n - 1]);
        states_from(whites, b, n - 1) + combos(rest_below(white, 24), b).map_values(
            |c: Seq<usize>| pack(white, mask_of(c)),
        )
    }
}

/// All positions with `w` white and `b` black stones, by white set and then
/// by black set.
pub open spec fn states(w: nat, b: nat) -> Seq<Position> {
    let whites = combos(rest_below(0, 24), w);
    states_from(whites, b, whites.len() as int)
}

/// The set of the points in a vector.
fn to_mask(c: &Vec<usize>) -> (m: u32)
    requires
        forall|i: int| 0 <= i < c.len() ==> #[trigger] c[i] < 24,
    ensures
        m == mask_of(c@),
{
    let mut m: u32 = 0;
    let mut i: usize = 0;
    assert(c@.take(0) =~= Seq::<usize>::empty());
    while i < c.len()
        invariant
            i <= c.len(),
            forall|i: int| 0 <= i < c.len() ==> #[trigger] c[i] < 24,
            m == mask_of(c@.take(i as int)),
        decreases c.len() - i,
    {
        m = insert(m, c[i]);
        proof {
            assert(c@.take(i + 1).drop_last() =~= c@.take(i as int));
        }
        i = i + 1;
    }
    assert(c@.take(i as int) =~= c@);
    m
}

/// The points outside a set.
fn rest_of(m: u32) -> (v: Vec<usize>)
    ensures
        v@ == rest_below(m, 24),
{
    let mut v: Vec<usize> = Vec::new();
    let mut p: usize = 0;
    while p < 24
        invariant
            p <= 24,
            v@ == rest_below(m, p as int),
        decreases 24 - p,
    {
        if !contains(m, p) {
            v.push(p);
        }
        p = p + 1;
    }
    v
}

/// Point `p` is in a list.
spec fn in_list(u: Seq<usize>, p: int) -> bool {
    exists|j: int| 0 <= j < u.len() && u[j] == p
}

/// A list of different points.
spec fn point_list(u: Seq<usize>) -> bool {
    &&& u.no_duplicates()
    &&& forall|i: int| 0 <= i < u.len() ==> #[trigger] u[i] < 24
}

proof fn lemma_mask_of(c: Seq<usize>, p: int)
    requires
        forall|i: int| 0 <= i < c.len() ==> #[trigger] c[i] < 24,
    ensures
        member(mask_of(c), p) <==> exists|i: int| 0 <= i < c.len() && #[trigger] c[i] == p,
    decreases c.len(),
{
    broadcast use group_mask;
    if c.len() > 0 {
        let r = c.drop_last();
        assert forall|i: int| 0 <= i < r.len() implies #[trigger] r[i] < 24 by {
            assert(r[i] == c[i]);
        }
        lemma_mask_of(r, p);
        if exists|i: int| 0 <= i < r.len() && #[trigger] r[i] == p {
            let i = choose|i: int| 0 <= i < r.len() && #[trigger] r[i] == p;
            assert(c[i] == p);
        }
        if exists|i: int| 0 <= i < c.len() && #[trigger] c[i] == p {
            let i = choose|i: int| 0 <= i < c.len() && #[trigger] c[i] == p;
            if i < r.len() {
                assert(r[i] == p);
            }
        }
        assert(c[c.len() - 1] == c.last());
    }
}

proof fn lemma_mask_of_cons(x: usize, c: Seq<usize>)
    requires
        x < 24,
        forall|i: int| 0 <= i < c.len() ==> #[trigger] c[i] < 24,
    ensures
        mask_of(seq![x] + c) == with(mask_of(c), x as int),
{
    let s = seq![x] + c;
    assert forall|p: int| 0 <= p < 32 implies member(mask_of(s), p) == member(with(mask_of(c), x as int), p) by {
        broadcast use group_mask;
        lemma_mask_of(s, p);
        lemma_mask_of(c, p);
        assert(s[0] == x);
        if exists|i: int| 0 <= i < c.len() && #[trigger] c[i] == p {
            let i = choose|i: int| 0 <= i < c.len() && #[trigger] c[i] == p;
            assert(s[i + 1] == p);
        }
        if exists|i: int| 0 <= i < s.len() && #[trigger] s[i] == p {
            let i = choose|i: int| 0 <= i < s.len() && #[trigger] s[i] == p;
            if i > 0 {
                assert(c[i - 1] == p);
            }
        }
    }
    lemma_ext(mask_of(s), with(mask_of(c), x as int));
}

/// The sublists stand for the `k`-subsets, each for one.
proof fn lemma_combos(u: Seq<usize>, k: nat)
    requires
        point_list(u),
    ensures
        forall|i: int| 0 <= i < combos(u, k).len() ==> {
            let c = #[trigger] combos(u, k)[i];
            &&& forall|j: int| 0 <= j < c.len() ==> #[trigger] c[j] < 24
            &&& count(mask_of(c)) == k
            &&& forall|p: int| #[trigger] member(mask_of(c), p) ==> in_list(u, p)
        },
        forall|i: int, j: int|
            0 <= i < j < combos(u, k).len() ==> mask_of(#[trigger] combos(u, k)[i]) != mask_of(#[trigger] combos(u, k)[j]),
        forall|m: u32|
            count(m) == k && (forall|p: int| #[trigger] member(m, p) ==> in_list(u, p))
                ==> exists|i: int| 0 <= i < combos(u, k).len() && mask_of(#[trigger] combos(u, k)[i]) == m,
    decreases u.len(),
{
    broadcast use group_mask;
    let all = combos(u, k);
    if k == 0 {
        crate::mask::lemma_count_zero(0);
        assert(all[0] == Seq::<usize>::empty());
        assert forall|m: u32| count(m) == k implies exists|i: int| 0 <= i < all.len() && mask_of(#[trigger] all[i]) == m by {
            crate::mask::lemma_count_zero(m);
            assert(mask_of(all[0]) == m);
        }
    } else if u.len() < k {
        assert forall|m: u32|
            count(m) == k && (forall|p: int| #[trigger] member(m, p) ==> in_list(u, p)) implies exists|
            i: int,
        | 0 <= i < all.len() && mask_of(#[trigger] all[i]) == m by {
            lemma_count_in_list(m, u);
        }
    } else {
        let r = u.drop_first();
        assert forall|i: int| 0 <= i < r.len() implies #[trigger] r[i] < 24 by {
            assert(r[i] == u[i + 1]);
        }
        assert(r.no_duplicates()) by {
            assert forall|i: int, j: int| 0 <= i < r.len() && 0 <= j < r.len() && i != j implies r[i] != r[j] by {
                assert(r[i] == u[i + 1] && r[j] == u[j + 1]);
            }
        }
        let x = u[0];
        let f = |c: Seq<usize>| seq![x] + c;
        let (a, b) = (combos(r, (k - 1) as nat), combos(r, k));
        lemma_combos(r, (k - 1) as nat);
        lemma_combos(r, k);
        assert(all =~= a.map_values(f) + b);
        assert forall|p: int| #[trigger] in_list(r, p) implies p != x && in_list(u, p) by {
            let j = choose|j: int| 0 <= j < r.len() && r[j] == p;
            assert(u[j + 1] == p);
        }
        assert forall|i: int| 0 <= i < a.len() implies mask_of(#[trigger] all[i]) == with(mask_of(a[i]), x as int) && !member(
            mask_of(a[i]),
            x as int,
        ) by {
            assert(all[i] == seq![x] + a[i]);
            lemma_mask_of_cons(x, a[i]);
            if member(mask_of(a[i]), x as int) {
                assert(in_list(r, x as int));
            }
        }
        assert forall|i: int| 0 <= i < all.len() implies {
            let c = #[trigger] all[i];
            &&& forall|j: int| 0 <= j < c.len() ==> #[trigger] c[j] < 24
            &&& count(mask_of(c)) == k
            &&& forall|p: int| #[trigger] member(mask_of(c), p) ==> in_list(u, p)
        } by {
            let c = all[i];
            if i < a.len() {
                let s = a[i];
                assert(c == seq![x] + s);
                assert forall|j: int| 0 <= j < c.len() implies #[trigger] c[j] < 24 by {
                    if j > 0 {
                        assert(c[j] == s[j - 1]);
                    }
                }
                lemma_count_with(mask_of(s), x as int);
                assert forall|p: int| #[trigger] member(mask_of(c), p) implies in_list(u, p) by {
                    if p == x {
                        assert(u[0] == p);
                    } else {
                        assert(member(mask_of(s), p));
                    }
                }
            } else {
                assert(c == b[i - a.len()]);
                assert forall|p: int| #[trigger] member(mask_of(c), p) implies in_list(u, p) by {
                    assert(in_list(r, p));
                }
            }
        }
        assert forall|i: int| a.len() <= i < all.len() implies !member(mask_of(#[trigger] all[i]), x as int) by {
            assert(all[i] == b[i - a.len()]);
            if member(mask_of(all[i]), x as int) {
                assert(in_list(r, x as int));
            }
        }
        assert forall|i: int, j: int| 0 <= i < j < all.len() implies mask_of(#[trigger] all[i]) != mask_of(#[trigger] all[j]) by {
            if j < a.len() {
                assert(mask_of(a[i]) != mask_of(a[j]));
                if mask_of(all[i]) == mask_of(all[j]) {
                    assert forall|p: int| 0 <= p < 32 implies member(mask_of(a[i]), p) == member(mask_of(a[j]), p) by {
                        assert(member(with(mask_of(a[i]), x as int), p) == member(with(mask_of(a[j]), x as int), p));
                    }
                    lemma_ext(mask_of(a[i]), mask_of(a[j]));
                }
            } else if i < a.len() {
                assert(member(mask_of(all[i]), x as int));
            } else {
                assert(all[i] == b[i - a.len()] && all[j] == b[j - a.len()]);
            }
        }
        assert forall|m: u32|
            count(m) == k && (forall|p: int| #[trigger] member(m, p) ==> in_list(u, p)) implies exists|
            i: int,
        | 0 <= i < all.len() && mask_of(#[trigger] all[i]) == m by {
            let n = crate::mask::without(m, x as int);
            assert forall|p: int| #[trigger] member(m, p) && p != x implies in_list(r, p) by {
                let j = choose|j: int| 0 <= j < u.len() && u[j] == p;
                assert(r[j - 1] == p);
            }
            if member(m, x as int) {
                crate::mask::lemma_count_without(m, x as int);
                assert forall|p: int| #[trigger] member(n, p) implies in_list(r, p) by {
                    assert(member(m, p) && p != x);
                }
                let i = choose|i: int| 0 <= i < a.len() && mask_of(#[trigger] a[i]) == n;
                assert forall|p: int| 0 <= p < 32 implies member(with(n, x as int), p) == member(m, p) by {}
                lemma_ext(with(n, x as int), m);
                assert(mask_of(all[i]) == m);
            } else {
                assert forall|p: int| #[trigger] member(m, p) implies in_list(r, p) by {
                    assert(p != x);
                }
                let i = choose|i: int| 0 <= i < b.len() && mask_of(#[trigger] b[i]) == m;
                assert(all[a.len() + i] == b[i]);
            }
        }
    }
}

/// A set of points out of a list has at most as many points as the list.
proof fn lemma_count_in_list(m: u32, u: Seq<usize>)
    requires
        forall|p: int| #[trigger] member(m, p) ==> in_list(u, p),
    ensures
        count(m) <= u.len(),
    decreases u.len(),
{
    broadcast use group_mask;
    if u.len() == 0 {
        assert forall|p: int| 0 <= p < 32 implies member(m, p) == member(0u32, p) by {}
        lemma_ext(m, 0);
        crate::mask::lemma_count_zero(0);
    } else {
        let r = u.drop_last();
        let x = u.last() as int;
        let n = crate::mask::without(m, x);
        if 0 <= x < 32 {
            crate::mask::lemma_count_without(m, x);
            assert forall|p: int| #[trigger] member(n, p) implies in_list(r, p) by {
                assert(member(m, p) && p != x);
                let j = choose|j: int| 0 <= j < u.len() && u[j] == p;
                assert(j < r.len());
                assert(r[j] == p);
            }
            lemma_count_in_list(n, r);
        } else {
            assert forall|p: int| #[trigger] member(m, p) implies in_list(r, p) by {
                let j = choose|j: int| 0 <= j < u.len() && u[j] == p;
                assert(j < r.len());
                assert(r[j] == p);
            }
            lemma_count_in_list(m, r);
        }
    }
}

proof fn lemma_rest_below(m: u32, n: int)
    requires
        0 <= n <= 24,
    ensures
        rest_below(m, n).len() == n - count_below(m, n),
        forall|i: int| 0 <= i < rest_below(m, n).len() ==> #[trigger] rest_below(m, n)[i] < n,
        rest_below(m, n).no_duplicates(),
        forall|p: int| #[trigger] in_list(rest_below(m, n), p) <==> 0 <= p < n && !member(m, p),
    decreases n,
{
    if n > 0 {
        lemma_rest_below(m, n - 1);
        let (a, b) = (rest_below(m, n - 1), rest_below(m, n));
        assert forall|p: int| #[trigger] in_list(b, p) <==> 0 <= p < n && !member(m, p) by {
            if in_list(b, p) {
                let j = choose|j: int| 0 <= j < b.len() && b[j] == p;
                if j < a.len() {
                    assert(a[j] == p);
                    assert(in_list(a, p));
                }
            }
            if 0 <= p < n && !member(m, p) {
                if p == n - 1 {
                    assert(b[a.len() as int] == p);
                } else {
                    assert(in_list(a, p));
                    let j = choose|j: int| 0 <= j < a.len() && a[j] == p;
                    assert(b[j] == p);
                }
            }
        }
    }
}

/// What the sublists of the points outside a set stand for.
proof fn lemma_rest_combos(m: u32, k: nat)
    requires
        on_board(m),
    ensures
        forall|i: int| 0 <= i < combos(rest_below(m, 24), k).len() ==> {
            let c = #[trigger] combos(rest_below(m, 24), k)[i];
            &&& forall|j: int| 0 <= j < c.len() ==> #[trigger] c[j] < 24
            &&& count(mask_of(c)) == k
            &&& on_board(mask_of(c))
            &&& disjoint(m, mask_of(c))
        },
        forall|i: int, j: int|
            0 <= i < j < combos(rest_below(m, 24), k).len() ==> mask_of(#[trigger] combos(rest_below(m, 24), k)[i]) != mask_of(
                #[trigger] combos(rest_below(m, 24), k)[j],
            ),
        forall|x: u32|
            count(x) == k && on_board(x) && #[trigger] disjoint(m, x) ==> exists|i: int|
                0 <= i < combos(rest_below(m, 24), k).len() && mask_of(#[trigger] combos(rest_below(m, 24), k)[i]) == x,
        combos(rest_below(m, 24), k).len() == binom((24 - count(m)) as nat, k),
{
    broadcast use group_mask;
    let u = rest_below(m, 24);
    let all = combos(u, k);
    lemma_rest_below(m, 24);
    lemma_count_on_board(m);
    lemma_combos_len(u, k);
    lemma_combos(u, k);
    assert forall|i: int| 0 <= i < all.len() implies {
        let c = #[trigger] all[i];
        &&& on_board(mask_of(c))
        &&& disjoint(m, mask_of(c))
    } by {
        let x = mask_of(all[i]);
        lemma_on_board(x);
        lemma_disjoint(m, x);
        assert forall|p: int| #[trigger] member(x, p) implies 0 <= p < 24 && !member(m, p) by {
            assert(in_list(u, p));
        }
    }
    assert forall|x: u32| count(x) == k && on_board(x) && #[trigger] disjoint(m, x) implies exists|i: int|
        0 <= i < all.len() && mask_of(#[trigger] all[i]) == x by {
        lemma_on_board(x);
        lemma_disjoint(m, x);
        assert forall|p: int| #[trigger] member(x, p) implies in_list(u, p) by {}
    }
}

/// The white set of list `i` of the `w`-sublists of all points.
spec fn white_at(w: nat, i: int) -> u32 {
    mask_of(combos(rest_below(0, 24), w)[i])
}

proof fn lemma_states_from(w: nat, b: nat, n: int)
    requires
        0 <= n <= combos(rest_below(0, 24), w).len(),
    ensures
        forall|p: Position| #[trigger]
            states_from(combos(rest_below(0, 24), w), b, n).contains(p) <==> {
                &&& p.wf()
                &&& count(p.b()) == b
                &&& exists|i: int| 0 <= i < n && #[trigger] white_at(w, i) == p.w()
            },
        states_from(combos(rest_below(0, 24), w), b, n).no_duplicates(),
        states_from(combos(rest_below(0, 24), w), b, n).len() == n * binom((24 - w) as nat, b),
    decreases n,
{
    let whites = combos(rest_below(0, 24), w);
    let all = states_from(whites, b, n);
    lemma_rest_combos(0, w);
    if n > 0 {
        lemma_states_from(w, b, n - 1);
        let white = white_at(w, n - 1);
        assert(mask_of(whites[n - 1]) == white);
        assert(on_board(white) && count(white) == w);
        lemma_rest_combos(white, b);
        let blacks = combos(rest_below(white, 24), b);
        let f = |c: Seq<usize>| pack(white, mask_of(c));
        let (old_part, new_part) = (states_from(whites, b, n - 1), blacks.map_values(f));
        assert(all =~= old_part + new_part);
        assert forall|i: int| 0 <= i < new_part.len() implies (#[trigger] new_part[i]).wf() && new_part[i].w() == white
            && new_part[i].b() == mask_of(blacks[i]) by {
            lemma_pack(white, mask_of(blacks[i]));
        }
        assert forall|p: Position| #[trigger] new_part.contains(p) <==> p.wf() && count(p.b()) == b && p.w() == white by {
            if new_part.contains(p) {
                let i = choose|i: int| 0 <= i < new_part.len() && new_part[i] == p;
                assert(count(mask_of(blacks[i])) == b);
            }
            if p.wf() && count(p.b()) == b && p.w() == white {
                lemma_halves_on_board(p);
                assert(disjoint(white, p.b()));
                let i = choose|i: int| 0 <= i < blacks.len() && mask_of(#[trigger] blacks[i]) == p.b();
                lemma_pos_ext(new_part[i], p);
                assert(new_part[i] == p);
            }
        }
        assert forall|p: Position| #[trigger] all.contains(p) <==> {
            &&& p.wf()
            &&& count(p.b()) == b
            &&& exists|i: int| 0 <= i < n && #[trigger] white_at(w, i) == p.w()
        } by {
            lemma_concat_contains(old_part, new_part, p);
            if p.wf() && count(p.b()) == b && exists|i: int| 0 <= i < n && #[trigger] white_at(w, i) == p.w() {
                let i = choose|i: int| 0 <= i < n && #[trigger] white_at(w, i) == p.w();
                if i < n - 1 {
                    assert(old_part.contains(p));
                } else {
                    assert(new_part.contains(p));
                }
            }
            if old_part.contains(p) {
                let i = choose|i: int| 0 <= i < n - 1 && #[trigger] white_at(w, i) == p.w();
                assert(0 <= i < n && white_at(w, i) == p.w());
            }
            if new_part.contains(p) {
                assert(white_at(w, n - 1) == p.w());
            }
        }
        assert forall|p: Position| !(old_part.contains(p) && #[trigger] new_part.contains(p)) by {
            if old_part.contains(p) && new_part.contains(p) {
                let i = choose|i: int| 0 <= i < n - 1 && #[trigger] white_at(w, i) == p.w();
                assert(mask_of(whites[i]) != mask_of(whites[n - 1]));
            }
        }
        assert(new_part.no_duplicates()) by {
            assert forall|i: int, j: int| 0 <= i < new_part.len() && 0 <= j < new_part.len() && i != j implies new_part[i]
                != new_part[j] by {
                if i < j {
                    assert(mask_of(blacks[i]) != mask_of(blacks[j]));
                } else {
                    assert(mask_of(blacks[j]) != mask_of(blacks[i]));
                }
            }
        }
        lemma_concat_distinct(old_part, new_part);
        let k = binom((24 - w) as nat, b);
        assert(n * k == (n - 1) * k + k) by (nonlinear_arith);
    } else {
        assert(0 * binom((24 - w) as nat, b) == 0);
    }
}

/// The list of states holds every position with the given stone counts, and
/// each once.
pub proof fn states_are_listed_once(w: nat, b: nat)
    requires
        w <= 24,
    ensures
        forall|p: Position| #[trigger]
            states(w, b).contains(p) <==> p.wf() && count(p.w()) == w && count(p.b()) == b,
        states(w, b).no_duplicates(),
        states(w, b).len() == binom(24, w) * binom((24 - w) as nat, b),
{
    broadcast use group_mask;
    let whites = combos(rest_below(0, 24), w);
    lemma_rest_combos(0, w);
    crate::mask::lemma_count_zero(0);
    lemma_states_from(w, b, whites.len() as int);
    assert forall|p: Position| #[trigger] states(w, b).contains(p) <==> p.wf() && count(p.w()) == w && count(p.b()) == b by {
        if p.wf() && count(p.w()) == w && count(p.b()) == b {
            lemma_halves_on_board(p);
            lemma_disjoint(0, p.w());
            assert(disjoint(0, p.w()));
            let i = choose|i: int| 0 <= i < whites.len() && mask_of(#[trigger] whites[i]) == p.w();
            assert(white_at(w, i) == p.w());
        }
        if states(w, b).contains(p) {
            let i = choose|i: int| 0 <= i < whites.len() && #[trigger] white_at(w, i) == p.w();
            assert(count(mask_of(whites[i])) == w);
        }
    }
}

/// The number of positions with `w` white and `b` black stones.
pub fn estimate_count(w: usize, b: usize) -> (n: u64)
    requires
        w <= 24,
    ensures
        n == binom(24, w as nat) * binom((24 - w) as nat, b as nat),
{
    if b > 24 {
        proof {
            crate::rank::lemma_binom_positive((24 - w) as nat, b as nat);
            assert(binom(24, w as nat) * 0 == 0);
        }
        return 0;
    }
    proof {
        lemma_binom(24, w as int);
        lemma_binom(24 - w, b as int);
        lemma_binom_small(24, w as nat);
        lemma_binom_small((24 - w) as nat, b as nat);
    }
    let (whites, blacks): (u64, u64) = (BINOM[24][w], BINOM[24 - w][b]);
    assert(whites * blacks <= 2704156 * 2704156) by (nonlinear_arith)
        requires
            whites <= 2704156,
            blacks <= 2704156,
    ;
    whites * blacks
}

/// All positions with exactly `w` white and `b` black stones: no symmetry
/// reduction, every position is its own state.
pub fn all_states(w: usize, b: usize) -> (out: Vec<Position>)
    requires
        w <= 24,
    ensures
        out@ == states(w as nat, b as nat),
        out.len() == binom(24, w as nat) * binom((24 - w) as nat, b as nat),
{
    let points: Vec<usize> = rest_of(0);
    let whites: Vec<Vec<usize>> = combinations(&points, w);
    let mut out: Vec<Position> = Vec::new();
    let ghost gw = combos(rest_below(0, 24), w as nat);
    proof {
        broadcast use group_mask;
        lemma_rest_combos(0, w as nat);
        crate::mask::lemma_count_zero(0);
    }
    let mut i: usize = 0;
    while i < whites.len()
        invariant
            i <= whites.len(),
            lists(whites@) == gw,
            gw == combos(rest_below(0, 24), w as nat),
            w <= 24,
            out@ == states_from(gw, b as nat, i as int),
            forall|i: int| 0 <= i < gw.len() ==> {
                let c = #[trigger] gw[i];
                &&& forall|j: int| 0 <= j < c.len() ==> #[trigger] c[j] < 24
                &&& count(mask_of(c)) == w
                &&& on_board(mask_of(c))
            },
        decreases whites.len() - i,
    {
        assert(whites[i as int]@ == gw[i as int]);
        let white: u32 = to_mask(&whites[i]);
        let rest: Vec<usize> = rest_of(white);
        let blacks: Vec<Vec<usize>> = combinations(&rest, b);
        let ghost gb = combos(rest_below(white, 24), b as nat);
        let ghost f = |c: Seq<usize>| pack(white, mask_of(c));
        let ghost before = out@;
        proof {
            lemma_rest_combos(white, b as nat);
        }
        let mut j: usize = 0;
        while j < blacks.len()
            invariant
                j <= blacks.len(),
                lists(blacks@) == gb,
                on_board(white),
                out@ == before + gb.take(j as int).map_values(f),
                f == (|c: Seq<usize>| pack(white, mask_of(c))),
                forall|i: int| 0 <= i < gb.len() ==> {
                    let c = #[trigger] gb[i];
                    &&& forall|j: int| 0 <= j < c.len() ==> #[trigger] c[j] < 24
                    &&& on_board(mask_of(c))
                    &&& disjoint(white, mask_of(c))
                },
            decreases blacks.len() - j,
        {
            assert(blacks[j as int]@ == gb[j as int]);
            let black: u32 = to_mask(&blacks[j]);
            out.push(Position::new(white, black));
            assert(gb.take(j + 1).map_values(f) =~= gb.take(j as int).map_values(f).push(pack(white, black)));
            j = j + 1;
        }
        assert(gb.take(j as int) =~= gb);
        i = i + 1;
    }
    proof {
        states_are_listed_once(w as nat, b as nat);
    }
    out
}

/// All positions of the pair `{a, b}`.
pub open spec fn pair_states(a: nat, b: nat) -> Seq<Position> {
    if a == b {
        states(a, b)
    } else {
        states(a, b) + states(b, a)
    }
}

proof fn lemma_pair_states(a: nat, b: nat)
    requires
        a <= 24,
        b <= 24,
    ensures
        forall|p: Position| #[trigger] pair_states(a, b).contains(p) <==> in_pair(a, b, p),
{
    states_are_listed_once(a, b);
    states_are_listed_once(b, a);
    assert forall|p: Position| #[trigger] pair_states(a, b).contains(p) <==> in_pair(a, b, p) by {
        lemma_concat_contains(states(a, b), states(b, a), p);
        assert(states(a, b).contains(p) <==> p.wf() && count(p.w()) == a && count(p.b()) == b);
        assert(states(b, a).contains(p) <==> p.wf() && count(p.w()) == b && count(p.b()) == a);
    }
}

/// `v` has the outcome of `t`, with a depth that is not less.
spec fn approximates(v: Score, t: Score) -> bool {
    match v {
        Score::Win(d) => t is Win && t->Win_0 <= d,
        Score::Loss(d) => t is Loss && t->Loss_0 <= d,
        Score::Draw => false,
    }
}

/// The keys of `values` are positions of the pair, and the values are right
/// but for depths that may be too great.
spec fn sound(a: nat, b: nat, smaller: Map<u64, Value>, values: Map<u64, Value>) -> bool {
    forall|k: u64| #[trigger]
        values.contains_key(k) ==> in_pair(a, b, Position(k)) && approximates(
            values[k]@,
            score(|q: Position| worth_in(smaller, q), Position(k)),
        )
}

/// The worth of the successors of `p` as far as `values` knows it.
spec fn known_worth(smaller: Map<u64, Value>, values: Map<u64, Value>, p: Position) -> spec_fn(Position) -> Score {
    |t: Position| reply(|q: Position| worth_in(smaller, q), |q: Position| worth_in(values, q), p, t)
}

/// What `values` makes of `p` does not improve on what it says of `p`.
spec fn settled(smaller: Map<u64, Value>, values: Map<u64, Value>, p: Position) -> bool {
    exists|r: Score| #[trigger]
        minimax(p, known_worth(smaller, values, p), r) && match r {
            Score::Win(d) => worth_in(values, p) is Win && worth_in(values, p)->Win_0 <= d,
            Score::Loss(d) => worth_in(values, p) is Loss && worth_in(values, p)->Loss_0 <= d,
            Score::Draw => true,
        }
}

/// Working out a position from approximations gives an approximation.
proof fn lemma_approximation(
    a: nat,
    b: nat,
    smaller: Map<u64, Value>,
    values: Map<u64, Value>,
    p: Position,
    r: Score,
)
    requires
        in_pair(a, b, p),
        sound(a, b, smaller, values),
        minimax(p, known_worth(smaller, values, p), r),
        !(r is Draw),
    ensures
        approximates(r, score(|q: Position| worth_in(smaller, q), p)),
{
    let f = |q: Position| worth_in(smaller, q);
    let known = known_worth(smaller, values, p);
    let truth = |t: Position| reply(f, |q: Position| score(f, q), p, t);
    scores_are_consistent(a, b, f, p);
    assert forall|t: Position| #[trigger] succs(p).contains(t) implies known(t) == truth(t) || known(t) is Draw || approximates(
        known(t),
        truth(t),
    ) by {
        lemma_pair_closed(a, b, p, t);
        if count(t.w()) >= 3 && total(t) == total(p) {
            assert(Position(t.0) == t);
            if values.contains_key(t.0) {
                assert(approximates(values[t.0]@, score(f, Position(t.0))));
            }
        }
    }
    match r {
        Score::Win(d) => {
            let t = choose|t: Position| succs(p).contains(t) && #[trigger] known(t) == Score::Loss((d - 1) as nat);
            assert(truth(t) is Loss && truth(t)->Loss_0 <= d - 1);
        },
        Score::Loss(d) => {
            if succs(p).len() > 0 {
                assert(succs(p).contains(succs(p)[0]));
                assert forall|t: Position| succs(p).contains(t) implies (#[trigger] truth(t)) is Win && truth(t)->Win_0 <= d - 1 by {
                    assert(known(t) is Win);
                }
                assert(truth(succs(p)[0]) is Win);
            }
        },
        Score::Draw => {},
    }
}

/// Where nothing improves, every decided position is known, and no later than
/// it is decided.
proof fn lemma_complete(
    a: nat,
    b: nat,
    smaller: Map<u64, Value>,
    values: Map<u64, Value>,
    p: Position,
    d: nat,
)
    requires
        in_pair(a, b, p),
        sound(a, b, smaller, values),
        forall|q: Position| #[trigger] in_pair(a, b, q) ==> settled(smaller, values, q),
        !(score(|q: Position| worth_in(smaller, q), p) is Draw),
        depth(score(|q: Position| worth_in(smaller, q), p)) <= d,
    ensures
        worth_in(values, p) == score(|q: Position| worth_in(smaller, q), p),
    decreases d,
{
    let f = |q: Position| worth_in(smaller, q);
    let v = score(f, p);
    let known = known_worth(smaller, values, p);
    let truth = |t: Position| reply(f, |q: Position| score(f, q), p, t);
    scores_are_consistent(a, b, f, p);
    assert forall|t: Position| #[trigger] succs(p).contains(t) && !(truth(t) is Draw) && depth(truth(t)) < depth(v) implies known(t)
        == truth(t) by {
        lemma_pair_closed(a, b, p, t);
        if count(t.w()) >= 3 && total(t) == total(p) {
            lemma_complete(a, b, smaller, values, t, (d - 1) as nat);
        }
    }
    assert(settled(smaller, values, p));
    let r = choose|r: Score| #[trigger]
        minimax(p, known_worth(smaller, values, p), r) && match r {
            Score::Win(d) => worth_in(values, p) is Win && worth_in(values, p)->Win_0 <= d,
            Score::Loss(d) => worth_in(values, p) is Loss && worth_in(values, p)->Loss_0 <= d,
            Score::Draw => true,
        };
    if !(r is Draw) {
        lemma_approximation(a, b, smaller, values, p, r);
    }
    match v {
        Score::Win(k) => {
            let t = choose|t: Position| succs(p).contains(t) && #[trigger] truth(t) == Score::Loss((k - 1) as nat);
            assert(known(t) == Score::Loss((k - 1) as nat));
            assert(r is Win && r->Win_0 <= k);
        },
        Score::Loss(k) => {
            if succs(p).len() > 0 {
                assert forall|t: Position| succs(p).contains(t) implies (#[trigger] known(t)) is Win && known(t)->Win_0 <= k - 1 by {
                    assert(truth(t) is Win);
                }
                let t = choose|t: Position| succs(p).contains(t) && #[trigger] truth(t) == Score::Win((k - 1) as nat);
                assert(known(t) == Score::Win((k - 1) as nat));
                assert(minimax(p, known, Score::Loss(k)));
                minimax_is_functional(p, known, Score::Loss(k), r);
            } else {
                assert(minimax(p, known, Score::Loss(0)));
                minimax_is_functional(p, known, Score::Loss(0), r);
            }
        },
        Score::Draw => {},
    }
    assert(values.contains_key(p.0));
    assert(Position(p.0) == p);
    assert(approximates(values[p.0]@, score(f, Position(p.0))));
}

/// What is left to do for the states of a list: their depths, with `top` for
/// one that is not decided.
spec fn remaining(values: Map<u64, Value>, l: Seq<Position>, top: nat) -> nat
    decreases l.len(),
{
    if l.len() == 0 {
        0
    } else {
        remaining(values, l.drop_last(), top) + if values.contains_key(l.last().0) {
            depth(values[l.last().0]@)
        } else {
            top
        }
    }
}

/// Deciding a state, or lowering its depth, leaves less to do.
proof fn lemma_remaining(before: Map<u64, Value>, k: u64, v: Value, l: Seq<Position>, top: nat)
    requires
        depth(v@) < top,
        before.contains_key(k) ==> depth(v@) < depth(before[k]@),
    ensures
        remaining(before.insert(k, v), l, top) <= remaining(before, l, top),
        (exists|i: int| 0 <= i < l.len() && (#[trigger] l[i]).0 == k) ==> remaining(before.insert(k, v), l, top) < remaining(
            before,
            l,
            top,
        ),
    decreases l.len(),
{
    if l.len() > 0 {
        let r = l.drop_last();
        lemma_remaining(before, k, v, r, top);
        if exists|i: int| 0 <= i < l.len() && (#[trigger] l[i]).0 == k {
            let i = choose|i: int| 0 <= i < l.len() && (#[trigger] l[i]).0 == k;
            if i < r.len() {
                assert(r[i].0 == k);
            }
        }
    }
}

/// A map whose keys are states of a list has at most as many keys.
proof fn lemma_dom_len(values: Map<u64, Value>, l: Seq<Position>)
    requires
        values.dom().finite(),
        forall|k: u64| #[trigger] values.contains_key(k) ==> l.contains(Position(k)),
    ensures
        values.dom().len() <= l.len(),
    decreases l.len(),
{
    if l.len() == 0 {
        assert forall|k: u64| !#[trigger] values.contains_key(k) by {}
        assert(values.dom() =~= Set::<u64>::empty());
    } else {
        let (r, x) = (l.drop_last(), l.last());
        let fewer = values.remove(x.0);
        assert forall|k: u64| #[trigger] fewer.contains_key(k) implies r.contains(Position(k)) by {
            assert(values.contains_key(k));
            let i = choose|i: int| 0 <= i < l.len() && l[i] == Position(k);
            assert(r[i] == Position(k));
        }
        lemma_dom_len(fewer, r);
        assert(fewer.dom() =~= values.dom().remove(x.0));
    }
}

/// The number of positions of the pair, and the depths of the smaller pairs
/// on top of it, fit a `u32`.
pub open spec fn depths_representable(a: nat, b: nat, smaller: Map<u64, Value>) -> bool {
    &&& pair_states(a, b).len() < u32::MAX
    &&& forall|k: u64| #[trigger]
        smaller.contains_key(k) ==> depth(smaller[k]@) + pair_states(a, b).len() < u32::MAX
}

/// The least bound on the depths in a map.
proof fn least_bound(values: Map<u64, Value>, m: nat) -> (r: nat)
    requires
        depths_bounded(values, m),
    ensures
        depths_bounded(values, r),
        r <= m,
        forall|k: nat| #[trigger] depths_bounded(values, k) ==> r <= k,
    decreases m,
{
    if m > 0 && depths_bounded(values, (m - 1) as nat) {
        least_bound(values, (m - 1) as nat)
    } else {
        assert forall|k: nat| #[trigger] depths_bounded(values, k) implies m <= k by {
            if k < m {
                assert(depths_bounded(values, (m - 1) as nat));
            }
        }
        m
    }
}

/// The smallest pair can be solved on nothing: every capture ends the game.
pub proof fn smallest_pair_needs_nothing()
    ensures
        captures_known(3, 3, Map::empty()),
        depths_representable(3, 3, Map::empty()),
{
    let none = Map::<u64, Value>::empty();
    assert forall|p: Position, s: Position|
        in_pair(3, 3, p) && #[trigger] succs(p).contains(s) && total(s) < total(p) && count(s.w())
            >= 3 implies none.contains_key(s.0) by {
        lemma_pair_closed(3, 3, p, s);
    }
    states_are_listed_once(3, 3);
    lemma_binom(24, 3);
    lemma_binom(21, 3);
    assert(BINOM[24][3] == 2024 && BINOM[21][3] == 1330);
    assert(states(3, 3).len() == 2024 * 1330);
}

/// Solve the unordered pair `{a, b}`, that is both ordered subspaces together,
/// by scanning forward to a fixpoint. Values are keyed by packed position.
///
/// `smaller` must hold the values of all positions that a single capture
/// leads to, unless it leaves fewer than three stones.
///
/// Every state is worked out again in every pass, and a value is replaced only
/// by one of the same kind with less depth. To settle for the first value
/// found would be a trap: whether it is the fastest depends on the order of
/// the scan.
pub fn solve_pair(a: usize, b: usize, smaller: &HashMap<u64, Value>) -> (values: HashMap<u64, Value>)
    requires
        a <= 24,
        b <= 24,
        captures_known(a as nat, b as nat, smaller@),
        depths_representable(a as nat, b as nat, smaller@),
    ensures
        forall|k: u64| #[trigger] values@.contains_key(k) <==> in_pair(a as nat, b as nat, Position(k)),
        forall|p: Position| #[trigger]
            in_pair(a as nat, b as nat, p) ==> values@[p.0]@ == score(|q: Position| worth_in(smaller@, q), p),
        forall|m: nat| #[trigger]
            depths_bounded(smaller@, m) ==> depths_bounded(values@, m + pair_states(a as nat, b as nat).len()),
{
    broadcast use group_hash_axioms;

    let mut states: Vec<Position> = all_states(a, b);
    if a != b {
        let mut more: Vec<Position> = all_states(b, a);
        states.append(&mut more);
    }
    let ghost (ga, gb) = (a as nat, b as nat);
    let ghost f = |q: Position| worth_in(smaller@, q);
    let ghost n = states.len() as nat;
    proof {
        lemma_pair_states(ga, gb);
        assert(states@ =~= pair_states(ga, gb));
        assert(depths_bounded(smaller@, (u32::MAX - 1 - n) as nat));
    }
    let ghost m = least_bound(smaller@, (u32::MAX - 1 - n) as nat);
    let mut values: HashMap<u64, Value> = HashMap::new();
    let mut changed: bool = true;
    while changed
        invariant
            ga == a,
            gb == b,
            states@ == pair_states(ga, gb),
            n == states.len(),
            n < u32::MAX,
            m + n < u32::MAX,
            forall|p: Position| #[trigger] states@.contains(p) <==> in_pair(ga, gb, p),
            captures_known(ga, gb, smaller@),
            depths_bounded(smaller@, m),
            sound(ga, gb, smaller@, values@),
            values@.dom().finite(),
            depths_bounded(values@, m + values@.dom().len()),
            forall|k: u64| #[trigger] values@.contains_key(k) ==> values@[k] !is Draw,
            !changed ==> forall|q: Position| #[trigger] in_pair(ga, gb, q) ==> settled(smaller@, values@, q),
        decreases remaining(values@, states@, u32::MAX as nat), (if changed { 1int } else { 0 }),
    {
        broadcast use group_hash_axioms;
        let ghost start = values@;
        changed = false;
        let mut i: usize = 0;
        while i < states.len()
            invariant
                i <= states.len(),
                ga == a,
                gb == b,
                n == states.len(),
                n < u32::MAX,
                m + n < u32::MAX,
                forall|p: Position| #[trigger] states@.contains(p) <==> in_pair(ga, gb, p),
                captures_known(ga, gb, smaller@),
                depths_bounded(smaller@, m),
                sound(ga, gb, smaller@, values@),
                values@.dom().finite(),
                depths_bounded(values@, m + values@.dom().len()),
                forall|k: u64| #[trigger] values@.contains_key(k) ==> values@[k] !is Draw,
                changed ==> remaining(values@, states@, u32::MAX as nat) < remaining(start, states@, u32::MAX as nat),
                !changed ==> values@ == start,
                !changed ==> forall|j: int| 0 <= j < i ==> settled(smaller@, values@, #[trigger] states@[j]),
            decreases states.len() - i,
        {
            broadcast use group_hash_axioms;
            let s: Position = states[i];
            proof {
                assert(states@.contains(s));
                assert forall|k: u64| #[trigger] values@.contains_key(k) implies states@.contains(Position(k)) by {
                    assert(in_pair(ga, gb, Position(k)));
                }
                lemma_dom_len(values@, states@);
                assert(depths_bounded(smaller@, m + values@.dom().len()));
                assert(depths_bounded(smaller@, (u32::MAX - 1) as nat));
                assert(depths_bounded(values@, (u32::MAX - 1) as nat));
                assert(Position(s.0) == s);
            }
            let ghost before = values@;
            let ghost known = known_worth(smaller@, values@, s);
            let new_val: Option<Value> = relax(s, smaller, &values);
            proof {
                assert(minimax(s, known, match new_val {
                    Some(v) => v@,
                    None => Score::Draw,
                }));
            }
            if let Some(nv) = new_val {
                proof {
                    lemma_approximation(ga, gb, smaller@, values@, s, nv@);
                }
                let improved: bool = match values.get(&s.0) {
                    None => true,
                    Some(Value::Win(od)) => match nv {
                        Value::Win(nd) => nd < *od,
                        _ => false,
                    },
                    Some(Value::Loss(od)) => match nv {
                        Value::Loss(nd) => nd < *od,
                        _ => false,
                    },
                    Some(Value::Draw) => false,
                };
                if improved {
                    proof {
                        if before.contains_key(s.0) {
                            assert(before.dom().insert(s.0) =~= before.dom());
                        }
                        assert(before.insert(s.0, nv).dom() =~= before.dom().insert(s.0));
                        if !before.contains_key(s.0) {
                            lemma_dom_len(before.insert(s.0, nv), states@);
                        }
                        lemma_remaining(before, s.0, nv, states@, u32::MAX as nat);
                        assert(states@[i as int].0 == s.0);
                    }
                    values.insert(s.0, nv);
                    changed = true;
                } else {
                    proof {
                        assert(values@ == before);
                        if before.contains_key(s.0) {
                            let truth = score(|q: Position| worth_in(smaller@, q), Position(s.0));
                            assert(approximates(before[s.0]@, truth));
                        }
                        assert(settled(smaller@, values@, s));
                    }
                }
            } else {
                assert(settled(smaller@, values@, s));
            }
            i = i + 1;
        }
        proof {
            if !changed {
                assert forall|q: Position| #[trigger] in_pair(ga, gb, q) implies settled(smaller@, values@, q) by {
                    assert(states@.contains(q));
                    let j = choose|j: int| 0 <= j < states@.len() && states@[j] == q;
                    assert(settled(smaller@, values@, states@[j]));
                }
            }
        }
    }
    let ghost decided = values@;
    proof {
        assert forall|k: u64| #[trigger] values@.contains_key(k) implies states@.contains(Position(k)) by {
            assert(in_pair(ga, gb, Position(k)));
        }
        lemma_dom_len(values@, states@);
        assert(depths_bounded(values@, m + n));
        assert forall|p: Position| #[trigger] in_pair(ga, gb, p) implies worth_in(decided, p) == score(f, p) by {
            if !(score(f, p) is Draw) {
                lemma_complete(ga, gb, smaller@, decided, p, depth(score(f, p)));
            } else if decided.contains_key(p.0) {
                assert(approximates(decided[p.0]@, score(f, Position(p.0))));
            }
        }
    }
    let mut i: usize = 0;
    while i < states.len()
        invariant
            i <= states.len(),
            ga == a,
            gb == b,
            forall|p: Position| #[trigger] states@.contains(p) <==> in_pair(ga, gb, p),
            forall|p: Position| #[trigger] in_pair(ga, gb, p) ==> worth_in(values@, p) == score(f, p),
            forall|k: u64| #[trigger] values@.contains_key(k) ==> in_pair(ga, gb, Position(k)),
            forall|j: int| 0 <= j < i ==> values@.contains_key((#[trigger] states@[j]).0),
            depths_bounded(values@, m + n),
        decreases states.len() - i,
    {
        broadcast use group_hash_axioms;
        let s: Position = states[i];
        proof {
            assert(states@.contains(s));
            assert(Position(s.0) == s);
        }
        if !values.contains_key(&s.0) {
            values.insert(s.0, Value::Draw);
        }
        i = i + 1;
    }
    proof {
        assert forall|p: Position| #[trigger] in_pair(ga, gb, p) implies values@.contains_key(p.0) && values@[p.0]@ == score(f, p) by {
            assert(states@.contains(p));
            let j = choose|j: int| 0 <= j < states@.len() && states@[j] == p;
            assert(values@.contains_key(states@[j].0));
        }
        assert forall|k: u64| #[trigger] values@.contains_key(k) <==> in_pair(ga, gb, Position(k)) by {}
    }
    values
}

/// What the oracle finds is consistent: the value of every position is what the
/// values of its successors make of it, those after a capture taken from
/// `smaller`, and one with fewer than three stones lost.
pub proof fn values_are_self_consistent(
    a: nat,
    b: nat,
    smaller: Map<u64, Value>,
    values: Map<u64, Value>,
    p: Position,
)
    requires
        forall|k: u64| #[trigger] values.contains_key(k) <==> in_pair(a, b, Position(k)),
        forall|q: Position| #[trigger] in_pair(a, b, q) ==> values[q.0]@ == score(|t: Position| worth_in(smaller, t), q),
        in_pair(a, b, p),
    ensures
        minimax(
            p,
            |s: Position|
                if count(s.w()) < 3 {
                    Score::Loss(0)
                } else if total(s) < total(p) {
                    worth_in(smaller, s)
                } else {
                    values[s.0]@
                },
            values[p.0]@,
        ),
{
    let f = |t: Position| worth_in(smaller, t);
    let one = |s: Position| reply(f, |q: Position| score(f, q), p, s);
    let two = |s: Position|
        if count(s.w()) < 3 {
            Score::Loss(0)
        } else if total(s) < total(p) {
            worth_in(smaller, s)
        } else {
            values[s.0]@
        };
    scores_are_consistent(a, b, f, p);
    assert forall|s: Position| #[trigger] succs(p).contains(s) implies one(s) == two(s) by {
        lemma_pair_closed(a, b, p, s);
    }
    lemma_minimax_agrees(p, one, two, values[p.0]@);
}

/// Every number of the list is less than the next.
pub open spec fn goes_up(c: Seq<usize>) -> bool {
    forall|i: int, j: int| 0 <= i < j < c.len() ==> c[i] < c[j]
}

/// The first list comes before the second in the order of a dictionary.
pub open spec fn comes_before(c: Seq<usize>, d: Seq<usize>) -> bool {
    exists|i: int|
        {
            &&& 0 <= i < c.len()
            &&& i < d.len()
            &&& #[trigger] c[i] < d[i]
            &&& forall|j: int| 0 <= j < i ==> c[j] == d[j]
        }
}

/// The combinations of a list that goes up are its sublists of the given length: every
/// list that goes up and takes that many numbers of it, and no other.
pub proof fn combinations_are_the_sublists(u: Seq<usize>, k: nat, c: Seq<usize>)
    requires
        goes_up(u),
    ensures
        combos(u, k).contains(c) <==> {
            &&& c.len() == k
            &&& goes_up(c)
            &&& forall|i: int| 0 <= i < c.len() ==> u.contains(#[trigger] c[i])
        },
    decreases u.len(),
{
    let l = combos(u, k);
    if k == 0 {
        assert(l[0] == Seq::<usize>::empty());
        if c.len() == 0 {
            assert(c =~= Seq::<usize>::empty());
            assert(l.contains(l[0]));
        }
    } else if u.len() < k {
        if c.len() == k && goes_up(c) && forall|i: int| 0 <= i < c.len() ==> u.contains(#[trigger] c[i]) {
            lemma_fits(c, u);
        }
    } else {
        let rest = u.drop_first();
        let f = |c: Seq<usize>| seq![u[0]] + c;
        let one = combos(rest, (k - 1) as nat);
        let two = combos(rest, k);
        assert forall|i: int, j: int| 0 <= i < j < rest.len() implies rest[i] < rest[j] by {
            assert(rest[i] == u[i + 1] && rest[j] == u[j + 1]);
        }
        assert forall|x: usize| u.contains(x) <==> x == u[0] || #[trigger] rest.contains(x) by {
            if rest.contains(x) {
                let i = rest.index_of(x);
                assert(u[i + 1] == x);
            }
            if u.contains(x) && x != u[0] {
                let i = u.index_of(x);
                assert(rest[i - 1] == x);
            }
        }
        assert forall|x: usize| #[trigger] rest.contains(x) implies u[0] < x by {
            let i = rest.index_of(x);
            assert(u[i + 1] == x);
        }
        lemma_concat_contains(one.map_values(f), two, c);
        combinations_are_the_sublists(rest, k, c);
        if c.len() > 0 {
            let d = c.drop_first();
            combinations_are_the_sublists(rest, (k - 1) as nat, d);
            assert(forall|i: int| 0 <= i < d.len() ==> #[trigger] d[i] == c[i + 1]);
        }
        if one.map_values(f).contains(c) {
            let i = one.map_values(f).index_of(c);
            let d = one[i];
            assert(one.contains(d));
            combinations_are_the_sublists(rest, (k - 1) as nat, d);
            assert(c == seq![u[0]] + d);
            assert forall|i: int, j: int| 0 <= i < j < c.len() implies c[i] < c[j] by {
                assert(c[j] == d[j - 1]);
                assert(rest.contains(d[j - 1]));
                if i > 0 {
                    assert(c[i] == d[i - 1]);
                }
            }
            assert forall|i: int| 0 <= i < c.len() implies u.contains(#[trigger] c[i]) by {
                if i > 0 {
                    assert(c[i] == d[i - 1]);
                    assert(rest.contains(d[i - 1]));
                } else {
                    assert(u[0] == c[0]);
                }
            }
        }
        if two.contains(c) {
            assert forall|i: int| 0 <= i < c.len() implies u.contains(#[trigger] c[i]) by {
                assert(rest.contains(c[i]));
            }
        }
        if c.len() == k && goes_up(c) && forall|i: int| 0 <= i < c.len() ==> u.contains(#[trigger] c[i]) {
            let d = c.drop_first();
            if c[0] == u[0] {
                assert forall|i: int| 0 <= i < d.len() implies rest.contains(#[trigger] d[i]) by {
                    assert(d[i] == c[i + 1]);
                    assert(u.contains(c[i + 1]));
                    assert(c[0] < c[i + 1]);
                }
                assert(goes_up(d));
                assert(one.contains(d));
                let i = one.index_of(d);
                assert(c =~= seq![u[0]] + d);
                assert(one.map_values(f)[i] == c);
            } else {
                assert forall|i: int| 0 <= i < c.len() implies rest.contains(#[trigger] c[i]) by {
                    assert(u.contains(c[i]) && u.contains(c[0]));
                    assert(rest.contains(c[0]));
                    if i > 0 {
                        assert(c[0] < c[i]);
                    }
                }
                assert(two.contains(c));
            }
        }
    }
}

/// A list that goes up and takes its numbers from another is no longer than it.
proof fn lemma_fits(c: Seq<usize>, u: Seq<usize>)
    requires
        goes_up(c),
        goes_up(u),
        forall|i: int| 0 <= i < c.len() ==> u.contains(#[trigger] c[i]),
    ensures
        c.len() <= u.len(),
    decreases u.len(),
{
    if c.len() > 0 {
        assert(u.contains(c[0]));
        let (d, r) = (c.drop_last(), u.drop_last());
        let n = c.len() - 1;
        assert(u.contains(c[n]));
        let m = u.index_of(c[n]);
        assert forall|i: int| 0 <= i < d.len() implies r.contains(#[trigger] d[i]) by {
            assert(u.contains(c[i]));
            let k = u.index_of(c[i]);
            assert(c[i] < c[n]);
            assert(k < m);
            assert(r[k] == d[i]);
        }
        assert(goes_up(d) && goes_up(r));
        lemma_fits(d, r);
    }
}

/// Combinations come in the order of a dictionary, so none comes twice.
pub proof fn combinations_come_in_order(u: Seq<usize>, k: nat, i: int, j: int)
    requires
        goes_up(u),
        0 <= i < j < combos(u, k).len(),
    ensures
        comes_before(combos(u, k)[i], combos(u, k)[j]),
    decreases u.len(),
{
    let l = combos(u, k);
    if k > 0 && u.len() >= k {
        let rest = u.drop_first();
        let f = |c: Seq<usize>| seq![u[0]] + c;
        let one = combos(rest, (k - 1) as nat);
        let two = combos(rest, k);
        assert forall|x: int, y: int| 0 <= x < y < rest.len() implies rest[x] < rest[y] by {
            assert(rest[x] == u[x + 1] && rest[y] == u[y + 1]);
        }
        let n = one.len() as int;
        assert(one.map_values(f).len() == n);
        if j < n {
            combinations_come_in_order(rest, (k - 1) as nat, i, j);
            let (c, d) = (one[i], one[j]);
            let x = choose|x: int|
                {
                    &&& 0 <= x < c.len()
                    &&& x < d.len()
                    &&& #[trigger] c[x] < d[x]
                    &&& forall|y: int| 0 <= y < x ==> c[y] == d[y]
                };
            assert(l[i] == seq![u[0]] + c && l[j] == seq![u[0]] + d);
            assert(l[i][x + 1] == c[x] && l[j][x + 1] == d[x]);
            assert forall|y: int| 0 <= y < x + 1 implies l[i][y] == l[j][y] by {
                if y > 0 {
                    assert(l[i][y] == c[y - 1] && l[j][y] == d[y - 1]);
                }
            }
            assert(l[i][x + 1] < l[j][x + 1]);
        } else if i >= n {
            combinations_come_in_order(rest, k, i - n, j - n);
            assert(l[i] == two[i - n] && l[j] == two[j - n]);
        } else {
            let d = two[j - n];
            assert(l[j] == d && l[i] == seq![u[0]] + one[i]);
            assert(two.contains(d));
            combinations_are_the_sublists(rest, k, d);
            assert(rest.contains(d[0]));
            let m = rest.index_of(d[0]);
            assert(u[m + 1] == d[0]);
            assert(l[i][0] < l[j][0]);
        }
    }
}

} // verus!
