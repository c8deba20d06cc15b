use vstd::prelude::*;
use crate::cardinal::Cardinal;
use crate::grid::{Grid, step, in_square};
use crate::reach::{
    reach,
    connected,
    shortest,
    lemma_shortest_exists,
    lemma_reach_reverse,
};
use crate::field::{DirectionField, toward, first_toward, expected_entry, lemma_is_shortest};

verus! {

broadcast use {Grid::lemma_free_in_square, Grid::lemma_wf_bounds};

/// The cell reached from `c` by following recorded predecessor directions
/// `k` times; the walk stays put at a cell without an entry.
pub open spec fn follow(f: DirectionField, c: (int, int), k: nat) -> (int, int)
    decreases k,
{
    if k == 0 {
        c
    } else {
        match f.entry(c) {
            Some((_, p)) => follow(f, step(c, p), (k - 1) as nat),
            None => c,
        }
    }
}

/// Every connected cell but the source has a neighbour one step closer, so
/// the recorded predecessor direction leads one step closer.
pub proof fn lemma_first_toward(g: Grid, s: (int, int), c: (int, int))
    requires
        connected(g, s, c),
        c != s,
    ensures
        toward(g, s, c, first_toward(g, s, c)),
        shortest(g, s, c) > 0,
{
    let k0 = choose|k: nat| #[trigger] reach(g, s, c, k);
    lemma_shortest_exists(g, s, c, k0);
    let k = shortest(g, s, c);
    assert(reach(g, s, c, k));
    assert(k > 0);
    let k1 = (k - 1) as nat;
    let dir = if reach(g, s, step(c, Cardinal::U), k1) {
        Cardinal::U
    } else if reach(g, s, step(c, Cardinal::R), k1) {
        Cardinal::R
    } else if reach(g, s, step(c, Cardinal::D), k1) {
        Cardinal::D
    } else {
        Cardinal::L
    };
    let b = step(c, dir);
    assert(reach(g, s, b, k1));
    lemma_shortest_exists(g, s, b, k1);
    let j = shortest(g, s, b);
    if j < k1 {
        assert(reach(g, s, b, j));
        assert(g.free_at(c));
        assert(reach(g, s, c, j + 1));
    }
    assert(toward(g, s, c, dir));
}

/// Path replay: from any cell with an entry, following the recorded
/// directions exactly as many times as its recorded distance ends at the source.
pub proof fn lemma_path_replay(g: Grid, s: (int, int), f: DirectionField, c: (int, int))
    requires
        g.free_at(s),
        f.built_from(g, s),
        f.entry(c) is Some,
    ensures
        follow(f, c, f.entry(c).unwrap().0) == s,
    decreases shortest(g, s, c),
{
    assert(f.entry(c) == expected_entry(g, s, c));
    lemma_first_toward(g, s, c);
    let k = shortest(g, s, c);
    let p = first_toward(g, s, c);
    let b = step(c, p);
    assert(reach(g, s, s, 0));
    lemma_is_shortest(g, s, s, 0);
    let kb = choose|j: nat| #[trigger] reach(g, s, b, j);
    lemma_shortest_exists(g, s, b, kb);
    if k == 1 {
        assert(reach(g, s, b, 0));
        assert(follow(f, b, 0) == s);
    } else {
        assert(f.entry(b) == expected_entry(g, s, b));
        lemma_path_replay(g, s, f, b);
    }
}

/// Distance symmetry: the distance from `a` to `b` equals the distance from
/// `b` to `a`, and each is recorded exactly when the other is.
pub proof fn lemma_distance_symmetry(
    g: Grid,
    a: (int, int),
    b: (int, int),
    fa: DirectionField,
    fb: DirectionField,
)
    requires
        fa.built_from(g, a),
        fb.built_from(g, b),
        fa.entry(b) is Some,
    ensures
        fb.entry(a) is Some,
        fb.entry(a).unwrap().0 == fa.entry(b).unwrap().0,
{
    assert(fa.entry(b) == expected_entry(g, a, b));
    assert(fb.entry(a) == expected_entry(g, b, a));
    let k0 = choose|k: nat| #[trigger] reach(g, a, b, k);
    lemma_shortest_exists(g, a, b, k0);
    let k1 = shortest(g, a, b);
    lemma_reach_reverse(g, a, b, k1);
    lemma_shortest_exists(g, b, a, k1);
    let k2 = shortest(g, b, a);
    lemma_reach_reverse(g, b, a, k2);
    assert(k1 <= k2);
}

/// Determinism: two fields built from the same source over the same grid
/// hold the same entries.
pub proof fn lemma_deterministic(g: Grid, s: (int, int), f1: DirectionField, f2: DirectionField)
    requires
        f1.built_from(g, s),
        f2.built_from(g, s),
    ensures
        f1.source_cell() == f2.source_cell(),
        forall|c: (int, int)| #[trigger] f1.entry(c) == f2.entry(c),
{
    assert forall|c: (int, int)| #[trigger] f1.entry(c) == f2.entry(c) by {
        assert(f1.entry(c) == expected_entry(g, s, c));
        assert(f2.entry(c) == expected_entry(g, s, c));
    }
}

pub open spec fn abs(v: int) -> int {
    if v < 0 {
        -v
    } else {
        v
    }
}

pub open spec fn manhattan(a: (int, int), b: (int, int)) -> int {
    abs(a.0 - b.0) + abs(a.1 - b.1)
}

/// No cell of the grid is obstructed.
pub open spec fn all_free(g: Grid) -> bool {
    forall|c: (int, int)| in_square(g.n(), c) ==> #[trigger] g.free_at(c)
}

proof fn lemma_walk_at_least_manhattan(g: Grid, a: (int, int), c: (int, int), k: nat)
    requires
        reach(g, a, c, k),
    ensures
        k >= manhattan(a, c),
    decreases k,
{
    if k > 0 {
        let k1 = (k - 1) as nat;
        if reach(g, a, step(c, Cardinal::U), k1) {
            lemma_walk_at_least_manhattan(g, a, step(c, Cardinal::U), k1);
        } else if reach(g, a, step(c, Cardinal::R), k1) {
            lemma_walk_at_least_manhattan(g, a, step(c, Cardinal::R), k1);
        } else if reach(g, a, step(c, Cardinal::D), k1) {
            lemma_walk_at_least_manhattan(g, a, step(c, Cardinal::D), k1);
        } else {
            lemma_walk_at_least_manhattan(g, a, step(c, Cardinal::L), k1);
        }
    }
}

proof fn lemma_manhattan_walk(g: Grid, a: (int, int), c: (int, int))
    requires
        all_free(g),
        in_square(g.n(), a),
        in_square(g.n(), c),
    ensures
        reach(g, a, c, manhattan(a, c) as nat),
    decreases manhattan(a, c),
{
    assert(g.free_at(c));
    if c != a {
        let dir = if c.0 < a.0 {
            Cardinal::R
        } else if c.0 > a.0 {
            Cardinal::L
        } else if c.1 < a.1 {
            Cardinal::D
        } else {
            Cardinal::U
        };
        let b = step(c, dir);
        assert(in_square(g.n(), b));
        assert(manhattan(a, b) == manhattan(a, c) - 1);
        lemma_manhattan_walk(g, a, b);
    }
}

/// On a grid without obstructions, every cell but the source is recorded
/// with its Manhattan distance from the source.
pub proof fn lemma_open_grid_manhattan(g: Grid, s: (int, int), f: DirectionField, c: (int, int))
    requires
        g.wf(),
        all_free(g),
        in_square(g.n(), s),
        in_square(g.n(), c),
        c != s,
        f.built_from(g, s),
    ensures
        f.entry(c) is Some,
        f.entry(c).unwrap().0 == manhattan(s, c),
{
    assert(f.entry(c) == expected_entry(g, s, c));
    lemma_manhattan_walk(g, s, c);
    let m = manhattan(s, c) as nat;
    assert forall|j: nat| j < m implies !#[trigger] reach(g, s, c, j) by {
        if reach(g, s, c, j) {
            lemma_walk_at_least_manhattan(g, s, c, j);
        }
    }
    lemma_is_shortest(g, s, c, m);
}

} // verus!
