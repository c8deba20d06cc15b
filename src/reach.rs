use vstd::prelude::*;
use crate::cardinal::Cardinal;
use crate::grid::{Grid, step};

verus! {

/// There is a walk of exactly `k` steps over free cells from `s` to `c`,
/// each step to one of the four neighbours.
pub open spec fn reach(g: Grid, s: (int, int), c: (int, int), k: nat) -> bool
    decreases k,
{
    g.free_at(c) && if k == 0 {
        c == s
    } else {
        ||| reach(g, s, step(c, Cardinal::U), (k - 1) as nat)
        ||| reach(g, s, step(c, Cardinal::R), (k - 1) as nat)
        ||| reach(g, s, step(c, Cardinal::D), (k - 1) as nat)
        ||| reach(g, s, step(c, Cardinal::L), (k - 1) as nat)
    }
}

/// `k` is the length of a shortest walk from `s` to `c`.
pub open spec fn is_shortest(g: Grid, s: (int, int), c: (int, int), k: nat) -> bool {
    reach(g, s, c, k) && forall|j: nat| j < k ==> !#[trigger] reach(g, s, c, j)
}

/// `c` lies in the same 4-connected region of free cells as `s`.
pub open spec fn connected(g: Grid, s: (int, int), c: (int, int)) -> bool {
    exists|k: nat| #[trigger] reach(g, s, c, k)
}

/// The shortest-path distance from `s` to `c`, where they are connected.
pub open spec fn shortest(g: Grid, s: (int, int), c: (int, int)) -> nat {
    choose|k: nat| is_shortest(g, s, c, k)
}

pub proof fn lemma_shortest_unique(g: Grid, s: (int, int), c: (int, int), a: nat, b: nat)
    requires
        is_shortest(g, s, c, a),
        is_shortest(g, s, c, b),
    ensures
        a == b,
{
    if a < b {
        assert(!reach(g, s, c, a));
    } else if b < a {
        assert(!reach(g, s, c, b));
    }
}

/// A walk of `k` steps bounds the shortest distance, which then exists.
pub proof fn lemma_shortest_exists(g: Grid, s: (int, int), c: (int, int), k: nat)
    requires
        reach(g, s, c, k),
    ensures
        is_shortest(g, s, c, shortest(g, s, c)),
        shortest(g, s, c) <= k,
    decreases k,
{
    if exists|j: nat| j < k && #[trigger] reach(g, s, c, j) {
        let j = choose|j: nat| j < k && #[trigger] reach(g, s, c, j);
        lemma_shortest_exists(g, s, c, j);
    } else {
        assert(is_shortest(g, s, c, k));
        lemma_shortest_unique(g, s, c, k, shortest(g, s, c));
    }
}

/// A walk from `s` to `c` extends backwards by one step to a free neighbour of `s`.
pub proof fn lemma_prepend(g: Grid, s: (int, int), s2: (int, int), d: Cardinal, c: (int, int), k: nat)
    requires
        reach(g, s, c, k),
        g.free_at(s2),
        s == step(s2, d),
    ensures
        reach(g, s2, c, k + 1),
    decreases k,
{
    if k == 0 {
        assert(s2 == step(s, d.spec_inverse()));
        assert(reach(g, s2, s2, 0));
        match d {
            Cardinal::U => assert(reach(g, s2, step(s, Cardinal::D), 0)),
            Cardinal::R => assert(reach(g, s2, step(s, Cardinal::L), 0)),
            Cardinal::D => assert(reach(g, s2, step(s, Cardinal::U), 0)),
            Cardinal::L => assert(reach(g, s2, step(s, Cardinal::R), 0)),
        }
    } else {
        let k1 = (k - 1) as nat;
        if reach(g, s, step(c, Cardinal::U), k1) {
            lemma_prepend(g, s, s2, d, step(c, Cardinal::U), k1);
        } else if reach(g, s, step(c, Cardinal::R), k1) {
            lemma_prepend(g, s, s2, d, step(c, Cardinal::R), k1);
        } else if reach(g, s, step(c, Cardinal::D), k1) {
            lemma_prepend(g, s, s2, d, step(c, Cardinal::D), k1);
        } else {
            lemma_prepend(g, s, s2, d, step(c, Cardinal::L), k1);
        }
    }
}

/// Walks run both ways: a walk of `k` steps from `a` to `b` gives one from `b` to `a`.
pub proof fn lemma_reach_reverse(g: Grid, a: (int, int), b: (int, int), k: nat)
    requires
        reach(g, a, b, k),
    ensures
        reach(g, b, a, k),
    decreases k,
{
    if k > 0 {
        let k1 = (k - 1) as nat;
        if reach(g, a, step(b, Cardinal::U), k1) {
            lemma_reach_reverse(g, a, step(b, Cardinal::U), k1);
            lemma_prepend(g, step(b, Cardinal::U), b, Cardinal::U, a, k1);
        } else if reach(g, a, step(b, Cardinal::R), k1) {
            lemma_reach_reverse(g, a, step(b, Cardinal::R), k1);
            lemma_prepend(g, step(b, Cardinal::R), b, Cardinal::R, a, k1);
        } else if reach(g, a, step(b, Cardinal::D), k1) {
            lemma_reach_reverse(g, a, step(b, Cardinal::D), k1);
            lemma_prepend(g, step(b, Cardinal::D), b, Cardinal::D, a, k1);
        } else {
            lemma_reach_reverse(g, a, step(b, Cardinal::L), k1);
            lemma_prepend(g, step(b, Cardinal::L), b, Cardinal::L, a, k1);
        }
    }
}

} // verus!
