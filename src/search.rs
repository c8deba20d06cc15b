use vstd::prelude::*;
use crate::cardinal::Cardinal;
use crate::grid::{Grid, step, index_of, in_square, lemma_index_in_range, lemma_index_injective};
use crate::reach::{reach, is_shortest, connected};

verus! {

broadcast use {Grid::lemma_free_in_square, Grid::lemma_wf_bounds};

pub open spec fn cell(q: (usize, usize)) -> (int, int) {
    (q.0 as int, q.1 as int)
}

/// The distance recorded for cell `c` in a row-major table of side `n`.
pub open spec fn dist_at(ds: Seq<Option<usize>>, n: int, c: (int, int)) -> Option<usize> {
    ds[index_of(n, c)]
}

/// The distance recorded for a queued cell.
pub open spec fn qd(ds: Seq<Option<usize>>, n: int, q: (usize, usize)) -> int {
    dist_at(ds, n, cell(q)).unwrap() as int
}

/// A free cell `c` holds a distance of at most `d + 1`.
pub open spec fn near(g: Grid, ds: Seq<Option<usize>>, c: (int, int), d: int) -> bool {
    g.free_at(c) ==> (dist_at(ds, g.n(), c) is Some && dist_at(ds, g.n(), c).unwrap() <= d + 1)
}

/// Every free neighbour of `c` holds a distance of at most `d + 1`.
pub open spec fn settled(g: Grid, ds: Seq<Option<usize>>, c: (int, int), d: int) -> bool {
    &&& near(g, ds, step(c, Cardinal::U), d)
    &&& near(g, ds, step(c, Cardinal::R), d)
    &&& near(g, ds, step(c, Cardinal::D), d)
    &&& near(g, ds, step(c, Cardinal::L), d)
}

/// How many entries among the first `k` hold a distance.
pub open spec fn count_some(ds: Seq<Option<usize>>, k: nat) -> nat
    decreases k,
{
    if k == 0 {
        0
    } else {
        count_some(ds, (k - 1) as nat) + if ds[k - 1] is Some {
            1nat
        } else {
            0nat
        }
    }
}

pub proof fn lemma_count_bound(ds: Seq<Option<usize>>, k: nat)
    ensures
        count_some(ds, k) <= k,
    decreases k,
{
    if k > 0 {
        lemma_count_bound(ds, (k - 1) as nat);
    }
}

pub proof fn lemma_count_update(ds: Seq<Option<usize>>, i: int, v: usize, k: nat)
    requires
        0 <= i < ds.len(),
        k <= ds.len(),
        ds[i] is None,
    ensures
        count_some(ds.update(i, Some(v)), k) == count_some(ds, k) + if i < k {
            1nat
        } else {
            0nat
        },
    decreases k,
{
    if k > 0 {
        lemma_count_update(ds, i, v, (k - 1) as nat);
    }
}

/// The state of the search from `s`: a table of recorded distances, and the
/// queue of every cell ever recorded, in order, of which the first `head`
/// have had their neighbours recorded.
pub open spec fn search_inv(
    g: Grid,
    s: (int, int),
    ds: Seq<Option<usize>>,
    q: Seq<(usize, usize)>,
    head: int,
) -> bool {
    let n = g.n();
    &&& g.wf()
    &&& ds.len() == n * n
    &&& 0 <= head <= q.len()
    &&& count_some(ds, ds.len()) == q.len()
    &&& g.free_at(s)
    &&& dist_at(ds, n, s) == Some(0usize)
    &&& forall|i: int|
        0 <= i < q.len() ==> {
            &&& g.free_at(cell(#[trigger] q[i]))
            &&& dist_at(ds, n, cell(q[i])) is Some
            &&& qd(ds, n, q[i]) <= i
        }
    &&& forall|c: (int, int)|
        in_square(n, c) && (#[trigger] dist_at(ds, n, c)) is Some ==> {
            &&& reach(g, s, c, dist_at(ds, n, c).unwrap() as nat)
            &&& exists|i: int| 0 <= i < q.len() && cell(#[trigger] q[i]) == c
        }
    &&& forall|i: int, j: int|
        0 <= i <= j < q.len() ==> qd(ds, n, #[trigger] q[i]) <= qd(ds, n, #[trigger] q[j])
    &&& head < q.len() ==> forall|i: int|
        0 <= i < q.len() ==> qd(ds, n, #[trigger] q[i]) <= qd(ds, n, q[head]) + 1
    &&& forall|i: int| 0 <= i < head ==> settled(g, ds, cell(#[trigger] q[i]), qd(ds, n, q[i]))
}

/// Recorded distances are never changed.
pub open spec fn write_once(n: int, old_ds: Seq<Option<usize>>, new_ds: Seq<Option<usize>>) -> bool {
    &&& new_ds.len() == old_ds.len()
    &&& forall|c: (int, int)|
        in_square(n, c) && (#[trigger] dist_at(old_ds, n, c)) is Some ==> dist_at(new_ds, n, c)
            == dist_at(old_ds, n, c)
}

proof fn lemma_update_other(n: int, ds: Seq<Option<usize>>, p: (int, int), v: Option<usize>, c: (int, int))
    requires
        ds.len() == n * n,
        in_square(n, p),
        in_square(n, c),
        c != p,
    ensures
        dist_at(ds.update(index_of(n, p), v), n, c) == dist_at(ds, n, c),
{
    lemma_index_in_range(n, p);
    lemma_index_in_range(n, c);
    if index_of(n, c) == index_of(n, p) {
        lemma_index_injective(n, c, p);
    }
}

/// Records `p`, a free neighbour of the cell at the head of the queue that has
/// no distance yet, one step further than that cell, and appends it to the queue.
proof fn lemma_record(
    g: Grid,
    s: (int, int),
    ds: Seq<Option<usize>>,
    q: Seq<(usize, usize)>,
    head: int,
    dir: Cardinal,
    p: (int, int),
)
    requires
        search_inv(g, s, ds, q, head),
        head < q.len(),
        p == step(cell(q[head]), dir),
        g.free_at(p),
        dist_at(ds, g.n(), p) is None,
        qd(ds, g.n(), q[head]) + 1 <= usize::MAX,
    ensures
        ({
            let n = g.n();
            let v = (qd(ds, n, q[head]) + 1) as usize;
            let ds2 = ds.update(index_of(n, p), Some(v));
            let q2 = q.push((p.0 as usize, p.1 as usize));
            &&& search_inv(g, s, ds2, q2, head)
            &&& write_once(n, ds, ds2)
            &&& dist_at(ds2, n, p) == Some(v)
        }),
{
    let n = g.n();
    let d = qd(ds, n, q[head]);
    let v = (d + 1) as usize;
    let ds2 = ds.update(index_of(n, p), Some(v));
    let pq = (p.0 as usize, p.1 as usize);
    let q2 = q.push(pq);
    g.lemma_free_in_square(p);
    lemma_index_in_range(n, p);
    assert(cell(pq) == p);
    assert(dist_at(ds2, n, p) == Some(v));
    lemma_count_update(ds, index_of(n, p), v, ds.len());
    assert forall|c: (int, int)| in_square(n, c) && c != p implies dist_at(ds2, n, c) == dist_at(
        ds,
        n,
        c,
    ) by {
        lemma_update_other(n, ds, p, Some(v), c);
    }
    assert forall|i: int| 0 <= i < q.len() implies cell(#[trigger] q[i]) != p && qd(ds2, n, q2[i])
        == qd(ds, n, q[i]) && q2[i] == q[i] by {
        g.lemma_free_in_square(cell(q[i]));
    }
    // the walk to the head cell, one step further
    let c = cell(q[head]);
    g.lemma_free_in_square(c);
    assert(reach(g, s, c, d as nat));
    match dir {
        Cardinal::U => assert(step(p, Cardinal::D) == c),
        Cardinal::R => assert(step(p, Cardinal::L) == c),
        Cardinal::D => assert(step(p, Cardinal::U) == c),
        Cardinal::L => assert(step(p, Cardinal::R) == c),
    }
    assert(reach(g, s, p, (d + 1) as nat));
    assert forall|i: int|
        0 <= i < q2.len() implies {
        &&& g.free_at(cell(#[trigger] q2[i]))
        &&& dist_at(ds2, n, cell(q2[i])) is Some
        &&& qd(ds2, n, q2[i]) <= i
    } by {
        if i < q.len() {
            g.lemma_free_in_square(cell(q[i]));
        }
    }
    assert forall|c2: (int, int)|
        in_square(n, c2) && (#[trigger] dist_at(ds2, n, c2)) is Some implies {
        &&& reach(g, s, c2, dist_at(ds2, n, c2).unwrap() as nat)
        &&& exists|i: int| 0 <= i < q2.len() && cell(#[trigger] q2[i]) == c2
    } by {
        if c2 == p {
            assert(cell(q2[q.len() as int]) == c2);
        } else {
            assert(dist_at(ds, n, c2) is Some);
            let i = choose|i: int| 0 <= i < q.len() && cell(#[trigger] q[i]) == c2;
            assert(cell(q2[i]) == c2);
        }
    }
    assert forall|i: int, j: int| 0 <= i <= j < q2.len() implies qd(ds2, n, #[trigger] q2[i]) <= qd(
        ds2,
        n,
        #[trigger] q2[j],
    ) by {
        if j < q.len() {
            assert(qd(ds, n, q[i]) <= qd(ds, n, q[j]));
        } else if i < q.len() {
            assert(qd(ds, n, q[i]) <= d + 1);
        }
    }
    assert forall|i: int| 0 <= i < q2.len() implies qd(ds2, n, #[trigger] q2[i]) <= qd(
        ds2,
        n,
        q2[head],
    ) + 1 by {
        if i < q.len() {
            assert(qd(ds, n, q[i]) <= d + 1);
        }
    }
    assert forall|i: int| 0 <= i < head implies settled(g, ds2, cell(#[trigger] q2[i]), qd(ds2, n, q2[i])) by {
        let ci = cell(q[i]);
        assert(settled(g, ds, ci, qd(ds, n, q[i])));
        assert(q2[i] == q[i]);
    }
    assert(s != p);
    assert(dist_at(ds2, n, s) == Some(0usize));
    assert(count_some(ds2, ds2.len()) == q2.len());
    assert(search_inv(g, s, ds2, q2, head));
    assert(write_once(n, ds, ds2));
}

/// A recorded cell holds at most one more than the cell at the head of the queue.
proof fn lemma_recorded_bound(
    g: Grid,
    s: (int, int),
    ds: Seq<Option<usize>>,
    q: Seq<(usize, usize)>,
    head: int,
    c: (int, int),
)
    requires
        search_inv(g, s, ds, q, head),
        head < q.len(),
        in_square(g.n(), c),
        dist_at(ds, g.n(), c) is Some,
    ensures
        dist_at(ds, g.n(), c).unwrap() <= qd(ds, g.n(), q[head]) + 1,
{
    let i = choose|i: int| 0 <= i < q.len() && cell(#[trigger] q[i]) == c;
    assert(qd(ds, g.n(), q[i]) <= qd(ds, g.n(), q[head]) + 1);
}

/// Looks at the neighbour in direction `dir` of the cell at the head of the
/// queue; if it is free and has no distance yet, records it one step further
/// and appends it to the queue.
fn visit(
    grid: &Grid,
    s: Ghost<(int, int)>,
    dist: &mut Vec<Option<usize>>,
    queue: &mut Vec<(usize, usize)>,
    head: usize,
    dir: Cardinal,
)
    requires
        search_inv(*grid, s@, old(dist)@, old(queue)@, head as int),
        head < old(queue)@.len(),
    ensures
        search_inv(*grid, s@, final(dist)@, final(queue)@, head as int),
        write_once(grid.n(), old(dist)@, final(dist)@),
        final(queue)@.len() >= old(queue)@.len(),
        forall|i: int| 0 <= i < old(queue)@.len() ==> final(queue)@[i] == old(queue)@[i],
        near(
            *grid,
            final(dist)@,
            step(cell(old(queue)@[head as int]), dir),
            qd(old(dist)@, grid.n(), old(queue)@[head as int]),
        ),
{
    let ghost g = *grid;
    let ghost n = grid.n();
    let (cx, cy) = queue[head];
    let size = grid.size();
    let ql = queue.len();
    let dl = dist.len();
    let ghost c = cell(queue@[head as int]);
    proof {
        assert(g.free_at(c));
        lemma_index_in_range(n, c);
        assert(cy * size + cx < dl);
    }
    let od = dist[cy * size + cx];
    let d: usize = match od {
        Some(v) => v,
        None => {
            return;
        },
    };
    let (inside, nx, ny) = match dir {
        Cardinal::U => if cy > 0 {
            (true, cx, cy - 1)
        } else {
            (false, 0, 0)
        },
        Cardinal::R => if cx + 1 < size {
            (true, cx + 1, cy)
        } else {
            (false, 0, 0)
        },
        Cardinal::D => if cy + 1 < size {
            (true, cx, cy + 1)
        } else {
            (false, 0, 0)
        },
        Cardinal::L => if cx > 0 {
            (true, cx - 1, cy)
        } else {
            (false, 0, 0)
        },
    };
    let ghost p = step(c, dir);
    if !inside {
        assert(!in_square(n, p));
        return;
    }
    assert(p == (nx as int, ny as int));
    if !grid.is_free_at(nx, ny) {
        return;
    }
    proof {
        lemma_index_in_range(n, p);
        assert(ny * size + nx < dl);
    }
    let idx = ny * size + nx;
    if dist[idx].is_some() {
        proof {
            lemma_recorded_bound(g, s@, dist@, queue@, head as int, p);
        }
        return;
    }
    proof {
        lemma_record(g, s@, dist@, queue@, head as int, dir, p);
    }
    dist.set(idx, Some(d + 1));
    queue.push((nx, ny));
}

/// Takes the cell at position `head` of the queue and records each of its
/// free neighbours that has no distance yet, one step further than it,
/// appending them to the queue. The queue only grows; the cells before `head`
/// have been taken. Distances already recorded never change.
pub fn traverse(
    grid: &Grid,
    s: Ghost<(int, int)>,
    dist: &mut Vec<Option<usize>>,
    queue: &mut Vec<(usize, usize)>,
    head: usize,
)
    requires
        search_inv(*grid, s@, old(dist)@, old(queue)@, head as int),
        head < old(queue)@.len(),
    ensures
        search_inv(*grid, s@, final(dist)@, final(queue)@, head + 1),
        write_once(grid.n(), old(dist)@, final(dist)@),
        final(queue)@.len() >= old(queue)@.len(),
        forall|i: int| 0 <= i < old(queue)@.len() ==> final(queue)@[i] == old(queue)@[i],
{
    let ghost g = *grid;
    let ghost n = grid.n();
    let ghost ds0 = dist@;
    let ghost q0 = queue@;
    let ghost c = cell(q0[head as int]);
    let ghost d = qd(ds0, n, q0[head as int]);
    visit(grid, s, dist, queue, head, Cardinal::U);
    let ghost ds1 = dist@;
    visit(grid, s, dist, queue, head, Cardinal::R);
    let ghost ds2 = dist@;
    visit(grid, s, dist, queue, head, Cardinal::D);
    let ghost ds3 = dist@;
    visit(grid, s, dist, queue, head, Cardinal::L);
    proof {
        let ds4 = dist@;
        let q4 = queue@;
        assert(g.free_at(c));
        assert(q4[head as int] == q0[head as int]);
        assert(dist_at(ds4, n, c) == dist_at(ds0, n, c));
        assert(near(g, ds4, step(c, Cardinal::U), d));
        assert(near(g, ds4, step(c, Cardinal::R), d));
        assert(near(g, ds4, step(c, Cardinal::D), d));
        assert(settled(g, ds4, c, d));
        assert(write_once(n, ds0, ds4));
        if head + 1 < q4.len() {
            assert(qd(ds4, n, q4[head as int]) <= qd(ds4, n, q4[head + 1]));
        }
    }
}

/// The table holds, for each cell, its shortest distance from `s` where the
/// two are connected, and nothing where they are not.
pub open spec fn exact(g: Grid, s: (int, int), ds: Seq<Option<usize>>) -> bool {
    &&& ds.len() == g.n() * g.n()
    &&& forall|c: (int, int)|
        in_square(g.n(), c) ==> match #[trigger] dist_at(ds, g.n(), c) {
            Some(d) => is_shortest(g, s, c, d as nat),
            None => !connected(g, s, c),
        }
}

/// Once every queued cell has been taken, each walk of `k` steps from `s`
/// ends in a cell whose recorded distance is at most `k`.
proof fn lemma_complete(
    g: Grid,
    s: (int, int),
    ds: Seq<Option<usize>>,
    q: Seq<(usize, usize)>,
    c: (int, int),
    k: nat,
)
    requires
        search_inv(g, s, ds, q, q.len() as int),
        reach(g, s, c, k),
    ensures
        dist_at(ds, g.n(), c) is Some,
        dist_at(ds, g.n(), c).unwrap() <= k,
    decreases k,
{
    let n = g.n();
    if k > 0 {
        let k1 = (k - 1) as nat;
        let dir = if reach(g, s, step(c, Cardinal::U), k1) {
            Cardinal::U
        } else if reach(g, s, step(c, Cardinal::R), k1) {
            Cardinal::R
        } else if reach(g, s, step(c, Cardinal::D), k1) {
            Cardinal::D
        } else {
            Cardinal::L
        };
        let b = step(c, dir);
        assert(reach(g, s, b, k1));
        lemma_complete(g, s, ds, q, b, k1);
        assert(g.free_at(b));
        let i = choose|i: int| 0 <= i < q.len() && cell(#[trigger] q[i]) == b;
        assert(settled(g, ds, cell(q[i]), qd(ds, n, q[i])));
        assert(step(b, dir.spec_inverse()) == c);
        assert(g.free_at(c));
    }
}

proof fn lemma_count_none(ds: Seq<Option<usize>>, k: nat)
    requires
        k <= ds.len(),
        forall|j: int| 0 <= j < k ==> ds[j] is None,
    ensures
        count_some(ds, k) == 0,
    decreases k,
{
    if k > 0 {
        lemma_count_none(ds, (k - 1) as nat);
    }
}

/// Breadth-first search from the free cell `(sx, sy)`: the distance table of
/// the grid, row by row, with `Some(0)` at the source.
pub fn shortest_distances(grid: &Grid, sx: usize, sy: usize) -> (ds: Vec<Option<usize>>)
    requires
        grid.wf(),
        grid.free_at((sx as int, sy as int)),
    ensures
        exact(*grid, (sx as int, sy as int), ds@),
{
    let ghost g = *grid;
    let ghost n = grid.n();
    let ghost s = (sx as int, sy as int);
    let size = grid.size();
    let total = size * size;
    let mut dist: Vec<Option<usize>> = Vec::new();
    let mut k: usize = 0;
    while k < total
        invariant
            total == n * n,
            k <= total,
            dist@.len() == k,
            forall|j: int| 0 <= j < k ==> dist@[j] is None,
        decreases total - k,
    {
        dist.push(None);
        k = k + 1;
    }
    proof {
        lemma_index_in_range(n, s);
        lemma_count_none(dist@, dist@.len());
        lemma_count_update(dist@, index_of(n, s), 0, dist@.len());
    }
    let ghost ds0 = dist@;
    dist.set(sy * size + sx, Some(0));
    let mut queue: Vec<(usize, usize)> = Vec::new();
    queue.push((sx, sy));
    proof {
        assert(cell(queue@[0]) == s);
        assert forall|c: (int, int)|
            in_square(n, c) && (#[trigger] dist_at(dist@, n, c)) is Some implies {
            &&& reach(g, s, c, dist_at(dist@, n, c).unwrap() as nat)
            &&& exists|i: int| 0 <= i < queue@.len() && cell(#[trigger] queue@[i]) == c
        } by {
            lemma_index_in_range(n, c);
            if c != s {
                lemma_update_other(n, ds0, s, Some(0usize), c);
            }
            assert(cell(queue@[0]) == c);
        }
        assert(search_inv(g, s, dist@, queue@, 0));
    }
    let mut head: usize = 0;
    while head < queue.len()
        invariant
            search_inv(g, s, dist@, queue@, head as int),
            g == *grid,
            n == g.n(),
        decreases n * n - head,
    {
        proof {
            lemma_count_bound(dist@, dist@.len());
        }
        traverse(grid, Ghost(s), &mut dist, &mut queue, head);
        proof {
            lemma_count_bound(dist@, dist@.len());
            assert(head + 1 <= n * n);
        }
        head = head + 1;
    }
    proof {
        assert forall|c: (int, int)| in_square(n, c) implies match #[trigger] dist_at(dist@, n, c) {
            Some(d) => is_shortest(g, s, c, d as nat),
            None => !connected(g, s, c),
        } by {
            if dist_at(dist@, n, c) is Some {
                let d = dist_at(dist@, n, c).unwrap();
                assert forall|j: nat| j < d implies !#[trigger] reach(g, s, c, j) by {
                    if reach(g, s, c, j) {
                        lemma_complete(g, s, dist@, queue@, c, j);
                    }
                }
            } else {
                if connected(g, s, c) {
                    let j = choose|j: nat| #[trigger] reach(g, s, c, j);
                    lemma_complete(g, s, dist@, queue@, c, j);
                }
            }
        }
    }
    dist
}

} // verus!
