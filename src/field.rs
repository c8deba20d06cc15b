use vstd::prelude::*;
use crate::cardinal::Cardinal;
use crate::grid::{Grid, GridError, step, index_of, in_square, lemma_index_in_range, lemma_index_injective};
use crate::reach::{reach, is_shortest, connected, shortest, lemma_shortest_exists, lemma_shortest_unique};
use crate::search::{dist_at, exact, shortest_distances};

verus! {

broadcast use {Grid::lemma_free_in_square, Grid::lemma_wf_bounds};

/// Moving from `c` one step in direction `d` brings it one step closer to `s`.
pub open spec fn toward(g: Grid, s: (int, int), c: (int, int), d: Cardinal) -> bool {
    connected(g, s, step(c, d)) && shortest(g, s, step(c, d)) + 1 == shortest(g, s, c)
}

/// The predecessor direction recorded for `c`: the first of up, right, down,
/// left that leads one step closer to `s`.
pub open spec fn first_toward(g: Grid, s: (int, int), c: (int, int)) -> Cardinal {
    if toward(g, s, c, Cardinal::U) {
        Cardinal::U
    } else if toward(g, s, c, Cardinal::R) {
        Cardinal::R
    } else if toward(g, s, c, Cardinal::D) {
        Cardinal::D
    } else {
        Cardinal::L
    }
}

/// What the direction field from `s` holds for cell `c`: nothing for the
/// source itself and for cells that cannot be reached, else the shortest
/// distance and the predecessor direction.
pub open spec fn expected_entry(g: Grid, s: (int, int), c: (int, int)) -> Option<(nat, Cardinal)> {
    if c != s && connected(g, s, c) {
        Some((shortest(g, s, c), first_toward(g, s, c)))
    } else {
        None
    }
}

pub open spec fn widen(e: Option<(usize, Cardinal)>) -> Option<(nat, Cardinal)> {
    match e {
        Some((d, p)) => Some((d as nat, p)),
        None => None,
    }
}

/// For one source cell, the distance and predecessor direction of every other
/// cell that can be reached from it, stored row by row.
pub struct DirectionField {
    size: usize,
    source: (i32, i32),
    entries: Vec<Option<(usize, Cardinal)>>,
}

impl DirectionField {
    pub closed spec fn wf(&self) -> bool {
        &&& self.size <= i32::MAX
        &&& self.entries@.len() == self.size * self.size
    }

    /// The side length of the grid the field was built over.
    pub closed spec fn n(&self) -> int {
        self.size as int
    }

    pub closed spec fn source_cell(&self) -> (int, int) {
        (self.source.0 as int, self.source.1 as int)
    }

    /// The entry for cell `c`; cells outside the grid have none.
    pub closed spec fn entry(&self, c: (int, int)) -> Option<(nat, Cardinal)> {
        if in_square(self.size as int, c) {
            widen(self.entries@[index_of(self.size as int, c)])
        } else {
            None
        }
    }

    /// The field is the direction field of grid `g` from source `s`.
    pub open spec fn built_from(&self, g: Grid, s: (int, int)) -> bool {
        &&& self.wf()
        &&& self.n() == g.n()
        &&& self.source_cell() == s
        &&& forall|c: (int, int)| #[trigger] self.entry(c) == expected_entry(g, s, c)
    }

    /// The source cell the field leads back to.
    pub fn source(&self) -> (r: (i32, i32))
        ensures
            (r.0 as int, r.1 as int) == self.source_cell(),
    {
        self.source
    }

    /// The side length of the grid the field was built over.
    pub fn size(&self) -> (r: usize)
        ensures
            r as int == self.n(),
    {
        self.size
    }

    /// The distance and predecessor direction recorded for `coord`, if any.
    pub fn get(&self, coord: (i32, i32)) -> (r: Option<(usize, Cardinal)>)
        requires
            self.wf(),
        ensures
            widen(r) == self.entry((coord.0 as int, coord.1 as int)),
    {
        if coord.0 < 0 || coord.1 < 0 || coord.0 as usize >= self.size || coord.1 as usize
            >= self.size {
            return None;
        }
        let x = coord.0 as usize;
        let y = coord.1 as usize;
        let total = self.entries.len();
        proof {
            lemma_index_in_range(self.n(), (x as int, y as int));
            assert(y * self.size + x < total);
        }
        self.entries[y * self.size + x]
    }

    /// The distance recorded for `coord`, if any.
    pub fn distance(&self, coord: (i32, i32)) -> (r: Option<usize>)
        requires
            self.wf(),
        ensures
            match self.entry((coord.0 as int, coord.1 as int)) {
                Some((d, _)) => r == Some(d as usize),
                None => r is None,
            },
    {
        match self.get(coord) {
            Some((d, _)) => Some(d),
            None => None,
        }
    }
}

/// A shortest walk of `k` steps means `c` is connected and `k` is its distance.
pub proof fn lemma_is_shortest(g: Grid, s: (int, int), c: (int, int), k: nat)
    requires
        is_shortest(g, s, c, k),
    ensures
        connected(g, s, c),
        shortest(g, s, c) == k,
{
    lemma_shortest_exists(g, s, c, k);
    lemma_shortest_unique(g, s, c, k, shortest(g, s, c));
}

/// Whether the neighbour of `(x, y)` in direction `dir` lies in the grid and
/// holds distance `want` in the table `ds`.
fn leads_to(ds: &Vec<Option<usize>>, size: usize, x: usize, y: usize, dir: Cardinal, want: usize) -> (r: bool)
    requires
        ds@.len() == size * size,
        x < size,
        y < size,
    ensures
        r == (in_square(size as int, step((x as int, y as int), dir)) && dist_at(
            ds@,
            size as int,
            step((x as int, y as int), dir),
        ) == Some(want)),
{
    let (inside, nx, ny) = match dir {
        Cardinal::U => if y > 0 {
            (true, x, y - 1)
        } else {
            (false, 0, 0)
        },
        Cardinal::R => if x + 1 < size {
            (true, x + 1, y)
        } else {
            (false, 0, 0)
        },
        Cardinal::D => if y + 1 < size {
            (true, x, y + 1)
        } else {
            (false, 0, 0)
        },
        Cardinal::L => if x > 0 {
            (true, x - 1, y)
        } else {
            (false, 0, 0)
        },
    };
    if !inside {
        return false;
    }
    let total = ds.len();
    proof {
        lemma_index_in_range(size as int, (nx as int, ny as int));
        assert(ny * size + nx < total);
    }
    match ds[ny * size + nx] {
        Some(v) => v == want,
        None => false,
    }
}

/// In an exact table, a neighbour holding one less than `c` is exactly a
/// neighbour one step closer to the source.
proof fn lemma_leads_to_toward(g: Grid, s: (int, int), ds: Seq<Option<usize>>, c: (int, int), d: usize, dir: Cardinal)
    requires
        g.wf(),
        exact(g, s, ds),
        in_square(g.n(), c),
        dist_at(ds, g.n(), c) == Some(d),
        d > 0,
    ensures
        (in_square(g.n(), step(c, dir)) && dist_at(ds, g.n(), step(c, dir)) == Some((d - 1) as usize))
            <==> toward(g, s, c, dir),
{
    let n = g.n();
    let b = step(c, dir);
    lemma_is_shortest(g, s, c, d as nat);
    if in_square(n, b) && dist_at(ds, n, b) == Some((d - 1) as usize) {
        lemma_is_shortest(g, s, b, (d - 1) as nat);
    }
    if toward(g, s, c, dir) {
        let k = choose|k: nat| #[trigger] reach(g, s, b, k);
        assert(reach(g, s, b, k));
        lemma_shortest_exists(g, s, b, k);
        assert(g.free_at(b));
        match dist_at(ds, n, b) {
            Some(e) => {
                lemma_is_shortest(g, s, b, e as nat);
            },
            None => {},
        }
    }
}

/// Turns an exact distance table into the direction field: each cell but the
/// source gets its distance and its first predecessor direction.
fn assign_predecessors(grid: &Grid, source: (i32, i32), ds: &Vec<Option<usize>>) -> (f: DirectionField)
    requires
        grid.wf(),
        grid.free_at((source.0 as int, source.1 as int)),
        exact(*grid, (source.0 as int, source.1 as int), ds@),
    ensures
        f.built_from(*grid, (source.0 as int, source.1 as int)),
{
    let ghost g = *grid;
    let ghost s = (source.0 as int, source.1 as int);
    let size = grid.size();
    let ghost n = size as int;
    let total = size * size;
    let mut entries: Vec<Option<(usize, Cardinal)>> = Vec::new();
    let mut idx: usize = 0;
    let mut x: usize = 0;
    let mut y: usize = 0;
    while idx < total
        invariant
            g == *grid,
            g.wf(),
            n == g.n(),
            size == n,
            total == n * n,
            ds@.len() == total,
            exact(g, s, ds@),
            x < size,
            idx == y * n + x,
            idx <= total,
            idx < total ==> y < size,
            entries@.len() == idx,
            forall|c: (int, int)|
                in_square(n, c) && index_of(n, c) < idx ==> widen(entries@[index_of(n, c)])
                    == #[trigger] expected_entry(g, s, c),
        decreases total - idx,
    {
        let ghost c = (x as int, y as int);
        proof {
            lemma_index_in_range(n, c);
            assert(dist_at(ds@, n, c) == ds@[idx as int]);
            assert(match dist_at(ds@, g.n(), c) {
                Some(d) => is_shortest(g, s, c, d as nat),
                None => !connected(g, s, c),
            });
        }
        let e: Option<(usize, Cardinal)> = match ds[idx] {
            Some(d) => {
                if d == 0 {
                    proof {
                        assert(reach(g, s, c, 0));
                    }
                    None
                } else {
                    proof {
                        lemma_is_shortest(g, s, c, d as nat);
                        if c == s {
                            assert(reach(g, s, s, 0));
                        }
                        lemma_leads_to_toward(g, s, ds@, c, d, Cardinal::U);
                        lemma_leads_to_toward(g, s, ds@, c, d, Cardinal::R);
                        lemma_leads_to_toward(g, s, ds@, c, d, Cardinal::D);
                    }
                    let p = if leads_to(ds, size, x, y, Cardinal::U, d - 1) {
                        Cardinal::U
                    } else if leads_to(ds, size, x, y, Cardinal::R, d - 1) {
                        Cardinal::R
                    } else if leads_to(ds, size, x, y, Cardinal::D, d - 1) {
                        Cardinal::D
                    } else {
                        Cardinal::L
                    };
                    Some((d, p))
                }
            },
            None => None,
        };
        proof {
            assert(widen(e) == expected_entry(g, s, c));
        }
        entries.push(e);
        proof {
            assert forall|c2: (int, int)|
                in_square(n, c2) && index_of(n, c2) < idx + 1 implies widen(
                entries@[index_of(n, c2)],
            ) == #[trigger] expected_entry(g, s, c2) by {
                if index_of(n, c2) == idx {
                    lemma_index_injective(n, c2, c);
                }
            }
        }
        idx = idx + 1;
        if x + 1 < size {
            x = x + 1;
        } else {
            proof {
                assert((y + 1) * n == y * n + n) by (nonlinear_arith);
                if idx < total {
                    assert(y + 1 < n) by (nonlinear_arith)
                        requires
                            idx == (y + 1) * n,
                            idx < n * n,
                            n > 0,
                    ;
                }
            }
            x = 0;
            y = y + 1;
        }
    }
    let f = DirectionField { size, source, entries };
    proof {
        assert forall|c: (int, int)| #[trigger] f.entry(c) == expected_entry(g, s, c) by {
            if in_square(n, c) {
                lemma_index_in_range(n, c);
            } else {
                if connected(g, s, c) {
                    let k = choose|k: nat| #[trigger] reach(g, s, c, k);
                    assert(reach(g, s, c, k));
                }
            }
        }
    }
    f
}

/// The direction field of `grid` from `source`: for every other cell that can
/// be reached, its shortest 4-connected distance and the direction of a
/// neighbour one step closer, the first such of up, right, down, left.
/// A source outside the grid, or an obstructed one, is refused.
pub fn get_distances(source: (i32, i32), grid: &Grid) -> (r: Result<DirectionField, GridError>)
    requires
        grid.wf(),
    ensures
        r is Err <==> !grid.free_at((source.0 as int, source.1 as int)),
        r matches Err(e) ==> e == if in_square(grid.n(), (source.0 as int, source.1 as int)) {
            GridError::ObstructedSource
        } else {
            GridError::OutOfBounds
        },
        r matches Ok(f) ==> f.built_from(*grid, (source.0 as int, source.1 as int)),
{
    if !grid.in_bounds(source) {
        return Err(GridError::OutOfBounds);
    }
    if !grid.is_free(source) {
        return Err(GridError::ObstructedSource);
    }
    let ds = shortest_distances(grid, source.0 as usize, source.1 as usize);
    Ok(assign_predecessors(grid, source, &ds))
}

} // verus!
