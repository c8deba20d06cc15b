use vstd::prelude::*;
use rand::rngs::StdRng;
use rand::Rng;
use crate::cardinal::Cardinal;

verus! {

/// Why a grid could not be built or queried.
#[derive(Debug, Clone, Copy, PartialEq, Eq, Structural)]
pub enum GridError {
    /// The side length is not positive, or the grid is too large to hold.
    InvalidDimension,
    /// A coordinate lies outside the grid.
    OutOfBounds,
    /// A direction field was asked for from an obstructed cell.
    ObstructedSource,
}

/// A square grid of `size * size` cells, each free or obstructed, stored
/// row by row. It never changes once built.
pub struct Grid {
    size: usize,
    free: Vec<bool>,
}

/// The neighbour of `c` one step in direction `d`.
pub open spec fn step(c: (int, int), d: Cardinal) -> (int, int) {
    (c.0 + d.dx(), c.1 + d.dy())
}

/// Row-major position of cell `c` in a grid of side `n`.
pub open spec fn index_of(n: int, c: (int, int)) -> int {
    c.1 * n + c.0
}

pub open spec fn in_square(n: int, c: (int, int)) -> bool {
    0 <= c.0 < n && 0 <= c.1 < n
}

pub proof fn lemma_index_in_range(n: int, c: (int, int))
    requires
        in_square(n, c),
    ensures
        0 <= index_of(n, c) < n * n,
{
    assert(0 <= c.1 * n + c.0 < n * n) by (nonlinear_arith)
        requires
            0 <= c.0 < n,
            0 <= c.1 < n,
    ;
}

pub proof fn lemma_index_injective(n: int, a: (int, int), b: (int, int))
    requires
        in_square(n, a),
        in_square(n, b),
        index_of(n, a) == index_of(n, b),
    ensures
        a == b,
{
    if a.1 < b.1 {
        assert(a.1 * n + a.0 < b.1 * n) by (nonlinear_arith)
            requires
                0 <= a.0 < n,
                a.1 < b.1,
        ;
    } else if b.1 < a.1 {
        assert(b.1 * n + b.0 < a.1 * n) by (nonlinear_arith)
            requires
                0 <= b.0 < n,
                b.1 < a.1,
        ;
    }
}

impl Grid {
    /// The side length.
    pub closed spec fn n(&self) -> int {
        self.size as int
    }

    /// The cells are stored as one flag each, and every coordinate fits `i32`.
    pub closed spec fn wf(&self) -> bool {
        &&& 0 < self.size <= i32::MAX
        &&& self.size * self.size <= usize::MAX
        &&& self.free@.len() == self.size * self.size
    }

    /// Whether cell `c` lies inside the grid and is not obstructed.
    pub closed spec fn free_at(&self, c: (int, int)) -> bool {
        in_square(self.size as int, c) && self.free@[index_of(self.size as int, c)]
    }

    /// A free cell lies inside the grid.
    pub broadcast proof fn lemma_free_in_square(&self, c: (int, int))
        ensures
            #[trigger] self.free_at(c) ==> in_square(self.n(), c),
    {
    }

    /// The side of a well-formed grid fits both `i32` and `usize`.
    pub broadcast proof fn lemma_wf_bounds(&self)
        requires
            #[trigger] self.wf(),
        ensures
            0 < self.n() <= i32::MAX,
            self.n() <= usize::MAX,
            self.n() * self.n() <= usize::MAX,
    {
    }

    /// The side length.
    pub fn size(&self) -> (r: usize)
        ensures
            r as int == self.n(),
    {
        self.size
    }

    pub fn in_bounds(&self, coord: (i32, i32)) -> (r: bool)
        ensures
            r == in_square(self.n(), (coord.0 as int, coord.1 as int)),
    {
        0 <= coord.0 && (coord.0 as usize) < self.size && 0 <= coord.1 && (coord.1 as usize)
            < self.size
    }

    /// Whether the cell at `(x, y)`, given as unsigned coordinates, is free.
    pub fn is_free_at(&self, x: usize, y: usize) -> (r: bool)
        requires
            self.wf(),
        ensures
            r == self.free_at((x as int, y as int)),
    {
        if x < self.size && y < self.size {
            let total = self.free.len();
            proof {
                lemma_index_in_range(self.n(), (x as int, y as int));
                assert(y * self.size + x < total);
            }
            self.free[y * self.size + x]
        } else {
            false
        }
    }

    /// Whether `coord` is inside the grid and not obstructed.
    pub fn is_free(&self, coord: (i32, i32)) -> (r: bool)
        requires
            self.wf(),
        ensures
            r == self.free_at((coord.0 as int, coord.1 as int)),
    {
        if coord.0 >= 0 && coord.1 >= 0 {
            self.is_free_at(coord.0 as usize, coord.1 as usize)
        } else {
            false
        }
    }
}

/// Whether a grid of side `size` can be held: positive, with a cell count that
/// fits `usize`.
pub open spec fn size_ok(size: int) -> bool {
    0 < size && size * size <= usize::MAX
}

/// Builds a `size * size` grid in which exactly the listed cells are obstructed.
pub fn build_grid(size: i32, obstructed: &Vec<(i32, i32)>) -> (r: Result<Grid, GridError>)
    ensures
        r is Err <==> !size_ok(size as int) || exists|i: int|
            0 <= i < obstructed@.len() && !in_square(
                size as int,
                (#[trigger] obstructed@[i].0 as int, obstructed@[i].1 as int),
            ),
        r matches Err(e) ==> (!size_ok(size as int) ==> e == GridError::InvalidDimension) && (
        size_ok(size as int) ==> e == GridError::OutOfBounds),
        r matches Ok(g) ==> g.wf() && g.n() == size && forall|c: (int, int)|
            in_square(size as int, c) ==> (g.free_at(c) <==> !obstructed@.contains(
                (c.0 as i32, c.1 as i32),
            )),
{
    if size <= 0 {
        return Err(GridError::InvalidDimension);
    }
    let n = size as usize;
    let total = match n.checked_mul(n) {
        Some(t) => t,
        None => {
            return Err(GridError::InvalidDimension);
        },
    };
    let mut free: Vec<bool> = Vec::new();
    let mut k: usize = 0;
    while k < total
        invariant
            total == n * n,
            k <= total,
            free@.len() == k,
            forall|j: int| 0 <= j < k ==> #[trigger] free@[j],
        decreases total - k,
    {
        free.push(true);
        k = k + 1;
    }
    proof {
        assert forall|c: (int, int)| in_square(n as int, c) implies free@[#[trigger] index_of(
            n as int,
            c,
        )] by {
            lemma_index_in_range(n as int, c);
        }
    }
    let mut i: usize = 0;
    while i < obstructed.len()
        invariant
            0 < n <= i32::MAX,
            n == size,
            total == n * n,
            free@.len() == total,
            i <= obstructed@.len(),
            forall|j: int|
                0 <= j < i ==> in_square(
                    n as int,
                    (#[trigger] obstructed@[j].0 as int, obstructed@[j].1 as int),
                ),
            forall|c: (int, int)|
                in_square(n as int, c) ==> (free@[#[trigger] index_of(n as int, c)] <==> !exists|
                    j: int,
                |
                    0 <= j < i && #[trigger] obstructed@[j] == (c.0 as i32, c.1 as i32)),
        decreases obstructed@.len() - i,
    {
        let (x, y) = obstructed[i];
        if x < 0 || y < 0 || x as usize >= n || y as usize >= n {
            return Err(GridError::OutOfBounds);
        }
        let ghost p: (int, int) = (x as int, y as int);
        proof {
            lemma_index_in_range(n as int, p);
        }
        let pos = y as usize * n + x as usize;
        free.set(pos, false);
        proof {
            assert forall|c: (int, int)| in_square(n as int, c) implies (free@[#[trigger] index_of(
                n as int,
                c,
            )] <==> !exists|j: int|
                0 <= j < i + 1 && #[trigger] obstructed@[j] == (c.0 as i32, c.1 as i32)) by {
                lemma_index_in_range(n as int, c);
                if index_of(n as int, c) == index_of(n as int, p) {
                    lemma_index_injective(n as int, c, p);
                    assert(obstructed@[i as int] == (c.0 as i32, c.1 as i32));
                } else {
                    if exists|j: int|
                        0 <= j < i + 1 && #[trigger] obstructed@[j] == (c.0 as i32, c.1 as i32) {
                        let j = choose|j: int|
                            0 <= j < i + 1 && #[trigger] obstructed@[j] == (c.0 as i32, c.1 as i32);
                        assert(j != i);
                    }
                }
            }
        }
        i = i + 1;
    }
    let g = Grid { size: n, free };
    proof {
        assert forall|c: (int, int)| in_square(size as int, c) implies (g.free_at(c)
            <==> !obstructed@.contains((c.0 as i32, c.1 as i32))) by {
            if obstructed@.contains((c.0 as i32, c.1 as i32)) {
                let j = choose|j: int|
                    0 <= j < obstructed@.len() && obstructed@[j] == (c.0 as i32, c.1 as i32);
                assert(obstructed@[j] == (c.0 as i32, c.1 as i32));
            }
        }
    }
    Ok(g)
}

/// rand's seeded standard generator, carried through unopened.
#[verifier::external_type_specification]
#[verifier::external_body]
pub struct ExStdRng(StdRng);

/// Relies on rand's `Rng::gen_ratio`: a coin that shows `true` with chance
/// `numerator / denominator`; it panics only when `denominator` is zero or
/// below `numerator`.
#[verifier::external_body]
fn draw_ratio(rng: &mut StdRng, numerator: u32, denominator: u32) -> (r: bool)
    requires
        0 < denominator,
        numerator <= denominator,
{
    rng.gen_ratio(numerator, denominator)
}

/// Builds a grid from one flag per cell, row by row (`true` for free).
pub fn grid_from_cells(size: i32, free: Vec<bool>) -> (r: Result<Grid, GridError>)
    ensures
        r is Err <==> !size_ok(size as int) || free@.len() != size * size,
        r matches Err(e) ==> e == GridError::InvalidDimension,
        r matches Ok(g) ==> g.wf() && g.n() == size && forall|c: (int, int)|
            in_square(size as int, c) ==> (g.free_at(c) == free@[index_of(size as int, c)]),
{
    if size <= 0 {
        return Err(GridError::InvalidDimension);
    }
    let n = size as usize;
    match n.checked_mul(n) {
        Some(t) => {
            if t != free.len() {
                return Err(GridError::InvalidDimension);
            }
        },
        None => {
            return Err(GridError::InvalidDimension);
        },
    }
    Ok(Grid { size: n, free })
}

/// Draws a `size * size` grid in which each cell is obstructed with chance
/// one in five, independently, from the caller's generator.
pub fn generate_tile(size: i32, rng: &mut StdRng) -> (r: Result<Grid, GridError>)
    ensures
        r is Err <==> !size_ok(size as int),
        r matches Err(e) ==> e == GridError::InvalidDimension,
        r matches Ok(g) ==> g.wf() && g.n() == size,
{
    if size <= 0 {
        return Err(GridError::InvalidDimension);
    }
    let n = size as usize;
    let total = match n.checked_mul(n) {
        Some(t) => t,
        None => {
            return Err(GridError::InvalidDimension);
        },
    };
    let mut free: Vec<bool> = Vec::new();
    let mut k: usize = 0;
    while k < total
        invariant
            total == n * n,
            k <= total,
            free@.len() == k,
        decreases total - k,
    {
        let keep = draw_ratio(rng, 4, 5);
        free.push(keep);
        k = k + 1;
    }
    grid_from_cells(size, free)
}

} // verus!
