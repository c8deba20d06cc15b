use vstd::prelude::*;
use rayon::iter::{IntoParallelRefIterator, ParallelIterator};
use crate::field::{DirectionField, get_distances};
use crate::grid::{Grid, GridError, index_of, in_square, lemma_index_in_range, lemma_index_injective};

verus! {

broadcast use {Grid::lemma_free_in_square, Grid::lemma_wf_bounds};

/// Relies on rayon: `par_iter` over a slice, `map` and `collect` into a `Vec`
/// keep the order of the input, so entry `i` is the field from `sources[i]`;
/// each task only reads the shared grid and returns its own field.
#[verifier::external_body]
fn fields_in_parallel(grid: &Grid, sources: &Vec<(i32, i32)>) -> (r: Vec<Result<DirectionField, GridError>>)
    requires
        grid.wf(),
    ensures
        r@.len() == sources@.len(),
        forall|i: int|
            0 <= i < sources@.len() ==> match #[trigger] r@[i] {
                Ok(f) => grid.free_at((sources@[i].0 as int, sources@[i].1 as int)) && f.built_from(
                    *grid,
                    (sources@[i].0 as int, sources@[i].1 as int),
                ),
                Err(_) => !grid.free_at((sources@[i].0 as int, sources@[i].1 as int)),
            },
{
    sources.par_iter().map(|s| get_distances(*s, grid)).collect()
}

pub open spec fn coord(c: (i32, i32)) -> (int, int) {
    (c.0 as int, c.1 as int)
}

/// Every free cell of `grid`, in row-major order.
pub fn free_cells(grid: &Grid) -> (r: Vec<(i32, i32)>)
    requires
        grid.wf(),
    ensures
        forall|i: int| 0 <= i < r@.len() ==> grid.free_at(coord(#[trigger] r@[i])),
        forall|i: int, j: int|
            0 <= i < j < r@.len() ==> index_of(grid.n(), coord(#[trigger] r@[i])) < index_of(
                grid.n(),
                coord(#[trigger] r@[j]),
            ),
        forall|c: (int, int)|
            #[trigger] grid.free_at(c) ==> exists|i: int| 0 <= i < r@.len() && coord(#[trigger] r@[i]) == c,
{
    let size = grid.size();
    let ghost n = size as int;
    let total = size * size;
    let mut out: Vec<(i32, i32)> = Vec::new();
    let mut idx: usize = 0;
    let mut x: usize = 0;
    let mut y: usize = 0;
    while idx < total
        invariant
            grid.wf(),
            n == grid.n(),
            size == n,
            total == n * n,
            x < size,
            idx == y * n + x,
            idx <= total,
            idx < total ==> y < size,
            forall|i: int| 0 <= i < out@.len() ==> grid.free_at(coord(#[trigger] out@[i])),
            forall|i: int| 0 <= i < out@.len() ==> index_of(n, coord(#[trigger] out@[i])) < idx,
            forall|i: int, j: int|
                0 <= i < j < out@.len() ==> index_of(n, coord(#[trigger] out@[i])) < index_of(
                    n,
                    coord(#[trigger] out@[j]),
                ),
            forall|c: (int, int)|
                #[trigger] grid.free_at(c) && index_of(n, c) < idx ==> exists|i: int|
                    0 <= i < out@.len() && coord(#[trigger] out@[i]) == c,
        decreases total - idx,
    {
        let ghost c = (x as int, y as int);
        let ghost before = out@;
        if grid.is_free_at(x, y) {
            out.push((x as i32, y as i32));
            proof {
                assert(coord(out@[out@.len() - 1]) == c);
            }
        }
        proof {
            assert forall|c2: (int, int)| #[trigger] grid.free_at(c2) && index_of(n, c2) < idx + 1 implies exists|i: int|
                0 <= i < out@.len() && coord(#[trigger] out@[i]) == c2 by {
                if index_of(n, c2) == idx {
                    lemma_index_injective(n, c2, c);
                    assert(coord(out@[out@.len() - 1]) == c2);
                } else {
                    let i = choose|i: int| 0 <= i < before.len() && coord(#[trigger] before[i]) == c2;
                    assert(out@[i] == before[i]);
                }
            }
        }
        idx = idx + 1;
        if x + 1 < size {
            x = x + 1;
        } else {
            proof {
                assert((y + 1) * n == y * n + n) by (nonlinear_arith);
                if idx < total {
                    assert(y + 1 < n) by (nonlinear_arith)
                        requires
                            idx == (y + 1) * n,
                            idx < n * n,
                            n > 0,
                    ;
                }
            }
            x = 0;
            y = y + 1;
        }
    }
    proof {
        assert forall|c: (int, int)| #[trigger] grid.free_at(c) implies exists|i: int|
            0 <= i < out@.len() && coord(#[trigger] out@[i]) == c by {
            lemma_index_in_range(n, c);
        }
    }
    out
}

/// The direction field from every free cell of `grid`, in row-major order of
/// the sources. The fields are computed in parallel, each on its own.
pub fn build_all_direction_fields(grid: &Grid) -> (r: Vec<DirectionField>)
    requires
        grid.wf(),
    ensures
        forall|i: int|
            0 <= i < r@.len() ==> grid.free_at(#[trigger] r@[i].source_cell()) && r@[i].built_from(
                *grid,
                r@[i].source_cell(),
            ),
        forall|i: int, j: int|
            0 <= i < j < r@.len() ==> index_of(grid.n(), #[trigger] r@[i].source_cell()) < index_of(
                grid.n(),
                #[trigger] r@[j].source_cell(),
            ),
        forall|c: (int, int)|
            #[trigger] grid.free_at(c) ==> exists|i: int| 0 <= i < r@.len() && (#[trigger] r@[i]).source_cell() == c,
{
    let sources = free_cells(grid);
    let mut results = fields_in_parallel(grid, &sources);
    let mut out: Vec<DirectionField> = Vec::new();
    let ghost all = results@;
    let m = sources.len();
    let mut k: usize = 0;
    while results.len() > 0
        invariant
            grid.wf(),
            m == sources@.len(),
            all.len() == sources@.len(),
            k + results@.len() == all.len(),
            results@ == all.subrange(k as int, all.len() as int),
            out@.len() == k,
            forall|i: int| 0 <= i < sources@.len() ==> grid.free_at(coord(#[trigger] sources@[i])),
            forall|i: int|
                0 <= i < sources@.len() ==> match #[trigger] all[i] {
                    Ok(f) => grid.free_at(coord(sources@[i])) && f.built_from(*grid, coord(sources@[i])),
                    Err(_) => !grid.free_at(coord(sources@[i])),
                },
            forall|i: int|
                0 <= i < k ==> (#[trigger] out@[i]).source_cell() == coord(sources@[i]) && out@[i].built_from(
                    *grid,
                    coord(sources@[i]),
                ),
        decreases results@.len(),
    {
        let res = results.remove(0);
        proof {
            assert(res == all[k as int]);
            assert(grid.free_at(coord(sources@[k as int])));
        }
        match res {
            Ok(f) => {
                out.push(f);
            },
            Err(_) => {
                proof {
                    assert(false);
                }
            },
        }
        k = k + 1;
        proof {
            assert(results@ =~= all.subrange(k as int, all.len() as int));
        }
    }
    proof {
        assert forall|i: int|
            0 <= i < out@.len() implies grid.free_at(#[trigger] out@[i].source_cell()) by {
            assert(grid.free_at(coord(sources@[i])));
        }
        assert forall|i: int, j: int|
            0 <= i < j < out@.len() implies index_of(grid.n(), #[trigger] out@[i].source_cell()) < index_of(
                grid.n(),
                #[trigger] out@[j].source_cell(),
            ) by {
            assert(out@[i].source_cell() == coord(sources@[i]));
            assert(out@[j].source_cell() == coord(sources@[j]));
        }
        assert forall|c: (int, int)| #[trigger] grid.free_at(c) implies exists|i: int|
            0 <= i < out@.len() && (#[trigger] out@[i]).source_cell() == c by {
            let i = choose|i: int| 0 <= i < sources@.len() && coord(#[trigger] sources@[i]) == c;
            assert(out@[i].source_cell() == c);
        }
    }
    out
}

} // verus!
