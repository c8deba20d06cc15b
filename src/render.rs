use vstd::prelude::*;
use crate::cardinal::Cardinal;
use crate::field::DirectionField;
use crate::grid::Grid;

verus! {

broadcast use {Grid::lemma_free_in_square, Grid::lemma_wf_bounds};

/// What a diagnostic picture of a direction field shows for one cell.
#[derive(Debug, Clone, Copy, PartialEq, Eq, Structural)]
pub enum Tile {
    /// The source of the field.
    Source,
    /// A reached cell, with its distance and predecessor direction.
    Reached(usize, Cardinal),
    /// A free cell that the source cannot reach.
    Free,
    /// An obstructed cell.
    Obstructed,
}

/// The tile shown for cell `c`.
pub open spec fn tile_of(g: Grid, f: DirectionField, c: (int, int)) -> Tile {
    if c == f.source_cell() {
        Tile::Source
    } else if f.entry(c) is Some {
        Tile::Reached(f.entry(c).unwrap().0 as usize, f.entry(c).unwrap().1)
    } else if g.free_at(c) {
        Tile::Free
    } else {
        Tile::Obstructed
    }
}

/// The tiles of field `f` over grid `g`, one row per `y`, one tile per `x`.
pub fn tile_grid(g: &Grid, f: &DirectionField) -> (r: Vec<Vec<Tile>>)
    requires
        g.wf(),
        f.built_from(*g, f.source_cell()),
    ensures
        r@.len() == g.n(),
        forall|y: int| 0 <= y < g.n() ==> (#[trigger] r@[y])@.len() == g.n(),
        forall|y: int, x: int|
            0 <= y < g.n() && 0 <= x < g.n() ==> #[trigger] r@[y]@[x] == tile_of(*g, *f, (x, y)),
{
    let size = g.size();
    let source = f.source();
    let mut rows: Vec<Vec<Tile>> = Vec::new();
    let mut y: usize = 0;
    while y < size
        invariant
            g.wf(),
            f.built_from(*g, f.source_cell()),
            size == g.n(),
            (source.0 as int, source.1 as int) == f.source_cell(),
            y <= size,
            rows@.len() == y,
            forall|j: int| 0 <= j < y ==> (#[trigger] rows@[j])@.len() == size,
            forall|j: int, x: int|
                0 <= j < y && 0 <= x < size ==> #[trigger] rows@[j]@[x] == tile_of(*g, *f, (x, j)),
        decreases size - y,
    {
        let mut row: Vec<Tile> = Vec::new();
        let mut x: usize = 0;
        while x < size
            invariant
                g.wf(),
                f.built_from(*g, f.source_cell()),
                size == g.n(),
                size <= i32::MAX,
                (source.0 as int, source.1 as int) == f.source_cell(),
                y < size,
                x <= size,
                row@.len() == x,
                forall|i: int| 0 <= i < x ==> row@[i] == tile_of(*g, *f, (i, y as int)),
            decreases size - x,
        {
            let c = (x as i32, y as i32);
            let t = if c.0 == source.0 && c.1 == source.1 {
                Tile::Source
            } else {
                match f.get(c) {
                    Some((d, p)) => Tile::Reached(d, p),
                    None => if g.is_free(c) {
                        Tile::Free
                    } else {
                        Tile::Obstructed
                    },
                }
            };
            row.push(t);
            x = x + 1;
        }
        rows.push(row);
        y = y + 1;
    }
    rows
}

} // verus!
