use vstd::prelude::*;

verus! {

/// One of the four grid-aligned compass directions. `y` grows downwards.
#[derive(Debug, Clone, Copy, PartialEq, Eq, Structural, PartialOrd, Ord)]
pub enum Cardinal {
    U,
    R,
    D,
    L,
}

impl Cardinal {
    /// The column offset of one step in this direction.
    pub open spec fn dx(self) -> int {
        match self {
            Cardinal::U => 0,
            Cardinal::R => 1,
            Cardinal::D => 0,
            Cardinal::L => -1,
        }
    }

    /// The row offset of one step in this direction.
    pub open spec fn dy(self) -> int {
        match self {
            Cardinal::U => -1,
            Cardinal::R => 0,
            Cardinal::D => 1,
            Cardinal::L => 0,
        }
    }

    /// The opposite direction.
    pub open spec fn spec_inverse(self) -> Cardinal {
        match self {
            Cardinal::U => Cardinal::D,
            Cardinal::R => Cardinal::L,
            Cardinal::D => Cardinal::U,
            Cardinal::L => Cardinal::R,
        }
    }

    pub fn inverse(&self) -> (r: Cardinal)
        ensures
            r == self.spec_inverse(),
            r.dx() == -self.dx(),
            r.dy() == -self.dy(),
    {
        match self {
            Cardinal::U => Cardinal::D,
            Cardinal::R => Cardinal::L,
            Cardinal::D => Cardinal::U,
            Cardinal::L => Cardinal::R,
        }
    }

    /// The arrow glyph drawn for this direction.
    pub fn get_char_eq(&self) -> (r: char)
        ensures
            r == (match *self {
                Cardinal::U => '↑',
                Cardinal::R => '→',
                Cardinal::D => '↓',
                Cardinal::L => '←',
            }),
    {
        match self {
            Cardinal::U => '↑',
            Cardinal::R => '→',
            Cardinal::D => '↓',
            Cardinal::L => '←',
        }
    }

    /// The unit offset `(dx, dy)` of one step in this direction.
    pub fn delta(&self) -> (r: (i32, i32))
        ensures
            r.0 as int == self.dx(),
            r.1 as int == self.dy(),
    {
        match self {
            Cardinal::U => (0, -1),
            Cardinal::R => (1, 0),
            Cardinal::D => (0, 1),
            Cardinal::L => (-1, 0),
        }
    }

    /// The coordinate one step away from `coord` in this direction.
    pub fn delta_from(&self, coord: (i32, i32)) -> (r: (i32, i32))
        requires
            i32::MIN <= coord.0 + self.dx() <= i32::MAX,
            i32::MIN <= coord.1 + self.dy() <= i32::MAX,
        ensures
            r.0 as int == coord.0 + self.dx(),
            r.1 as int == coord.1 + self.dy(),
    {
        let (dx, dy) = self.delta();
        (coord.0 + dx, coord.1 + dy)
    }

    /// All four directions in tie-breaking order: up, right, down, left.
    pub fn iter_all() -> (r: Vec<Cardinal>)
        ensures
            r@ == seq![Cardinal::U, Cardinal::R, Cardinal::D, Cardinal::L],
    {
        let mut cardinals: Vec<Cardinal> = Vec::new();
        cardinals.push(Cardinal::U);
        cardinals.push(Cardinal::R);
        cardinals.push(Cardinal::D);
        cardinals.push(Cardinal::L);
        proof {
            assert(cardinals@ =~= seq![Cardinal::U, Cardinal::R, Cardinal::D, Cardinal::L]);
        }
        cardinals
    }
}

} // verus!
