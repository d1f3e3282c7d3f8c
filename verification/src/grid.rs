//! The grid topology: a bounded 2D coordinate space with 4-directional
//! adjacency. A cell is in range iff both coordinates lie within
//! `[0, size_x) x [0, size_y)`; the neighbours of a cell are listed in the
//! fixed order up, down, left, right, with out-of-range cells omitted.

use vstd::prelude::*;

verus! {

/// A discrete grid coordinate. Equality is structural.
#[derive(Clone, Copy, PartialEq, Eq, Hash, Debug, Structural)]
pub struct GridPosition {
    pub x: i32,
    pub y: i32,
}

/// An immutable bounded grid, defined by its two dimensions.
pub struct Grid {
    pub size_x: i32,
    pub size_y: i32,
}

/// True iff `b` is 4-adjacent to `a`: exactly one coordinate differs, by
/// exactly one.
pub open spec fn adjacent(a: GridPosition, b: GridPosition) -> bool {
    ||| (a.x == b.x && (b.y == a.y + 1 || b.y == a.y - 1))
    ||| (a.y == b.y && (b.x == a.x + 1 || b.x == a.x - 1))
}

impl Grid {
    /// A well-formed grid has positive dimensions and an area that fits the
    /// arithmetic the search and the connectivity probe perform.
    pub open spec fn wf(self) -> bool {
        &&& 0 < self.size_x
        &&& 0 < self.size_y
        &&& self.size_x * self.size_y <= i32::MAX
    }

    /// True iff `pos` lies inside the grid.
    pub open spec fn spec_in_range(self, pos: GridPosition) -> bool {
        &&& 0 <= pos.x < self.size_x
        &&& 0 <= pos.y < self.size_y
    }

    /// The in-range neighbours of `pos`, in the fixed order up, down, left,
    /// right; out-of-range candidates are omitted.
    pub open spec fn spec_neighbours(self, pos: GridPosition) -> Seq<GridPosition> {
        let up = GridPosition { x: pos.x, y: (pos.y - 1) as i32 };
        let down = GridPosition { x: pos.x, y: (pos.y + 1) as i32 };
        let left = GridPosition { x: (pos.x - 1) as i32, y: pos.y };
        let right = GridPosition { x: (pos.x + 1) as i32, y: pos.y };
        (if self.spec_in_range(up) { seq![up] } else { Seq::empty() })
        + (if self.spec_in_range(down) { seq![down] } else { Seq::empty() })
        + (if self.spec_in_range(left) { seq![left] } else { Seq::empty() })
        + (if self.spec_in_range(right) { seq![right] } else { Seq::empty() })
    }

    pub fn new(size_x: i32, size_y: i32) -> (r: Self)
        requires
            0 < size_x,
            0 < size_y,
            size_x * size_y <= i32::MAX,
        ensures
            r.size_x == size_x,
            r.size_y == size_y,
            r.wf(),
    {
        Grid { size_x, size_y }
    }

    pub fn create_position(x: i32, y: i32) -> (r: GridPosition)
        ensures
            r.x == x,
            r.y == y,
    {
        GridPosition { x, y }
    }

    /// Relies on rand::random_range: a uniformly sampled value of `0..n` lies
    /// in `[0, n)`; the range is non-empty because the grid is well-formed.
    #[verifier::external_body]
    pub fn random_position(&self) -> (r: GridPosition)
        requires
            self.wf(),
        ensures
            self.spec_in_range(r),
    {
        GridPosition {
            x: rand::random_range(0..self.size_x),
            y: rand::random_range(0..self.size_y),
        }
    }

    pub fn is_in_range(&self, pos: &GridPosition) -> (r: bool)
        ensures
            r == self.spec_in_range(*pos),
    {
        pos.x >= 0 && pos.x < self.size_x && pos.y >= 0 && pos.y < self.size_y
    }

    /// The in-range neighbours of `pos`, in the fixed order up, down, left,
    /// right.
    pub fn for_each_neighbour(&self, pos: GridPosition) -> (r: Vec<GridPosition>)
        requires
            self.wf(),
            self.spec_in_range(pos),
        ensures
            r@ == self.spec_neighbours(pos),
    {
        proof {
            assert(self.size_y <= i32::MAX && self.size_x <= i32::MAX) by (nonlinear_arith)
                requires
                    0 < self.size_x,
                    0 < self.size_y,
                    self.size_x * self.size_y <= i32::MAX,
            ;
        }
        let mut r: Vec<GridPosition> = Vec::new();
        let up = GridPosition { x: pos.x, y: pos.y - 1 };
        if self.is_in_range(&up) {
            r.push(up);
        }
        let down = GridPosition { x: pos.x, y: pos.y + 1 };
        if self.is_in_range(&down) {
            r.push(down);
        }
        let left = GridPosition { x: pos.x - 1, y: pos.y };
        if self.is_in_range(&left) {
            r.push(left);
        }
        let right = GridPosition { x: pos.x + 1, y: pos.y };
        if self.is_in_range(&right) {
            r.push(right);
        }
        proof {
            assert(r@ =~= self.spec_neighbours(pos));
        }
        r
    }
}

/// Adjacency validity: every neighbour the topology yields for an in-range
/// cell is itself in range and differs from that cell in exactly one
/// coordinate, by exactly one.
pub proof fn lemma_neighbours_valid(g: Grid, pos: GridPosition)
    requires
        g.wf(),
        g.spec_in_range(pos),
    ensures
        forall|i: int|
            0 <= i < g.spec_neighbours(pos).len() ==> {
                &&& g.spec_in_range(#[trigger] g.spec_neighbours(pos)[i])
                &&& adjacent(pos, g.spec_neighbours(pos)[i])
            },
{
}

} // verus!
