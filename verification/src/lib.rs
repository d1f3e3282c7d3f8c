//! Movement planning for an agent that occupies a growing chain of cells on a
//! bounded grid: grid adjacency, immutable body states with their two
//! transition operators, a flood-fill connectivity probe, and a greedy
//! best-first search that returns a persistent path of body states leading the
//! head to a target cell.

use vstd::prelude::*;

pub mod grid;
pub mod path;
pub mod scores;
pub mod snek;

use crate::grid::GridPosition;

verus! {

/// A target placed on the grid for the agent to reach.
pub struct Food {
    pub pos: GridPosition,
}

impl Food {
    pub fn new(pos: GridPosition) -> (r: Self)
        ensures
            r.pos == pos,
    {
        Food { pos }
    }
}

} // verus!
