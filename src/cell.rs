use vstd::prelude::*;

verus! {

/// One square of the rasterized maze.
#[derive(Clone, Copy, PartialEq, Eq, Structural, Debug)]
pub enum Cell {
    Wall,
    Empty,
    Visited,
    Cursor,
    Goal,
}

impl Cell {
    /// The tags that the cell left behind by the cursor may take a transition from.
    pub open spec fn flippable(self) -> bool {
        self is Empty || self is Visited || self is Goal
    }

    /// The flip transition: `Empty -> Visited`, `Visited -> Empty`, `Goal -> Visited`.
    pub open spec fn flipped(self) -> Cell {
        match self {
            Cell::Empty => Cell::Visited,
            Cell::Visited => Cell::Empty,
            Cell::Goal => Cell::Visited,
            _ => self,
        }
    }

    pub fn flip(&self) -> (r: Cell)
        requires
            self.flippable(),
        ensures
            r == self.flipped(),
            r is Empty || r is Visited,
    {
        match self {
            Cell::Empty => Cell::Visited,
            Cell::Visited => Cell::Empty,
            Cell::Goal => Cell::Visited,
            Cell::Wall => Cell::Wall,
            Cell::Cursor => Cell::Cursor,
        }
    }
}

/// Flipping twice undoes the flip of an `Empty` cell, while a `Goal` cell
/// becomes `Visited` and then `Empty`: the goal tag never comes back.
pub proof fn lemma_flip_twice(c: Cell)
    requires
        c.flippable(),
    ensures
        c.flipped().flippable(),
        c is Empty ==> c.flipped().flipped() == Cell::Empty,
        c is Visited ==> c.flipped().flipped() == Cell::Visited,
        c is Goal ==> c.flipped() == Cell::Visited && c.flipped().flipped() == Cell::Empty,
{
}

} // verus!
