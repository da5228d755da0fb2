use crate::cell::Cell;
use crate::graph::{in_grid, joined, joined_avoiding, vertices, Vtx};
use vstd::prelude::*;

verus! {

/// A step of the cursor.
#[derive(Clone, Copy, PartialEq, Eq, Structural, Debug)]
pub enum Direction {
    Up,
    Down,
    Left,
    Right,
}

/// Why a maze could not be generated.
#[derive(Clone, Copy, PartialEq, Eq, Structural, Debug)]
pub enum MazeError {
    /// A half-width or half-height of zero.
    InvalidDimension,
}

/// A maze and the cursor that walks it.
///
/// Walls never change. Exactly one cell is `Cursor`, at `cursor`, and a
/// `Goal` cell can only stand at `goal`, the bottom right corner.
pub struct Maze {
    pub grid: Vec<Vec<Cell>>,
    pub height: usize,
    pub width: usize,
    pub cursor: (usize, usize),
    pub goal: (usize, usize),
}

/// A cell that lies between two vertex cells: exactly one coordinate is odd.
pub open spec fn edge_cell(r: int, c: int) -> bool {
    (r % 2 == 1) != (c % 2 == 1)
}

/// The two vertices on either side of an edge cell.
pub open spec fn ends(p: (int, int)) -> (Vtx, Vtx) {
    if p.0 % 2 == 1 {
        ((((p.0 - 1) / 2) as usize, (p.1 / 2) as usize), (((p.0 + 1) / 2) as usize, (p.1 / 2) as usize))
    } else {
        (((p.0 / 2) as usize, ((p.1 - 1) / 2) as usize), ((p.0 / 2) as usize, ((p.1 + 1) / 2) as usize))
    }
}

impl Maze {
    pub open spec fn at(&self, r: int, c: int) -> Cell {
        self.grid@[r]@[c]
    }

    pub open spec fn in_bounds(&self, r: int, c: int) -> bool {
        0 <= r < self.height && 0 <= c < self.width
    }

    pub open spec fn wf(&self) -> bool {
        &&& self.height % 2 == 1
        &&& self.width % 2 == 1
        &&& self.grid@.len() == self.height
        &&& forall|r: int| 0 <= r < self.height ==> (#[trigger] self.grid@[r])@.len() == self.width
        &&& self.goal == ((self.height - 1) as usize, (self.width - 1) as usize)
        &&& self.in_bounds(self.cursor.0 as int, self.cursor.1 as int)
        &&& self.at(self.cursor.0 as int, self.cursor.1 as int) == Cell::Cursor
        &&& forall|r: int, c: int|
            self.in_bounds(r, c) && (r != self.cursor.0 || c != self.cursor.1) ==> #[trigger] self.at(
                r,
                c,
            ) != Cell::Cursor
        &&& forall|r: int, c: int|
            self.in_bounds(r, c) && (r != self.goal.0 || c != self.goal.1) ==> #[trigger] self.at(r, c)
                != Cell::Goal
    }

    pub open spec fn done(&self) -> bool {
        self.cursor.0 == self.goal.0 && self.cursor.1 == self.goal.1
    }

    /// The cells between vertex cells that are open.
    pub open spec fn passages(&self) -> Set<(int, int)> {
        Set::new(
            |p: (int, int)| self.in_bounds(p.0, p.1) && edge_cell(p.0, p.1) && self.at(p.0, p.1) != Cell::Wall,
        )
    }

    /// The passages form a spanning tree over the `hh` by `hw` vertex cells:
    /// every vertex cell reaches every other one through open cells; no walk
    /// joins the two sides of a passage without passing through it, so the
    /// passages hold no cycle; and there is exactly one passage fewer than
    /// there are vertex cells.
    pub open spec fn spanning(&self, hh: int, hw: int) -> bool {
        &&& forall|a: Vtx, b: Vtx|
            in_grid(hh, hw, a) && in_grid(hh, hw, b) ==> #[trigger] joined(self.grid@, hh, hw, a, b)
        &&& forall|p: (int, int)| #[trigger]
            self.passages().contains(p) ==> !joined_avoiding(self.grid@, hh, hw, ends(p).0, ends(p).1, p)
        &&& self.passages().finite()
        &&& self.passages().len() + 1 == vertices(hh, hw).len()
    }

    /// What a freshly generated maze with `hh` by `hw` vertex cells looks like.
    pub open spec fn generated(&self, hh: int, hw: int) -> bool {
        &&& self.wf()
        &&& self.height == 2 * hh - 1
        &&& self.width == 2 * hw - 1
        &&& self.cursor == (0usize, 0usize)
        &&& self.at(0, 0) == Cell::Cursor
        &&& (self.height > 1 || self.width > 1) ==> self.at(self.height - 1, self.width - 1)
            == Cell::Goal
        &&& forall|r: int, c: int|
            self.in_bounds(r, c) && (r != 0 || c != 0) && (r != self.height - 1 || c != self.width
                - 1) ==> {
                &&& (#[trigger] self.at(r, c) == Cell::Empty || self.at(r, c) == Cell::Wall)
                &&& (r % 2 == 0 && c % 2 == 0 ==> self.at(r, c) == Cell::Empty)
                &&& (r % 2 == 1 && c % 2 == 1 ==> self.at(r, c) == Cell::Wall)
            }
        &&& self.spanning(hh, hw)
    }

    /// The cell that a step in direction `d` leads to.
    pub open spec fn target(&self, d: Direction) -> (int, int) {
        let r = self.cursor.0 as int;
        let c = self.cursor.1 as int;
        match d {
            Direction::Up => (r - 1, c),
            Direction::Down => (r + 1, c),
            Direction::Left => (r, c - 1),
            Direction::Right => (r, c + 1),
        }
    }

    /// A step is taken when the maze is unsolved and the target is an open cell.
    pub open spec fn can_move(&self, d: Direction) -> bool {
        let t = self.target(d);
        !self.done() && self.in_bounds(t.0, t.1) && self.at(t.0, t.1) != Cell::Wall
    }

    pub fn is_done(&self) -> (b: bool)
        ensures
            b == self.done(),
    {
        self.cursor.0 == self.goal.0 && self.cursor.1 == self.goal.1
    }

    pub fn cell_at(&self, row: usize, col: usize) -> (c: Cell)
        requires
            self.wf(),
            self.in_bounds(row as int, col as int),
        ensures
            c == self.at(row as int, col as int),
    {
        self.grid[row][col]
    }

    /// Moves the cursor one cell. The cell it leaves takes the flip of the tag
    /// that the target cell had, so that the way back from the start stays
    /// marked `Visited` and stepping back clears it.
    pub fn move_cursor(&mut self, d: Direction)
        requires
            old(self).wf(),
        ensures
            final(self).wf(),
            final(self).height == old(self).height,
            final(self).width == old(self).width,
            final(self).goal == old(self).goal,
            old(self).done() ==> *final(self) == *old(self),
            !old(self).can_move(d) ==> *final(self) == *old(self),
            old(self).can_move(d) ==> {
                let t = old(self).target(d);
                let r0 = old(self).cursor.0 as int;
                let c0 = old(self).cursor.1 as int;
                &&& final(self).cursor == (t.0 as usize, t.1 as usize)
                &&& forall|r: int, c: int|
                    old(self).in_bounds(r, c) ==> #[trigger] final(self).at(r, c) == if r == t.0
                        && c == t.1 {
                        Cell::Cursor
                    } else if r == r0 && c == c0 {
                        old(self).at(t.0, t.1).flipped()
                    } else {
                        old(self).at(r, c)
                    }
            },
            forall|r: int, c: int|
                old(self).in_bounds(r, c) ==> (old(self).at(r, c) == Cell::Wall
                    <==> #[trigger] final(self).at(r, c) == Cell::Wall),
    {
        if self.is_done() {
            return ;
        }
        let (row, col) = self.cursor;
        let (nr, nc) = match d {
            Direction::Up => {
                if row == 0 {
                    return ;
                }
                (row - 1, col)
            },
            Direction::Down => {
                if row + 1 >= self.height {
                    return ;
                }
                (row + 1, col)
            },
            Direction::Left => {
                if col == 0 {
                    return ;
                }
                (row, col - 1)
            },
            Direction::Right => {
                if col + 1 >= self.width {
                    return ;
                }
                (row, col + 1)
            },
        };
        let old_target = self.grid[nr][nc];
        if old_target != Cell::Wall {
            let ghost before = *self;
            assert(before.at(nr as int, nc as int) != Cell::Cursor);
            let left = old_target.flip();
            self.grid[row][col] = left;
            self.grid[nr][nc] = Cell::Cursor;
            self.cursor = (nr, nc);
            assert forall|r: int| 0 <= r < self.height implies (#[trigger] self.grid@[r])@.len()
                == self.width by {
                assert(before.grid@[r]@.len() == self.width);
            }
            assert forall|r: int, c: int| before.in_bounds(r, c) implies #[trigger] self.at(r, c)
                == if r == nr && c == nc {
                Cell::Cursor
            } else if r == row && c == col {
                before.at(nr as int, nc as int).flipped()
            } else {
                before.at(r, c)
            } by {}
        }
    }

    /// Replaces the maze by a fresh one of the same size.
    pub fn reset(&mut self)
        requires
            old(self).wf(),
        ensures
            final(self).generated(old(self).height / 2 + 1, old(self).width / 2 + 1),
            final(self).height == old(self).height,
            final(self).width == old(self).width,
    {
        *self = Maze::generate_random(self.width / 2 + 1, self.height / 2 + 1);
    }
}

} // verus!
