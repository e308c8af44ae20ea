//! The bounded 2D world: positions, the four cardinal directions, and the
//! grid of cells together with the player's cursor.

use vstd::prelude::*;

use crate::items::Item;

verus! {

/// Side length of the square world grid.
pub const SIZE: usize = 5;

/// A `(row, column)` coordinate. A position is on the grid when both
/// coordinates are below [`SIZE`].
#[derive(Debug, Clone, Copy, PartialEq, Eq, Structural, Hash)]
pub struct Position(pub usize, pub usize);

/// One of the four cardinal directions, as seen on the rendered grid:
/// north decreases the row, south increases it, east increases the column,
/// west decreases it.
#[derive(Debug, Clone, Copy, PartialEq, Eq, Structural, Hash)]
pub enum Direction {
    North,
    South,
    East,
    West,
}

impl Direction {
    /// Row displacement of one step in this direction.
    pub open spec fn d_row(self) -> int {
        match self {
            Direction::North => -1,
            Direction::South => 1,
            Direction::East => 0,
            Direction::West => 0,
        }
    }

    /// Column displacement of one step in this direction.
    pub open spec fn d_col(self) -> int {
        match self {
            Direction::North => 0,
            Direction::South => 0,
            Direction::East => 1,
            Direction::West => -1,
        }
    }

    /// The opposite direction.
    pub open spec fn flip_spec(self) -> Direction {
        match self {
            Direction::North => Direction::South,
            Direction::South => Direction::North,
            Direction::East => Direction::West,
            Direction::West => Direction::East,
        }
    }

    /// Returns the opposite direction.
    pub fn flip(&self) -> (r: Direction)
        ensures
            r == self.flip_spec(),
    {
        match self {
            Direction::North => Direction::South,
            Direction::South => Direction::North,
            Direction::East => Direction::West,
            Direction::West => Direction::East,
        }
    }
}

impl Position {
    /// Whether the position lies on the grid.
    pub open spec fn on_grid(self) -> bool {
        self.0 < SIZE && self.1 < SIZE
    }

    /// The destination of `multiplier` steps in `direction`, or `None` when
    /// that destination would leave the grid.
    pub open spec fn move_by_spec(self, direction: Direction, multiplier: usize) -> Option<
        Position,
    > {
        let nr = self.0 + direction.d_row() * multiplier;
        let nc = self.1 + direction.d_col() * multiplier;
        if 0 <= nr < SIZE && 0 <= nc < SIZE {
            Some(Position(nr as usize, nc as usize))
        } else {
            None
        }
    }

    /// Moves `multiplier` steps in `direction`, failing instead of leaving
    /// the grid.
    pub fn move_by(&self, direction: Direction, multiplier: usize) -> (r: Option<Position>)
        ensures
            r == self.move_by_spec(direction, multiplier),
    {
        let (dr, dc): (i8, i8) = match direction {
            Direction::North => (-1, 0),
            Direction::South => (1, 0),
            Direction::East => (0, 1),
            Direction::West => (0, -1),
        };
        let row = match Self::bounded(self.0, dr, multiplier) {
            Some(v) => v,
            None => {
                return None;
            },
        };
        let col = match Self::bounded(self.1, dc, multiplier) {
            Some(v) => v,
            None => {
                return None;
            },
        };
        Some(Position(row, col))
    }

    /// One coordinate of a move: `start + step * multiplier`, if it stays
    /// within `0 .. SIZE`.
    fn bounded(start: usize, step: i8, multiplier: usize) -> (r: Option<usize>)
        requires
            -1 <= step <= 1,
        ensures
            r matches Some(v) ==> v == start + step * multiplier && v < SIZE,
            r is None ==> !(0 <= start + step * multiplier < SIZE),
    {
        proof {
            assert(step == 0 ==> step * multiplier == 0) by (nonlinear_arith);
            assert(step == 1 ==> step * multiplier == multiplier) by (nonlinear_arith);
            assert(step == -1 ==> step * multiplier == -(multiplier as int)) by (nonlinear_arith);
        }
        let v = if step == 0 {
            start
        } else if step == 1 {
            match start.checked_add(multiplier) {
                Some(v) => v,
                None => {
                    return None;
                },
            }
        } else {
            match start.checked_sub(multiplier) {
                Some(v) => v,
                None => {
                    return None;
                },
            }
        };
        if v < SIZE {
            Some(v)
        } else {
            None
        }
    }
}

/// The world: a square grid of cells and the player's cursor. Cells are
/// stored row-major; the cell at `Position(r, c)` is entry `r * SIZE + c`.
pub struct World {
    pub grid: Vec<Item>,
    pub cursor: Position,
}

impl World {
    /// Structural invariant: the grid has exactly `SIZE * SIZE` cells and
    /// the cursor is on the grid.
    pub open spec fn wf(self) -> bool {
        self.grid@.len() == SIZE * SIZE && self.cursor.on_grid()
    }

    /// The row-major index of an on-grid position.
    pub open spec fn index_spec(position: Position) -> int {
        position.0 * SIZE + position.1
    }

    /// The item held by the cell at an on-grid position.
    pub open spec fn cell(self, position: Position) -> Item {
        self.grid@[Self::index_spec(position)]
    }

    /// An empty world: every cell empty, the cursor at the origin.
    pub fn new() -> (r: World)
        ensures
            r.wf(),
            r.cursor == (Position(0, 0)),
            forall|p: Position| p.on_grid() ==> r.cell(p) == Item::Empty,
    {
        let mut grid: Vec<Item> = Vec::new();
        let mut i: usize = 0;
        while i < SIZE * SIZE
            invariant
                i <= SIZE * SIZE,
                grid@.len() == i,
                forall|j: int| 0 <= j < i ==> grid@[j] == Item::Empty,
            decreases SIZE * SIZE - i,
        {
            grid.push(Item::Empty);
            i += 1;
        }
        let r = World { grid, cursor: Position(0, 0) };
        proof {
            assert forall|p: Position| p.on_grid() implies r.cell(p) == Item::Empty by {
                lemma_index_bounds(p);
            }
        }
        r
    }

    /// The side length of the grid.
    pub fn size(&self) -> (r: usize)
        ensures
            r == SIZE,
    {
        SIZE
    }

    /// The item at an on-grid position.
    pub fn get(&self, position: Position) -> (r: Item)
        requires
            self.wf(),
            position.on_grid(),
        ensures
            r == self.cell(position),
    {
        proof {
            lemma_index_bounds(position);
        }
        self.grid[position.0 * SIZE + position.1]
    }

    /// Puts `item` into the cell at `position`; no other cell changes.
    pub fn place(&mut self, item: Item, position: Position)
        requires
            old(self).wf(),
            position.on_grid(),
        ensures
            final(self).wf(),
            final(self).cursor == old(self).cursor,
            final(self).cell(position) == item,
            forall|p: Position|
                p.on_grid() && p != position ==> final(self).cell(p) == old(self).cell(p),
    {
        proof {
            lemma_index_bounds(position);
        }
        let idx = position.0 * SIZE + position.1;
        self.grid.set(idx, item);
        proof {
            assert forall|p: Position|
                p.on_grid() && p != position implies self.cell(p) == old(self).cell(p) by {
                lemma_index_bounds(p);
                lemma_index_injective(p, position);
            }
        }
    }

    /// Clears the cell at `position`.
    pub fn destroy(&mut self, position: Position)
        requires
            old(self).wf(),
            position.on_grid(),
        ensures
            final(self).wf(),
            final(self).cursor == old(self).cursor,
            final(self).cell(position) == Item::Empty,
            forall|p: Position|
                p.on_grid() && p != position ==> final(self).cell(p) == old(self).cell(p),
    {
        self.place(Item::Empty, position);
    }
}

/// The row-major index of an on-grid position is a valid grid index.
proof fn lemma_index_bounds(p: Position)
    requires
        p.on_grid(),
    ensures
        0 <= World::index_spec(p) < SIZE * SIZE,
{
    assert(p.0 * SIZE + p.1 < SIZE * SIZE) by (nonlinear_arith)
        requires
            p.0 < SIZE,
            p.1 < SIZE,
    ;
}

/// Row-major indexing is injective on the grid.
proof fn lemma_index_injective(p: Position, q: Position)
    requires
        p.on_grid(),
        q.on_grid(),
        p != q,
    ensures
        World::index_spec(p) != World::index_spec(q),
{
    assert(p.0 * SIZE + p.1 != q.0 * SIZE + q.1) by (nonlinear_arith)
        requires
            p.0 < SIZE,
            p.1 < SIZE,
            q.0 < SIZE,
            q.1 < SIZE,
            p.0 != q.0 || p.1 != q.1,
    ;
}

} // verus!
