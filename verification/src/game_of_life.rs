//! A chunk-based sketch of the simulation: the world as a map from chunk
//! positions to fixed-size double-buffered chunks.

use std::collections::HashMap;
use vstd::prelude::*;

verus! {

/// Position on the grid.
#[derive(Debug, Copy, Clone, PartialEq, Eq, Hash, Structural)]
pub struct Position {
    pub x: isize,
    pub y: isize,
}

impl Position {
    pub fn new(x: isize, y: isize) -> (r: Self)
        ensures
            r.x == x,
            r.y == y,
    {
        Position { x, y }
    }
}

/// Enum for the different states a cell can be in
#[derive(Debug, Copy, Clone, PartialEq, Eq, Structural)]
pub enum Cell {
    Alive,
    Dead,
}

/// Main game of life simulation struct
pub struct GameOfLife {
    pub chunks: HashMap<Position, Chunk>,
}

impl GameOfLife {
    pub fn new() -> (r: Self)
        ensures
            r.chunks@ == Map::<Position, Chunk>::empty(),
    {
        GameOfLife { chunks: HashMap::new() }
    }
}

/// Chunk of the GOL simulation area
pub struct Chunk {
    // Need to keep the old state so it can still be used in neighbour counts of other chunks.
    pub current: Vec<Vec<Cell>>,
    pub next: Vec<Vec<Cell>>,
}

impl Chunk {
    /// Both buffers are square grids of the same size.
    pub open spec fn wf(self, size: int) -> bool {
        &&& self.current@.len() == size
        &&& forall|i: int|
            0 <= i < self.current@.len() ==> (#[trigger] self.current@[i])@.len() == size
        &&& self.next@.len() == size
        &&& forall|i: int| 0 <= i < self.next@.len() ==> (#[trigger] self.next@[i])@.len() == size
    }

    /// Initialise a new chunk with the given size.
    pub fn new(size: usize) -> (r: Self)
        ensures
            r.wf(size as int),
            forall|i: int, j: int|
                0 <= i < size && 0 <= j < size ==> r.current@[i]@[j] == Cell::Dead,
            forall|i: int, j: int| 0 <= i < size && 0 <= j < size ==> r.next@[i]@[j] == Cell::Dead,
    {
        Chunk { current: dead_square(size), next: dead_square(size) }
    }

    /// Get the state of a cell in the current state.
    /// Expects the coordinates of the cell within this chunk,
    /// returns [`Err`] if out of bounds.
    pub fn get_cell(&self, x: usize, y: usize) -> (r: Result<Cell, ()>)
        ensures
            r == (if x < self.current@.len() && y < self.current@[x as int]@.len() {
                Result::<Cell, ()>::Ok(self.current@[x as int]@[y as int])
            } else {
                Result::<Cell, ()>::Err(())
            }),
    {
        if x < self.current.len() {
            let col = &self.current[x];
            if y < col.len() {
                Ok(col[y])
            } else {
                Err(())
            }
        } else {
            Err(())
        }
    }

    /// Set the state of a cell in the next state.
    /// Expects the coordinate of the cell within this chunk,
    /// returns [`Err`] if out of bounds.
    pub fn set_cell(&mut self, x: usize, y: usize, state: Cell) -> (r: Result<(), ()>)
        ensures
            old(self).current == final(self).current,
            final(self).next@.len() == old(self).next@.len(),
            (r is Ok) == (x < old(self).next@.len() && y < old(self).next@[x as int]@.len()),
            forall|i: int|
                0 <= i < old(self).next@.len() && i != x ==> final(self).next@[i] == old(
                    self,
                ).next@[i],
            r is Ok ==> final(self).next@[x as int]@ == old(self).next@[x as int]@.update(
                y as int,
                state,
            ),
            r is Err ==> final(self).next == old(self).next,
    {
        if x < self.next.len() {
            let col_len = self.next[x].len();
            if y < col_len {
                self.next[x][y] = state;
                Ok(())
            } else {
                Err(())
            }
        } else {
            Err(())
        }
    }
}

/// A square all-dead buffer.
fn dead_square(size: usize) -> (g: Vec<Vec<Cell>>)
    ensures
        g@.len() == size,
        forall|i: int| 0 <= i < size ==> (#[trigger] g@[i])@.len() == size,
        forall|i: int, j: int| 0 <= i < size && 0 <= j < size ==> g@[i]@[j] == Cell::Dead,
{
    let mut g: Vec<Vec<Cell>> = Vec::new();
    let mut i: usize = 0;
    while i < size
        invariant
            i <= size,
            g@.len() == i,
            forall|a: int| 0 <= a < i ==> (#[trigger] g@[a])@.len() == size,
            forall|a: int, b: int| 0 <= a < i && 0 <= b < size ==> g@[a]@[b] == Cell::Dead,
        decreases size - i,
    {
        let mut col: Vec<Cell> = Vec::new();
        let mut j: usize = 0;
        while j < size
            invariant
                j <= size,
                col@.len() == j,
                forall|b: int| 0 <= b < j ==> col@[b] == Cell::Dead,
            decreases size - j,
        {
            col.push(Cell::Dead);
            j += 1;
        }
        g.push(col);
        i += 1;
    }
    g
}

} // verus!
