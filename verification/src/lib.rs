//! Conway's Game of Life on an unbounded plane, represented as a set of
//! finite rectangular regions that grow, shrink and move as live cells spread.

pub mod game_of_life;
pub mod gol;
