//! Conway's Game of Life on an unbounded grid, in a sparse representation:
//! a board stores only the coordinates of its live cells, next to a rendering
//! hint. The generation engine is verified: advancing a board yields exactly
//! the survivors (live cells with two or three live neighbours) and the
//! births (dead cells with three live neighbours), and the hint never
//! shrinks while covering every birth.

pub mod board;
pub mod engine;
