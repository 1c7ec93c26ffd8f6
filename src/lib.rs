//! Wave function collapse over a rectangular grid: entropy-guided choice,
//! one-hop constraint propagation and depth-first backtracking with undo.

pub mod rules;
pub mod board;
pub mod solver;
