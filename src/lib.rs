//! Constraint propagation over a 9×9 grid of digit candidates.

pub mod cell;
pub mod grid;
