//! Cheapest route across a grid of heat losses when no more than a fixed
//! number of consecutive steps may go in the same direction.

pub mod grid;
pub mod route;
pub mod frontier;
pub mod tree;
pub mod search;
pub mod laws;
pub mod moves;
