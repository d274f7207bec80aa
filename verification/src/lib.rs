//! Verified solvers for a collection of small grid, list and string puzzles.
//!
//! The centrepiece is [`heat`], a shortest-path search over a weighted grid
//! in which no more than a fixed number of consecutive steps may go in the
//! same direction. The remaining modules each solve one self-contained
//! puzzle; [`text`] holds the scanning helpers they share.

pub mod text;
pub mod heat;
pub mod cubes;
pub mod camel;
pub mod sums;
pub mod races;
pub mod history;
pub mod lenses;
pub mod scratchcards;
pub mod galaxies;
pub mod beams;
pub mod pipes;
pub mod network;
pub mod springs;
pub mod calibration;
pub mod almanac;
pub mod winnings;
pub mod mirrors;
pub mod schematic;
pub mod platform;
