//! A single-corridor maze solver.
//!
//! The library models a rectangular grid of walls and open cells with one
//! start and one end marker ([`grid`]), traces the unique non-branching
//! corridor from start to end ([`path`]), and counts "cheats": pairs of
//! path positions that are close in the grid but far apart along the path,
//! so that stepping off the corridor between them would save time
//! ([`cheats`]).

pub mod cheats;
pub mod grid;
pub mod order;
pub mod path;
