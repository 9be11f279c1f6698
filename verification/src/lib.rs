//! Core logic of a grid-based mine-clearing puzzle.
//!
//! The library owns the board state: it places mines at random while keeping
//! one designated start cell safe, precomputes the count of mines around every
//! cell, and propagates reveals through connected regions of zero-hint cells.
//! Rendering and program entry points live outside the library.

pub mod field;
pub mod laws;
pub mod model;
