//! Space-filling curves on square grids.
//!
//! A Hilbert curve of a given order is built by a recursive turtle
//! traversal; a Moore curve stitches four transformed copies of a
//! Hilbert curve into one closed loop.  Both expose exact bidirectional
//! mappings between a linear visiting index and a 2D grid coordinate.

pub mod curve;
pub mod hilbert;
pub mod moore;
pub mod turtle;
