//! Hex-grid addressing and windowed tile streaming.
//!
//! The crate maps continuous world positions onto a flat-top hexagonal
//! grid in offset coordinates, and keeps a square window of cells
//! materialized around a moving reference point, telling the host which
//! tiles to create and destroy as the reference crosses cell boundaries.

pub mod coords;
pub mod window;
