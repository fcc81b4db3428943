//! Solvers for a collection of small text puzzles.
//!
//! Each `day_*` module parses one puzzle's textual input and computes its
//! numeric answers. The grid subsystem of `day_10` (loop tracing and interior
//! classification) carries the bulk of the specifications and proofs.

pub mod day_01;
pub mod day_02;
pub mod day_03;
pub mod day_04;
pub mod day_05;
pub mod day_06;
pub mod day_07;
pub mod day_08;
pub mod day_09;
pub mod day_10;
pub mod text;
