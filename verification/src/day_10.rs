//! Pipe-grid puzzle: trace the closed loop of pipes through the start cell,
//! report the step count to its farthest point, and count the cells the loop
//! encloses.

pub mod classify;
pub mod flood;
pub mod grid;
pub mod laws;
pub mod trace;

pub use grid::Dir;
pub use grid::GridError;
pub use grid::RedirectError;
pub use grid::Space;
pub use grid::Tile;
pub use trace::Input;
pub use trace::input_generator;
pub use trace::solve_1;
pub use classify::classify_parity;
pub use classify::solve_2;
pub use flood::classify_flood;
