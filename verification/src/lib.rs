//! A Minesweeper solver that works by deduction alone: count constraints,
//! a propagation sweep, border partitioning and a backtracking consistency
//! search that proves cells safe or mined by refutation.

pub mod board;
pub mod borders;
pub mod color;
pub mod constraint;
pub mod driver;
pub mod grid;
pub mod laws;
pub mod prng;
pub mod propagation;
pub mod render;
pub mod rest;
pub mod search;
pub mod session;
pub mod solutions;
pub mod truth;
