//! A procedurally generated island and the plants and animals that live on it.
//!
//! Every real quantity (elevations, positions, angles) is held in fixed point,
//! see [`fixed`], so that all arithmetic is exact integer arithmetic.
pub mod fixed;
pub mod random;
pub mod scene;
pub mod utils;
