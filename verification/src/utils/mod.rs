//! Terrain utilities.
pub mod height_map;
