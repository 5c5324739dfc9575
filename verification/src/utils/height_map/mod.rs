//! The height map: a `W` by `H` grid of elevations in three bands (sea, lake
//! and land), and the generators that grow land, carve lakes and smooth it.
use crate::fixed::{Fixed, UNIT};
use vstd::prelude::*;

pub mod grid;
pub mod lake;
pub mod land;
pub mod smooth;

pub use lake::{
    carve_candidate, create_lake, create_lakes, get_valid_lake_position, get_valid_neightbors,
    has_lake_site, is_valid_lake_position, lake_size_for,
};
pub use land::{create_land, get_height_map_position, is_valid_height_map_position};
pub use smooth::{apply_mask, smooth_height_map};

verus! {

/// The elevation of a land cell.
pub const LAND_VALUE: Fixed = UNIT;

/// The elevation of a lake cell.
pub const LAKE_VALUE: Fixed = 0;

/// The elevation of a sea cell.
pub const SEA_VALUE: Fixed = -UNIT;

/// Creates a height map in which every cell holds `default_value`.
pub fn init_height_map<const W: usize, const H: usize>(default_value: Fixed) -> (height_map: [[Fixed; H]; W])
    ensures
        forall|x: int, y: int| 0 <= x < W && 0 <= y < H ==> height_map[x][y] == default_value,
{
    [[default_value; H]; W]
}

} // verus!
