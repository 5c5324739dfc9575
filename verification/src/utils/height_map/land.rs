//! Land growth: the island grows from the centre of the map, one cell at a
//! time, into cells that share an edge with land.
use crate::fixed::Fixed;
use crate::random::random_in_range;
use crate::utils::height_map::grid::{
    can_grow, count_cells, count_in_row, count_in_rows, grown_from, in_bounds, is_land,
    land_connected,
    lemma_count_bounds, lemma_count_update, lemma_frontier_exists, lemma_land_connected_grows,
    lemma_land_connected_self, only_gained_land,
};
use crate::utils::height_map::LAND_VALUE;
use rand::rngs::StdRng;
use vstd::prelude::*;

verus! {

/// The number of land cells once the centre cell has been made land.
pub open spec fn land_after_seeding<const W: usize, const H: usize>(
    height_map: [[Fixed; H]; W],
) -> nat {
    count_cells(height_map, LAND_VALUE) + if height_map[W as int / 2][H as int / 2] == LAND_VALUE {
        0nat
    } else {
        1nat
    }
}

/// The number of land cells that `create_land` leaves: `max_size`, or those
/// that the seeded map holds already if they are more.
pub open spec fn grown_size<const W: usize, const H: usize>(
    height_map: [[Fixed; H]; W],
    max_size: usize,
) -> nat {
    if land_after_seeding(height_map) >= max_size {
        land_after_seeding(height_map)
    } else {
        max_size as nat
    }
}

/// Counts the cells of the map that hold `value`.
fn count_value<const W: usize, const H: usize>(height_map: &[[Fixed; H]; W], value: Fixed) -> (count:
    u128)
    ensures
        count == count_cells(*height_map, value),
{
    let mut count: u128 = 0;
    let mut x: usize = 0;
    while x < W
        invariant
            x <= W,
            count == count_in_rows(*height_map, value, x as nat),
            count <= x * H,
        decreases W - x,
    {
        let mut y: usize = 0;
        let ghost above = count;
        while y < H
            invariant
                x < W,
                y <= H,
                above == count_in_rows(*height_map, value, x as nat),
                above <= x * H,
                count == above + count_in_row(height_map[x as int], value, y as nat),
                count <= above + y,
            decreases H - y,
        {
            assert(x * H + y + 1 <= 0xffff_ffff_ffff_ffff * 0xffff_ffff_ffff_ffff
                + 0xffff_ffff_ffff_ffff) by (nonlinear_arith)
                requires
                    0 <= x <= 0xffff_ffff_ffff_ffff,
                    0 <= y < H,
                    H <= 0xffff_ffff_ffff_ffff,
            ;
            if height_map[x][y] == value {
                count = count + 1;
            }
            y += 1;
        }
        assert(x * H + H == (x + 1) * H) by (nonlinear_arith);
        x += 1;
    }
    count
}

fn can_grow_at<const W: usize, const H: usize>(
    height_map: &[[Fixed; H]; W],
    x: usize,
    y: usize,
) -> (valid: bool)
    requires
        x < W,
        y < H,
    ensures
        valid == can_grow(*height_map, x as int, y as int),
{
    let have_land_near: bool = (y > 0 && height_map[x][y - 1] == LAND_VALUE) || (x > 0
        && height_map[x - 1][y] == LAND_VALUE) || (x + 1 < W && height_map[x + 1][y]
        == LAND_VALUE) || (y + 1 < H && height_map[x][y + 1] == LAND_VALUE);
    have_land_near && height_map[x][y] != LAND_VALUE
}

/// Tells whether land may grow into the cell `(x, y)`: it is a cell of the
/// map that is not land, and one of the four cells that share an edge with it
/// is land.
pub fn is_valid_height_map_position<const W: usize, const H: usize>(
    x: isize,
    y: isize,
    height_map: &[[Fixed; H]; W],
) -> (valid: bool)
    ensures
        valid == can_grow(*height_map, x as int, y as int),
{
    if x < 0 || y < 0 {
        return false;
    }
    let cell_x: usize = x as usize;
    let cell_y: usize = y as usize;
    cell_x < W && cell_y < H && can_grow_at(height_map, cell_x, cell_y)
}

/// Lists, row by row, the cells into which land may grow.
fn growable_positions<const W: usize, const H: usize>(height_map: &[[Fixed; H]; W]) -> (positions:
    Vec<(usize, usize)>)
    ensures
        forall|k: int|
            0 <= k < positions.len() ==> can_grow(
                *height_map,
                (#[trigger] positions[k]).0 as int,
                positions[k].1 as int,
            ),
        forall|x: int, y: int|
            can_grow(*height_map, x, y) ==> positions@.contains((x as usize, y as usize)),
{
    let mut positions: Vec<(usize, usize)> = Vec::new();
    let mut x: usize = 0;
    while x < W
        invariant
            x <= W,
            forall|k: int|
                0 <= k < positions.len() ==> can_grow(
                    *height_map,
                    (#[trigger] positions[k]).0 as int,
                    positions[k].1 as int,
                ),
            forall|i: int, j: int|
                i < x && can_grow(*height_map, i, j) ==> positions@.contains(
                    (i as usize, j as usize),
                ),
        decreases W - x,
    {
        let mut y: usize = 0;
        while y < H
            invariant
                x < W,
                y <= H,
                forall|k: int|
                    0 <= k < positions.len() ==> can_grow(
                        *height_map,
                        (#[trigger] positions[k]).0 as int,
                        positions[k].1 as int,
                    ),
                forall|i: int, j: int|
                    (i < x || (i == x && j < y)) && can_grow(*height_map, i, j)
                        ==> positions@.contains((i as usize, j as usize)),
            decreases H - y,
        {
            let ghost earlier = positions@;
            if can_grow_at(height_map, x, y) {
                positions.push((x, y));
                assert(positions@.last() == (x, y));
            }
            proof {
                assert forall|i: int, j: int|
                    (i < x || (i == x && j < y + 1)) && can_grow(
                        *height_map,
                        i,
                        j,
                    ) implies positions@.contains((i as usize, j as usize)) by {
                    if i == x && j == y {
                        assert(positions@[positions@.len() - 1] == (x, y));
                    } else {
                        assert(earlier.contains((i as usize, j as usize)));
                        let k = choose|k: int|
                            0 <= k < earlier.len() && earlier[k] == (i as usize, j as usize);
                        assert(positions@[k] == (i as usize, j as usize));
                    }
                }
            }
            y += 1;
        }
        x += 1;
    }
    positions
}

/// The number of random draws after which a position is drawn from the list
/// of all suitable cells instead: the number of cells of the map, or the
/// greatest number there is where the map has more cells than that.
pub(crate) fn sampling_budget<const W: usize, const H: usize>() -> (budget: usize)
    ensures
        budget == if W * H <= usize::MAX {
            W * H
        } else {
            usize::MAX as int
        },
{
    match W.checked_mul(H) {
        Some(cells) => cells,
        None => usize::MAX,
    }
}

/// Picks at random a cell into which land may grow.
///
/// Cells are drawn at random and rejected until one is suitable. After as
/// many draws as the map has cells the position is drawn among the suitable
/// cells directly, so the search always ends.
pub fn get_height_map_position<const W: usize, const H: usize>(
    height_map: &[[Fixed; H]; W],
    rng: &mut StdRng,
) -> (position: (usize, usize))
    requires
        exists|x: int, y: int| can_grow(*height_map, x, y),
    ensures
        can_grow(*height_map, position.0 as int, position.1 as int),
{
    let budget: usize = sampling_budget::<W, H>();
    let mut draws: usize = 0;
    while draws < budget
        invariant
            W > 0,
            H > 0,
        decreases budget - draws,
    {
        let x: usize = random_in_range(rng, 0, W);
        let y: usize = random_in_range(rng, 0, H);
        if can_grow_at(height_map, x, y) {
            return (x, y);
        }
        draws += 1;
    }
    let candidates = growable_positions(height_map);
    proof {
        let (x, y) = choose|x: int, y: int| can_grow(*height_map, x, y);
        assert(candidates@.contains((x as usize, y as usize)));
    }
    let index: usize = random_in_range(rng, 0, candidates.len());
    candidates[index]
}

/// Grows the island around the centre of the map to `max_size` cells.
///
/// The centre cell becomes land. Then, until the map holds `max_size` land
/// cells, a random cell that is not land but shares an edge with land becomes
/// land. A map that holds that many land cells already, once the centre is
/// land, is left with those. A map that held no land before thus ends with
/// exactly `max_size` land cells (one, if `max_size` is zero), all connected
/// to the centre.
pub fn create_land<const W: usize, const H: usize>(
    height_map: &mut [[Fixed; H]; W],
    max_size: usize,
    rng: &mut StdRng,
)
    requires
        W > 0,
        H > 0,
        max_size <= W * H,
    ensures
        is_land(*final(height_map), W as int / 2, H as int / 2),
        only_gained_land(*old(height_map), *final(height_map)),
        count_cells(*final(height_map), LAND_VALUE) == grown_size(*old(height_map), max_size),
        forall|x: int, y: int|
            is_land(*final(height_map), x, y) ==> grown_from(*old(height_map), *final(height_map), (x, y))
                || land_connected(*final(height_map), (W as int / 2, H as int / 2), (x, y)),
        count_cells(*old(height_map), LAND_VALUE) == 0 ==> forall|x: int, y: int|
            is_land(*final(height_map), x, y) ==> land_connected(
                *final(height_map),
                (W as int / 2, H as int / 2),
                (x, y),
            ),
        count_cells(*old(height_map), LAND_VALUE) == 0 && max_size >= 1 ==> count_cells(
            *final(height_map),
            LAND_VALUE,
        ) == max_size,
{
    let half_w: usize = W / 2;
    let half_h: usize = H / 2;
    let ghost before = *height_map;
    let ghost centre = (half_w as int, half_h as int);

    height_map[half_w][half_h] = LAND_VALUE;

    let ghost seeded = *height_map;
    proof {
        lemma_count_update(before, seeded, centre.0, centre.1, LAND_VALUE);
        assert forall|x: int, y: int| is_land(seeded, x, y) implies grown_from(
            before,
            seeded,
            (x, y),
        ) || land_connected(seeded, centre, (x, y)) by {
            lemma_land_connected_self(seeded, (x, y));
            if !(x == centre.0 && y == centre.1) {
                assert(is_land(before, x, y));
            }
        }
    }

    let mut land_count: u128 = count_value(height_map, LAND_VALUE);
    while land_count < max_size as u128
        invariant
            centre == (W as int / 2, H as int / 2),
            is_land(*height_map, centre.0, centre.1),
            only_gained_land(before, *height_map),
            land_count == count_cells(*height_map, LAND_VALUE),
            land_after_seeding(before) <= land_count,
            land_count <= max_size || land_count == land_after_seeding(before),
            max_size <= W * H,
            forall|x: int, y: int|
                is_land(*height_map, x, y) ==> grown_from(before, *height_map, (x, y))
                    || land_connected(*height_map, centre, (x, y)),
        decreases max_size - land_count,
    {
        proof {
            lemma_count_bounds(*height_map, LAND_VALUE);
            let (bx, by) = choose|x: int, y: int|
                in_bounds::<W, H>(x, y) && height_map[x][y] != LAND_VALUE;
            lemma_frontier_exists(*height_map, centre, (bx, by));
        }
        let (x, y) = get_height_map_position(height_map, rng);
        let ghost previous = *height_map;

        height_map[x][y] = LAND_VALUE;
        land_count += 1;

        proof {
            lemma_count_update(previous, *height_map, x as int, y as int, LAND_VALUE);
            lemma_growth_keeps_connected(before, previous, *height_map, centre, (x as int, y as int));
        }
    }
    proof {
        if count_cells(before, LAND_VALUE) == 0 {
            lemma_count_bounds(before, LAND_VALUE);
            assert forall|x: int, y: int| is_land(*height_map, x, y) implies land_connected(
                *height_map,
                centre,
                (x, y),
            ) by {
                if grown_from(before, *height_map, (x, y)) {
                    let s = choose|s: (int, int)|
                        is_land(before, s.0, s.1) && land_connected(*height_map, s, (x, y));
                    assert(in_bounds::<W, H>(s.0, s.1));
                    assert(false);
                }
            }
        }
    }
}

/// Making a growable cell land keeps every land cell connected to where it
/// grew from.
proof fn lemma_growth_keeps_connected<const W: usize, const H: usize>(
    before: [[Fixed; H]; W],
    previous: [[Fixed; H]; W],
    current: [[Fixed; H]; W],
    centre: (int, int),
    c: (int, int),
)
    requires
        can_grow(previous, c.0, c.1),
        current[c.0][c.1] == LAND_VALUE,
        forall|i: int, j: int|
            in_bounds::<W, H>(i, j) && !(i == c.0 && j == c.1) ==> current[i][j] == previous[i][j],
        forall|x: int, y: int|
            is_land(previous, x, y) ==> grown_from(before, previous, (x, y)) || land_connected(
                previous,
                centre,
                (x, y),
            ),
    ensures
        forall|x: int, y: int|
            is_land(current, x, y) ==> grown_from(before, current, (x, y)) || land_connected(
                current,
                centre,
                (x, y),
            ),
{
    assert forall|x: int, y: int| is_land(previous, x, y) implies is_land(current, x, y) by {}
    assert forall|x: int, y: int| is_land(current, x, y) implies grown_from(
        before,
        current,
        (x, y),
    ) || land_connected(current, centre, (x, y)) by {
        // The cell through which (x, y) is reached: itself if it was land
        // already, else the land neighbour of the new cell.
        let d: (int, int) = if !(x == c.0 && y == c.1) {
            (x, y)
        } else if is_land(previous, x, y - 1) {
            (x, y - 1)
        } else if is_land(previous, x - 1, y) {
            (x - 1, y)
        } else if is_land(previous, x + 1, y) {
            (x + 1, y)
        } else {
            (x, y + 1)
        };
        assert(is_land(previous, d.0, d.1));
        if land_connected(previous, centre, d) {
            lemma_land_connected_grows(previous, current, centre, d, (x, y));
        } else {
            let s = choose|s: (int, int)|
                is_land(before, s.0, s.1) && land_connected(previous, s, d);
            lemma_land_connected_grows(previous, current, s, d, (x, y));
        }
    }
}

} // verus!
