//! Lake carving: lakes grow from random seeds over cells that have no sea
//! around them, so that sea, land and lakes stay apart.
use crate::fixed::Fixed;
use crate::random::random_in_range;
use crate::utils::height_map::grid::{
    adjacent8, cell_is, count_cells, in_bounds, is_lake_site, lake_connected,
    lakes_away_from_sea, lemma_count_update, lemma_lake_connected_grows,
    lemma_lake_connected_self, no_sea_around, only_carved_lakes,
};
use crate::utils::height_map::land::sampling_budget;
use crate::utils::height_map::{LAKE_VALUE, SEA_VALUE};
use rand::rngs::StdRng;
use vstd::prelude::*;

verus! {

/// The smallest size that is drawn for a single lake.
pub const MIN_LAKE_SIZE: usize = 3;

/// The step from a cell to the `k`-th of the eight cells around it, row by
/// row: first the three with the smaller second coordinate, last the three
/// with the greater.
pub open spec fn neighbor_offset(k: int) -> (int, int) {
    if k == 0 {
        (-1, -1)
    } else if k == 1 {
        (0, -1)
    } else if k == 2 {
        (1, -1)
    } else if k == 3 {
        (-1, 0)
    } else if k == 4 {
        (1, 0)
    } else if k == 5 {
        (-1, 1)
    } else if k == 6 {
        (0, 1)
    } else {
        (1, 1)
    }
}

/// Those among the first `k` of the eight cells around `(x, y)` that are
/// cells of the map.
pub open spec fn neighbors_among<const W: usize, const H: usize>(x: int, y: int, k: nat) -> Seq<
    (usize, usize),
>
    decreases k,
{
    if k == 0 {
        Seq::empty()
    } else {
        let earlier = neighbors_among::<W, H>(x, y, (k - 1) as nat);
        let nx = x + neighbor_offset(k - 1).0;
        let ny = y + neighbor_offset(k - 1).1;
        if in_bounds::<W, H>(nx, ny) {
            earlier.push((nx as usize, ny as usize))
        } else {
            earlier
        }
    }
}

/// The cells of the map among the eight cells around `(x, y)`, in order.
pub open spec fn valid_neighbors<const W: usize, const H: usize>(x: int, y: int) -> Seq<
    (usize, usize),
> {
    neighbors_among::<W, H>(x, y, 8)
}

/// The total that `create_lakes` works towards: the requested one, but at
/// least one more than the smallest lake size.
pub open spec fn clamped_total(total_lake: usize) -> nat {
    if total_lake <= MIN_LAKE_SIZE {
        (MIN_LAKE_SIZE + 1) as nat
    } else {
        total_lake as nat
    }
}

/// Every listed neighbour of a cell is a cell of the map that shares an edge
/// or a corner with it.
pub proof fn lemma_neighbors_adjacent<const W: usize, const H: usize>(x: int, y: int, k: nat)
    requires
        k <= 8,
    ensures
        forall|i: int|
            0 <= i < neighbors_among::<W, H>(x, y, k).len() ==> adjacent8(
                (x, y),
                (
                    (#[trigger] neighbors_among::<W, H>(x, y, k)[i]).0 as int,
                    neighbors_among::<W, H>(x, y, k)[i].1 as int,
                ),
            ) && in_bounds::<W, H>(
                neighbors_among::<W, H>(x, y, k)[i].0 as int,
                neighbors_among::<W, H>(x, y, k)[i].1 as int,
            ),
    decreases k,
{
    if k > 0 {
        lemma_neighbors_adjacent::<W, H>(x, y, (k - 1) as nat);
        let earlier = neighbors_among::<W, H>(x, y, (k - 1) as nat);
        let all = neighbors_among::<W, H>(x, y, k);
        let nx = x + neighbor_offset(k - 1).0;
        let ny = y + neighbor_offset(k - 1).1;
        assert forall|i: int| 0 <= i < all.len() implies adjacent8(
            (x, y),
            ((#[trigger] all[i]).0 as int, all[i].1 as int),
        ) && in_bounds::<W, H>(all[i].0 as int, all[i].1 as int) by {
            if i < earlier.len() {
                assert(all[i] == earlier[i]);
            } else {
                assert(all[i] == (nx as usize, ny as usize));
                assert(0 <= nx <= usize::MAX && 0 <= ny <= usize::MAX);
            }
        }
    }
}

fn collect_neighbors<const W: usize, const H: usize>(x: i128, y: i128) -> (neighbors: Vec<
    (usize, usize),
>)
    requires
        isize::MIN <= x <= usize::MAX,
        isize::MIN <= y <= usize::MAX,
    ensures
        neighbors@ == valid_neighbors::<W, H>(x as int, y as int),
{
    let steps_x: [i128; 8] = [-1, 0, 1, -1, 1, -1, 0, 1];
    let steps_y: [i128; 8] = [-1, -1, -1, 0, 0, 1, 1, 1];
    let mut neighbors: Vec<(usize, usize)> = Vec::new();
    let mut k: usize = 0;
    while k < 8
        invariant
            k <= 8,
            isize::MIN <= x <= usize::MAX,
            isize::MIN <= y <= usize::MAX,
            forall|i: int| 0 <= i < 8 ==> steps_x[i] == neighbor_offset(i).0,
            forall|i: int| 0 <= i < 8 ==> steps_y[i] == neighbor_offset(i).1,
            neighbors@ == neighbors_among::<W, H>(x as int, y as int, k as nat),
        decreases 8 - k,
    {
        let nx: i128 = x + steps_x[k];
        let ny: i128 = y + steps_y[k];
        if nx >= 0 && nx < W as i128 && ny >= 0 && ny < H as i128 {
            neighbors.push((nx as usize, ny as usize));
        }
        k += 1;
    }
    neighbors
}

/// Lists the cells of the map among the eight cells around `(x, y)`, row by
/// row, see [`valid_neighbors`]. They are the candidates of a growing lake.
pub fn get_valid_neightbors<const W: usize, const H: usize>(x: isize, y: isize) -> (neighbors: Vec<
    (usize, usize),
>)
    ensures
        neighbors@ == valid_neighbors::<W, H>(x as int, y as int),
{
    collect_neighbors::<W, H>(x as i128, y as i128)
}

/// Tells whether a lake may hold the cell `(x, y)`: it lies on the map and
/// none of the cells around it is sea.
pub fn is_valid_lake_position<const W: usize, const H: usize>(
    height_map: &[[Fixed; H]; W],
    x: usize,
    y: usize,
) -> (valid: bool)
    ensures
        valid == is_lake_site(*height_map, x as int, y as int),
{
    if !(x < W && y < H) {
        return false;
    }
    let west: bool = x > 0;
    let east: bool = x + 1 < W;
    let north: bool = y > 0;
    let south: bool = y + 1 < H;
    let sea_near: bool = (west && north && height_map[x - 1][y - 1] == SEA_VALUE) || (north
        && height_map[x][y - 1] == SEA_VALUE) || (east && north && height_map[x + 1][y - 1]
        == SEA_VALUE) || (west && height_map[x - 1][y] == SEA_VALUE) || (east && height_map[x
        + 1][y] == SEA_VALUE) || (west && south && height_map[x - 1][y + 1] == SEA_VALUE) || (south
        && height_map[x][y + 1] == SEA_VALUE) || (east && south && height_map[x + 1][y + 1]
        == SEA_VALUE);
    proof {
        if sea_near {
            let (i, j): (int, int) = if west && north && height_map[x - 1][y - 1] == SEA_VALUE {
                (x - 1, y - 1)
            } else if north && height_map[x as int][y - 1] == SEA_VALUE {
                (x as int, y - 1)
            } else if east && north && height_map[x + 1][y - 1] == SEA_VALUE {
                (x + 1, y - 1)
            } else if west && height_map[x - 1][y as int] == SEA_VALUE {
                (x - 1, y as int)
            } else if east && height_map[x + 1][y as int] == SEA_VALUE {
                (x + 1, y as int)
            } else if west && south && height_map[x - 1][y + 1] == SEA_VALUE {
                (x - 1, y + 1)
            } else if south && height_map[x as int][y + 1] == SEA_VALUE {
                (x as int, y + 1)
            } else {
                (x + 1, y + 1)
            };
            assert(in_bounds::<W, H>(i, j) && adjacent8((x as int, y as int), (i, j))
                && height_map[i][j] == SEA_VALUE);
        }
    }
    !sea_near
}

/// Lists, row by row, the cells that a lake may hold.
fn lake_sites<const W: usize, const H: usize>(height_map: &[[Fixed; H]; W]) -> (positions: Vec<
    (usize, usize),
>)
    ensures
        forall|k: int|
            0 <= k < positions.len() ==> is_lake_site(
                *height_map,
                (#[trigger] positions[k]).0 as int,
                positions[k].1 as int,
            ),
        forall|x: int, y: int|
            is_lake_site(*height_map, x, y) ==> positions@.contains((x as usize, y as usize)),
{
    let mut positions: Vec<(usize, usize)> = Vec::new();
    let mut x: usize = 0;
    while x < W
        invariant
            x <= W,
            forall|k: int|
                0 <= k < positions.len() ==> is_lake_site(
                    *height_map,
                    (#[trigger] positions[k]).0 as int,
                    positions[k].1 as int,
                ),
            forall|i: int, j: int|
                i < x && is_lake_site(*height_map, i, j) ==> positions@.contains(
                    (i as usize, j as usize),
                ),
        decreases W - x,
    {
        let mut y: usize = 0;
        while y < H
            invariant
                x < W,
                y <= H,
                forall|k: int|
                    0 <= k < positions.len() ==> is_lake_site(
                        *height_map,
                        (#[trigger] positions[k]).0 as int,
                        positions[k].1 as int,
                    ),
                forall|i: int, j: int|
                    (i < x || (i == x && j < y)) && is_lake_site(*height_map, i, j)
                        ==> positions@.contains((i as usize, j as usize)),
            decreases H - y,
        {
            let ghost earlier = positions@;
            if is_valid_lake_position(height_map, x, y) {
                positions.push((x, y));
                assert(positions@.last() == (x, y));
            }
            proof {
                assert forall|i: int, j: int|
                    (i < x || (i == x && j < y + 1)) && is_lake_site(
                        *height_map,
                        i,
                        j,
                    ) implies positions@.contains((i as usize, j as usize)) by {
                    if i == x && j == y {
                        assert(positions@[positions@.len() - 1] == (x, y));
                    } else {
                        assert(earlier.contains((i as usize, j as usize)));
                        let k = choose|k: int|
                            0 <= k < earlier.len() && earlier[k] == (i as usize, j as usize);
                        assert(positions@[k] == (i as usize, j as usize));
                    }
                }
            }
            y += 1;
        }
        x += 1;
    }
    positions
}

/// Tells whether the map has a cell that a lake may hold.
pub fn has_lake_site<const W: usize, const H: usize>(height_map: &[[Fixed; H]; W]) -> (found: bool)
    ensures
        found == exists|x: int, y: int| is_lake_site(*height_map, x, y),
{
    let positions = lake_sites(height_map);
    proof {
        if exists|x: int, y: int| is_lake_site(*height_map, x, y) {
            let (x, y) = choose|x: int, y: int| is_lake_site(*height_map, x, y);
            assert(positions@.contains((x as usize, y as usize)));
        }
        if positions.len() > 0 {
            assert(is_lake_site(*height_map, positions[0].0 as int, positions[0].1 as int));
        }
    }
    positions.len() > 0
}

/// Picks at random a cell that a lake may hold.
///
/// Cells are drawn at random and rejected until one is suitable. After as
/// many draws as the map has cells the position is drawn among the suitable
/// cells directly, so the search always ends.
pub fn get_valid_lake_position<const W: usize, const H: usize>(
    height_map: &[[Fixed; H]; W],
    rng: &mut StdRng,
) -> (position: (usize, usize))
    requires
        exists|x: int, y: int| is_lake_site(*height_map, x, y),
    ensures
        is_lake_site(*height_map, position.0 as int, position.1 as int),
{
    let budget: usize = sampling_budget::<W, H>();
    let mut draws: usize = 0;
    while draws < budget
        invariant
            W > 0,
            H > 0,
        decreases budget - draws,
    {
        let x: usize = random_in_range(rng, 0, W);
        let y: usize = random_in_range(rng, 0, H);
        if is_valid_lake_position(height_map, x, y) {
            return (x, y);
        }
        draws += 1;
    }
    let candidates = lake_sites(height_map);
    proof {
        let (x, y) = choose|x: int, y: int| is_lake_site(*height_map, x, y);
        assert(candidates@.contains((x as usize, y as usize)));
    }
    let index: usize = random_in_range(rng, 0, candidates.len());
    candidates[index]
}

/// Whether `after` is `before` with the cell `seed` made a lake cell.
pub open spec fn with_lake_at<const W: usize, const H: usize>(
    before: [[Fixed; H]; W],
    after: [[Fixed; H]; W],
    seed: (int, int),
) -> bool {
    &&& in_bounds::<W, H>(seed.0, seed.1)
    &&& after[seed.0][seed.1] == LAKE_VALUE
    &&& forall|i: int, j: int|
        in_bounds::<W, H>(i, j) && (i, j) != seed ==> after[i][j] == before[i][j]
}

/// Whether every sea cell of `after` was sea in `before`.
spec fn no_new_sea<const W: usize, const H: usize>(
    before: [[Fixed; H]; W],
    after: [[Fixed; H]; W],
) -> bool {
    forall|i: int, j: int|
        in_bounds::<W, H>(i, j) && after[i][j] == SEA_VALUE ==> before[i][j] == SEA_VALUE
}

proof fn lemma_no_sea_kept<const W: usize, const H: usize>(
    before: [[Fixed; H]; W],
    after: [[Fixed; H]; W],
    x: int,
    y: int,
)
    requires
        no_sea_around(before, x, y),
        no_new_sea(before, after),
    ensures
        no_sea_around(after, x, y),
{
    assert forall|i: int, j: int|
        in_bounds::<W, H>(i, j) && adjacent8((x, y), (i, j)) implies after[i][j] != SEA_VALUE by {
        assert(before[i][j] != SEA_VALUE);
    }
}

/// What one lake has done to the map so far: every cell kept its value or
/// became a lake cell, and each such cell but the seed has no sea around it.
pub open spec fn carved_from_seed<const W: usize, const H: usize>(
    before: [[Fixed; H]; W],
    after: [[Fixed; H]; W],
    seed: (int, int),
) -> bool {
    forall|x: int, y: int|
        in_bounds::<W, H>(x, y) ==> after[x][y] == before[x][y] || (after[x][y] == LAKE_VALUE && (
        (x, y) == seed || no_sea_around(after, x, y)))
}

/// Whether each of `carved` is a lake cell connected to the seed.
spec fn all_reach_seed<const W: usize, const H: usize>(
    height_map: [[Fixed; H]; W],
    carved: Set<(int, int)>,
    seed: (int, int),
) -> bool {
    forall|c: (int, int)| #[trigger]
        carved.contains(c) ==> cell_is(height_map, c.0, c.1, LAKE_VALUE) && lake_connected(
            height_map,
            seed,
            c,
        )
}

/// Carving a candidate keeps what one lake has established.
proof fn lemma_carve_step<const W: usize, const H: usize>(
    before: [[Fixed; H]; W],
    previous: [[Fixed; H]; W],
    current: [[Fixed; H]; W],
    carved: Set<(int, int)>,
    seed: (int, int),
    d: (int, int),
    c: (int, int),
)
    requires
        carved_from_seed(before, previous, seed),
        all_reach_seed(previous, carved, seed),
        is_lake_site(previous, c.0, c.1),
        carved.contains(d),
        adjacent8(d, c),
        current[c.0][c.1] == LAKE_VALUE,
        forall|i: int, j: int|
            in_bounds::<W, H>(i, j) && !(i == c.0 && j == c.1) ==> current[i][j] == previous[i][j],
    ensures
        carved_from_seed(before, current, seed),
        all_reach_seed(current, carved.insert(c), seed),
        no_new_sea(previous, current),
{
    assert(no_new_sea(previous, current));
    assert forall|x: int, y: int| in_bounds::<W, H>(x, y) implies current[x][y] == before[x][y] || (
    current[x][y] == LAKE_VALUE && ((x, y) == seed || no_sea_around(current, x, y))) by {
        if x == c.0 && y == c.1 {
            lemma_no_sea_kept(previous, current, x, y);
        } else if previous[x][y] != before[x][y] && (x, y) != seed {
            lemma_no_sea_kept(previous, current, x, y);
        }
    }
    assert forall|x: int, y: int| cell_is(previous, x, y, LAKE_VALUE) implies cell_is(
        current,
        x,
        y,
        LAKE_VALUE,
    ) by {}
    assert forall|e: (int, int)| #[trigger] carved.insert(c).contains(e) implies cell_is(
        current,
        e.0,
        e.1,
        LAKE_VALUE,
    ) && lake_connected(current, seed, e) by {
        if e == c {
            lemma_lake_connected_grows(previous, current, seed, d, c);
        } else {
            assert(carved.contains(e));
            lemma_lake_connected_grows(previous, current, seed, e, e);
        }
    }
}

/// Whether no cell of the map around `(x, y)`, the seed left aside, is sea.
pub open spec fn no_sea_around_but<const W: usize, const H: usize>(
    height_map: [[Fixed; H]; W],
    x: int,
    y: int,
    seed: (int, int),
) -> bool {
    forall|i: int, j: int|
        in_bounds::<W, H>(i, j) && adjacent8((x, y), (i, j)) && (i, j) != seed
            ==> height_map[i][j] != SEA_VALUE
}

/// Whether a lake that is seeded at `seed` is bound to take in a further
/// cell: none of the cells around the seed is a lake cell yet, and one of
/// them has no sea around it, the seed left aside.
pub open spec fn can_spread<const W: usize, const H: usize>(
    height_map: [[Fixed; H]; W],
    seed: (int, int),
) -> bool {
    let around = valid_neighbors::<W, H>(seed.0, seed.1);
    &&& forall|k: int|
        0 <= k < around.len() ==> height_map[(#[trigger] around[k]).0 as int][around[k].1 as int]
            != LAKE_VALUE
    &&& exists|k: int|
        0 <= k < around.len() && no_sea_around_but(
            height_map,
            (#[trigger] around[k]).0 as int,
            around[k].1 as int,
            seed,
        )
}

/// Whether a cell other than `seed` that was no lake cell in `before` is one
/// in `after`.
pub open spec fn has_spread<const W: usize, const H: usize>(
    before: [[Fixed; H]; W],
    after: [[Fixed; H]; W],
    seed: (int, int),
) -> bool {
    exists|x: int, y: int|
        in_bounds::<W, H>(x, y) && (x, y) != seed && after[x][y] == LAKE_VALUE && before[x][y]
            != LAKE_VALUE
}

/// A sequence still holds a value after another of its entries has left.
proof fn lemma_remove_keeps(points: Seq<(usize, usize)>, index: int, kept: (usize, usize))
    requires
        0 <= index < points.len(),
        points.contains(kept),
        points[index] != kept,
    ensures
        points.remove(index).contains(kept),
{
    let k = choose|k: int| 0 <= k < points.len() && points[k] == kept;
    if k < index {
        assert(points.remove(index)[k] == kept);
    } else {
        assert(points.remove(index)[k - 1] == kept);
    }
}

/// Takes the candidate of number `point_index` off the list and, if it has
/// no sea around it, into the lake: it becomes a lake cell and the cells of
/// the map around it join the end of the list. Tells whether it was taken in.
pub fn carve_candidate<const W: usize, const H: usize>(
    height_map: &mut [[Fixed; H]; W],
    possible_points: &mut Vec<(usize, usize)>,
    point_index: usize,
) -> (carved: bool)
    requires
        point_index < old(possible_points).len(),
    ensures
        carved == is_lake_site(
            *old(height_map),
            old(possible_points)@[point_index as int].0 as int,
            old(possible_points)@[point_index as int].1 as int,
        ),
        carved ==> with_lake_at(
            *old(height_map),
            *final(height_map),
            (
                old(possible_points)@[point_index as int].0 as int,
                old(possible_points)@[point_index as int].1 as int,
            ),
        ) && final(possible_points)@ == (old(possible_points)@ + valid_neighbors::<W, H>(
            old(possible_points)@[point_index as int].0 as int,
            old(possible_points)@[point_index as int].1 as int,
        )).remove(point_index as int),
        !carved ==> *final(height_map) == *old(height_map)
            && final(possible_points)@ == old(possible_points)@.remove(point_index as int),
{
    let (x, y) = possible_points[point_index];
    let carved: bool = is_valid_lake_position(height_map, x, y);
    if carved {
        height_map[x][y] = LAKE_VALUE;

        let mut valid_neightbors = collect_neighbors::<W, H>(x as i128, y as i128);
        possible_points.append(&mut valid_neightbors);
    }
    possible_points.remove(point_index);
    carved
}

/// Grows one lake of up to `lake_size` cells from the seed `(init_x, init_y)`.
///
/// The seed becomes a lake cell and the cells of the map around it become
/// candidates. While the lake is short of its size and candidates remain,
/// one candidate is drawn at random and leaves the list; if it has no sea
/// around it, it becomes a lake cell and the cells of the map around it join
/// the list. A candidate that is a lake cell already counts towards the size
/// again, so the lake may end with fewer new cells than `lake_size`. It ends
/// with a new cell beside the seed wherever a lake of two cells or more is
/// bound to find one, see [`can_spread`].
pub fn create_lake<const W: usize, const H: usize>(
    height_map: &mut [[Fixed; H]; W],
    lake_size: usize,
    init_x: usize,
    init_y: usize,
    rng: &mut StdRng,
)
    requires
        init_x < W,
        init_y < H,
        lake_size >= 1,
    ensures
        cell_is(*final(height_map), init_x as int, init_y as int, LAKE_VALUE),
        carved_from_seed(*old(height_map), *final(height_map), (init_x as int, init_y as int)),
        forall|x: int, y: int|
            in_bounds::<W, H>(x, y) && final(height_map)[x][y] != old(height_map)[x][y]
                ==> lake_connected(*final(height_map), (init_x as int, init_y as int), (x, y)),
        count_cells(*final(height_map), LAKE_VALUE) <= count_cells(*old(height_map), LAKE_VALUE)
            + lake_size,
        lake_size >= 2 && can_spread(*old(height_map), (init_x as int, init_y as int))
            ==> has_spread(*old(height_map), *final(height_map), (init_x as int, init_y as int)),
{
    let ghost before = *height_map;
    let ghost seed = (init_x as int, init_y as int);

    height_map[init_x][init_y] = LAKE_VALUE;
    let mut remaining: usize = lake_size - 1;
    let ghost seeded = *height_map;
    let ghost around = valid_neighbors::<W, H>(seed.0, seed.1);
    let ghost good: (usize, usize) = if can_spread(before, seed) {
        around[choose|k: int|
            0 <= k < around.len() && no_sea_around_but(
                before,
                (#[trigger] around[k]).0 as int,
                around[k].1 as int,
                seed,
            )]
    } else {
        (init_x, init_y)
    };

    let mut possible_points: Vec<(usize, usize)> = collect_neighbors::<W, H>(
        init_x as i128,
        init_y as i128,
    );
    let ghost mut carved: Set<(int, int)> = set![seed];
    let ghost mut sources: Seq<(int, int)> = Seq::new(possible_points@.len(), |k: int| seed);
    proof {
        lemma_count_update(before, *height_map, seed.0, seed.1, LAKE_VALUE);
        lemma_lake_connected_self(*height_map, seed);
        lemma_neighbors_adjacent::<W, H>(seed.0, seed.1, 8);
    }

    while remaining > 0 && possible_points.len() > 0
        invariant
            in_bounds::<W, H>(seed.0, seed.1),
            carved_from_seed(before, *height_map, seed),
            all_reach_seed(*height_map, carved, seed),
            forall|x: int, y: int|
                in_bounds::<W, H>(x, y) && height_map[x][y] != before[x][y] ==> carved.contains(
                    (x, y),
                ),
            carved.contains(seed),
            sources.len() == possible_points@.len(),
            forall|k: int|
                0 <= k < sources.len() ==> carved.contains(#[trigger] sources[k]) && adjacent8(
                    sources[k],
                    (possible_points@[k].0 as int, possible_points@[k].1 as int),
                ),
            count_cells(*height_map, LAKE_VALUE) + remaining <= count_cells(before, LAKE_VALUE)
                + lake_size,
            around == valid_neighbors::<W, H>(seed.0, seed.1),
            with_lake_at(before, seeded, seed),
            can_spread(before, seed) ==> around.contains(good) && no_sea_around_but(
                before,
                good.0 as int,
                good.1 as int,
                seed,
            ),
            can_spread(before, seed) ==> has_spread(before, *height_map, seed) || {
                &&& *height_map == seeded
                &&& remaining == lake_size - 1
                &&& possible_points@.contains(good)
                &&& forall|k: int|
                    0 <= k < possible_points@.len() ==> around.contains(
                        #[trigger] possible_points@[k],
                    )
            },
        decreases remaining, possible_points.len(),
    {
        let point_index: usize = random_in_range(rng, 0, possible_points.len());
        let ghost earlier = *height_map;
        let ghost earlier_points = possible_points@;
        let ghost c = (
            possible_points@[point_index as int].0 as int,
            possible_points@[point_index as int].1 as int,
        );
        proof {
            lemma_neighbors_adjacent::<W, H>(seed.0, seed.1, 8);
            if can_spread(before, seed) && !has_spread(before, earlier, seed) {
                // The cell that is bound to be taken is still a lake site.
                assert forall|i: int, j: int|
                    in_bounds::<W, H>(i, j) && adjacent8(
                        (good.0 as int, good.1 as int),
                        (i, j),
                    ) implies seeded[i][j] != SEA_VALUE by {
                    if (i, j) != seed {
                        assert(before[i][j] != SEA_VALUE);
                    }
                }
                let g = choose|g: int| 0 <= g < around.len() && around[g] == good;
                assert(is_lake_site(seeded, good.0 as int, good.1 as int));
                let n = choose|n: int|
                    0 <= n < around.len() && around[n] == earlier_points[point_index as int];
                assert(seeded[c.0][c.1] == before[c.0][c.1]);
            }
        }

        if carve_candidate(height_map, &mut possible_points, point_index) {
            proof {
                lemma_carve_step(before, earlier, *height_map, carved, seed, sources[point_index as int], c);
                lemma_count_update(earlier, *height_map, c.0, c.1, LAKE_VALUE);
                lemma_neighbors_adjacent::<W, H>(c.0, c.1, 8);
                carved = carved.insert(c);
                sources = sources + Seq::new(valid_neighbors::<W, H>(c.0, c.1).len(), |k: int| c);
            }
            remaining -= 1;
        }
        proof {
            sources = sources.remove(point_index as int);
            if can_spread(before, seed) && !has_spread(before, earlier, seed) {
                if *height_map == earlier {
                    lemma_remove_keeps(earlier_points, point_index as int, good);
                } else {
                    assert(in_bounds::<W, H>(c.0, c.1) && c != seed && height_map[c.0][c.1]
                        == LAKE_VALUE && before[c.0][c.1] != LAKE_VALUE);
                }
            } else if can_spread(before, seed) {
                let (i, j) = choose|i: int, j: int|
                    in_bounds::<W, H>(i, j) && (i, j) != seed && earlier[i][j] == LAKE_VALUE
                        && before[i][j] != LAKE_VALUE;
                assert(height_map[i][j] == LAKE_VALUE);
            }
        }
    }
}

/// Whether the first of the lakes that `after` has gained over `before` was
/// seeded at `seed`: that cell could hold a lake in `before` and is a lake
/// cell in `after`, and the lake has taken in a further cell if it was bound
/// to find one, see [`can_spread`].
pub open spec fn seeded_at<const W: usize, const H: usize>(
    before: [[Fixed; H]; W],
    after: [[Fixed; H]; W],
    seed: (int, int),
) -> bool {
    &&& is_lake_site(before, seed.0, seed.1)
    &&& after[seed.0][seed.1] == LAKE_VALUE
    &&& can_spread(before, seed) ==> has_spread(before, after, seed)
}

/// The size of the next lake: the size that was drawn, cut down to what is
/// left of the total once `spent` cells of it have been spent on lakes.
pub fn lake_size_for(drawn: usize, total: usize, spent: usize) -> (size: usize)
    requires
        spent <= total,
    ensures
        size == if drawn <= total - spent {
            drawn
        } else {
            (total - spent) as usize
        },
{
    let left: usize = total - spent;
    if drawn < left {
        drawn
    } else {
        left
    }
}

/// Carves lakes into the map until `total_lake` cells, but at least one more
/// than [`MIN_LAKE_SIZE`], have been spent on them.
///
/// Each lake gets a size drawn at random between [`MIN_LAKE_SIZE`] and the
/// total, cut down to what is left of the total, and grows from a random seed
/// that has no sea around it, see [`create_lake`]. The size of a lake is
/// taken off the total whatever the lake could take in, so fewer cells than
/// the total may be lake in the end. The first lake at least is seeded, and
/// spreads where it is bound to, see [`seeded_at`].
pub fn create_lakes<const W: usize, const H: usize>(
    height_map: &mut [[Fixed; H]; W],
    total_lake: usize,
    rng: &mut StdRng,
)
    requires
        exists|x: int, y: int| is_lake_site(*old(height_map), x, y),
    ensures
        only_carved_lakes(*old(height_map), *final(height_map)),
        lakes_away_from_sea(*old(height_map)) ==> lakes_away_from_sea(*final(height_map)),
        count_cells(*final(height_map), LAKE_VALUE) <= count_cells(*old(height_map), LAKE_VALUE)
            + clamped_total(total_lake),
        exists|x: int, y: int| seeded_at(*old(height_map), *final(height_map), (x, y)),
{
    let total: usize = if total_lake <= MIN_LAKE_SIZE {
        MIN_LAKE_SIZE + 1
    } else {
        total_lake
    };
    let ghost before = *height_map;

    let mut height_map_total_lake: usize = 0;
    while height_map_total_lake < total
        invariant
            total == clamped_total(total_lake),
            height_map_total_lake <= total,
            only_carved_lakes(before, *height_map),
            no_new_sea(before, *height_map),
            exists|x: int, y: int| is_lake_site(*height_map, x, y),
            count_cells(*height_map, LAKE_VALUE) <= count_cells(before, LAKE_VALUE)
                + height_map_total_lake,
            height_map_total_lake == 0 ==> *height_map == before,
            height_map_total_lake > 0 ==> exists|x: int, y: int|
                seeded_at(before, *height_map, (x, y)),
        decreases total - height_map_total_lake,
    {
        let drawn: usize = random_in_range(rng, MIN_LAKE_SIZE, total);
        let lake_size: usize = lake_size_for(drawn, total, height_map_total_lake);

        let (init_x, init_y) = get_valid_lake_position(height_map, rng);
        let ghost previous = *height_map;

        create_lake(height_map, lake_size, init_x, init_y, rng);

        proof {
            assert(cell_is(*height_map, init_x as int, init_y as int, LAKE_VALUE));
            assert(no_new_sea(previous, *height_map));
            lemma_no_sea_kept(previous, *height_map, init_x as int, init_y as int);
            assert(is_lake_site(*height_map, init_x as int, init_y as int));
            assert forall|x: int, y: int| in_bounds::<W, H>(x, y) implies height_map[x][y]
                == before[x][y] || (height_map[x][y] == LAKE_VALUE && no_sea_around(
                *height_map,
                x,
                y,
            )) by {
                if height_map[x][y] == previous[x][y] {
                    if previous[x][y] != before[x][y] {
                        lemma_no_sea_kept(previous, *height_map, x, y);
                    }
                }
            }
        }
        proof {
            if height_map_total_lake == 0 {
                assert(seeded_at(before, *height_map, (init_x as int, init_y as int)));
            } else {
                let (sx, sy) = choose|x: int, y: int| seeded_at(before, previous, (x, y));
                if can_spread(before, (sx, sy)) {
                    let (i, j) = choose|i: int, j: int|
                        in_bounds::<W, H>(i, j) && (i, j) != (sx, sy) && previous[i][j]
                            == LAKE_VALUE && before[i][j] != LAKE_VALUE;
                    assert(height_map[i][j] == LAKE_VALUE);
                }
                assert(height_map[sx][sy] == LAKE_VALUE);
                assert(seeded_at(before, *height_map, (sx, sy)));
            }
        }
        height_map_total_lake += lake_size;
    }
    proof {
        if lakes_away_from_sea(before) {
            assert forall|x: int, y: int|
                cell_is(*height_map, x, y, LAKE_VALUE) implies no_sea_around(
                *height_map,
                x,
                y,
            ) by {
                if height_map[x][y] == before[x][y] {
                    assert(cell_is(before, x, y, LAKE_VALUE));
                    lemma_no_sea_kept(before, *height_map, x, y);
                }
            }
        }
    }
}

} // verus!
