//! Smoothing: one pass of a three by three blur over the whole map.
use crate::fixed::{floor_div, Fixed, UNIT};
use crate::utils::height_map::grid::in_bounds;
use crate::utils::height_map::{LAKE_VALUE, LAND_VALUE, SEA_VALUE};
use vstd::prelude::*;

verus! {

/// The weight of each of the eight cells around a cell: one ninth, `UNIT / 9`.
pub const NEIGHTBOR_WEIGHT: Fixed = 1458;

/// The weight of the cell itself: one third, `UNIT / 3`.
pub const POINT_WEIGHT: Fixed = 4374;

/// The value of the cell `(x, y)`, or zero where the grid has no such cell.
pub open spec fn value_or_zero<const W: usize, const H: usize>(
    matrix: [[Fixed; H]; W],
    x: int,
    y: int,
) -> int {
    if in_bounds::<W, H>(x, y) {
        matrix[x][y] as int
    } else {
        0
    }
}

/// What the cell at `(x + dx, y + dy)` adds to the masked sum at `(x, y)`:
/// its value times the weight that the mask holds for that step, or nothing
/// where the grid has no such cell.
pub open spec fn mask_term<const W: usize, const H: usize>(
    matrix: [[Fixed; H]; W],
    mask: [[Fixed; 3]; 3],
    x: int,
    y: int,
    dx: int,
    dy: int,
) -> int {
    value_or_zero(matrix, x + dx, y + dy) * mask[dx + 1][dy + 1]
}

/// The weighted sum of the cell `(x, y)` and of the cells around it.
pub open spec fn mask_sum<const W: usize, const H: usize>(
    matrix: [[Fixed; H]; W],
    mask: [[Fixed; 3]; 3],
    x: int,
    y: int,
) -> int {
    mask_term(matrix, mask, x, y, -1, -1) + mask_term(matrix, mask, x, y, 0, -1) + mask_term(
        matrix,
        mask,
        x,
        y,
        1,
        -1,
    ) + mask_term(matrix, mask, x, y, -1, 0) + mask_term(matrix, mask, x, y, 0, 0) + mask_term(
        matrix,
        mask,
        x,
        y,
        1,
        0,
    ) + mask_term(matrix, mask, x, y, -1, 1) + mask_term(matrix, mask, x, y, 0, 1) + mask_term(
        matrix,
        mask,
        x,
        y,
        1,
        1,
    )
}

/// The mask applied at `(x, y)`: the weighted sum as a fixed-point number,
/// rounded down.
pub open spec fn masked<const W: usize, const H: usize>(
    matrix: [[Fixed; H]; W],
    mask: [[Fixed; 3]; 3],
    x: int,
    y: int,
) -> int {
    mask_sum(matrix, mask, x, y) / (UNIT as int)
}

/// The sum of the cells of the grid around `(x, y)`.
pub open spec fn neighbor_sum<const W: usize, const H: usize>(
    matrix: [[Fixed; H]; W],
    x: int,
    y: int,
) -> int {
    value_or_zero(matrix, x - 1, y - 1) + value_or_zero(matrix, x, y - 1) + value_or_zero(
        matrix,
        x + 1,
        y - 1,
    ) + value_or_zero(matrix, x - 1, y) + value_or_zero(matrix, x + 1, y) + value_or_zero(
        matrix,
        x - 1,
        y + 1,
    ) + value_or_zero(matrix, x, y + 1) + value_or_zero(matrix, x + 1, y + 1)
}

/// The smoothed value of the cell `(x, y)`: a third of the cell plus a ninth
/// of each cell of the grid around it, rounded down. Cells beyond the border
/// add nothing, so a border cell sums fewer samples with the same weights.
pub open spec fn blurred<const W: usize, const H: usize>(
    matrix: [[Fixed; H]; W],
    x: int,
    y: int,
) -> int {
    (3 * matrix[x][y] + neighbor_sum(matrix, x, y)) / 9
}

/// Whether `mask` is the blur mask: a third in the middle and a ninth around it.
pub open spec fn is_blur_mask(mask: [[Fixed; 3]; 3]) -> bool {
    forall|i: int, j: int|
        0 <= i < 3 && 0 <= j < 3 ==> mask[i][j] == if i == 1 && j == 1 {
            POINT_WEIGHT
        } else {
            NEIGHTBOR_WEIGHT
        }
}

/// Applying the blur mask gives the smoothed value.
pub proof fn lemma_blur_mask<const W: usize, const H: usize>(
    matrix: [[Fixed; H]; W],
    mask: [[Fixed; 3]; 3],
    x: int,
    y: int,
)
    requires
        in_bounds::<W, H>(x, y),
        is_blur_mask(mask),
    ensures
        masked(matrix, mask, x, y) == blurred(matrix, x, y),
{
    let total = 3 * matrix[x][y] + neighbor_sum(matrix, x, y);
    assert(mask[0][0] == 1458 && mask[1][0] == 1458 && mask[2][0] == 1458);
    assert(mask[0][1] == 1458 && mask[1][1] == 4374 && mask[2][1] == 1458);
    assert(mask[0][2] == 1458 && mask[1][2] == 1458 && mask[2][2] == 1458);
    assert(mask_sum(matrix, mask, x, y) == 1458 * total);
    assert((1458 * total) / 13122 == total / 9);
}

fn mask_sample<const W: usize, const H: usize>(
    matrix: &[[Fixed; H]; W],
    mask: &[[Fixed; 3]; 3],
    x: usize,
    y: usize,
    dx: i8,
    dy: i8,
) -> (term: i128)
    requires
        -1 <= dx <= 1,
        -1 <= dy <= 1,
    ensures
        term == mask_term(*matrix, *mask, x as int, y as int, dx as int, dy as int),
        -0x4000_0000_0000_0000 <= term <= 0x4000_0000_0000_0000,
{
    let n_x: i128 = x as i128 + dx as i128;
    let n_y: i128 = y as i128 + dy as i128;
    let valid_x: bool = n_x >= 0 && n_x < W as i128;
    let valid_y: bool = n_y >= 0 && n_y < H as i128;
    if valid_x && valid_y {
        let value: i128 = matrix[n_x as usize][n_y as usize] as i128;
        let weight: i128 = mask[(dx + 1) as usize][(dy + 1) as usize] as i128;
        assert(-0x4000_0000_0000_0000 <= value * weight <= 0x4000_0000_0000_0000) by (nonlinear_arith)
            requires
                -0x8000_0000 <= value <= 0x7fff_ffff,
                -0x8000_0000 <= weight <= 0x7fff_ffff,
        ;
        value * weight
    } else {
        assert(0 * mask[dx + 1][dy + 1] == 0) by (nonlinear_arith);
        0
    }
}

/// Applies a three by three mask of weights at `(x, y)`: sums the cell there
/// and the cells around it, as far as the grid has them, each times its
/// weight, and rounds the result down to a fixed-point number. `mask[1][1]`
/// weighs the cell itself and `mask[dx + 1][dy + 1]` the cell at
/// `(x + dx, y + dy)`.
pub fn apply_mask<const W: usize, const H: usize>(
    matrix: &[[Fixed; H]; W],
    mask: &[[Fixed; 3]; 3],
    x: usize,
    y: usize,
) -> (result: Fixed)
    requires
        Fixed::MIN <= masked(*matrix, *mask, x as int, y as int) <= Fixed::MAX,
    ensures
        result == masked(*matrix, *mask, x as int, y as int),
{
    let mut sum: i128 = mask_sample(matrix, mask, x, y, -1, -1);
    sum = sum + mask_sample(matrix, mask, x, y, 0, -1);
    sum = sum + mask_sample(matrix, mask, x, y, 1, -1);
    sum = sum + mask_sample(matrix, mask, x, y, -1, 0);
    sum = sum + mask_sample(matrix, mask, x, y, 0, 0);
    sum = sum + mask_sample(matrix, mask, x, y, 1, 0);
    sum = sum + mask_sample(matrix, mask, x, y, -1, 1);
    sum = sum + mask_sample(matrix, mask, x, y, 0, 1);
    sum = sum + mask_sample(matrix, mask, x, y, 1, 1);
    floor_div(sum, UNIT as i128) as Fixed
}

/// Smooths the map: every cell becomes a third of itself plus a ninth of each
/// cell around it. The result is a new map of the same size. It differs from
/// every stepped map of like steps that is not all zero, such as the maps of
/// sea, lake and land and those of deep sea and land, see
/// [`lemma_smoothing_changes_stepped_map`]. Of other maps this is not
/// claimed: rounding down can hide the change.
pub fn smooth_height_map<const W: usize, const H: usize>(height_map: [[Fixed; H]; W]) -> (smoothed:
    [[Fixed; H]; W])
    requires
        forall|x: int, y: int|
            in_bounds::<W, H>(x, y) ==> Fixed::MIN <= #[trigger] blurred(height_map, x, y)
                <= Fixed::MAX,
    ensures
        forall|x: int, y: int|
            in_bounds::<W, H>(x, y) ==> smoothed[x][y] == blurred(height_map, x, y),
        forall|sunk: (int, int), raised: (int, int)|
            #[trigger] is_stepped(height_map, sunk, raised) && steps_are_alike(sunk, raised)
                && smoothed == height_map ==> is_flat(height_map),
{
    proof {
        assert forall|sunk: (int, int), raised: (int, int)|
            #[trigger] is_stepped(height_map, sunk, raised) && steps_are_alike(sunk, raised)
                && is_unchanged_by_smoothing(height_map) implies is_flat(height_map) by {
            lemma_smoothing_changes_stepped_map(height_map, sunk, raised);
        }
    }
    let mask: [[Fixed; 3]; 3] = [
        [NEIGHTBOR_WEIGHT, NEIGHTBOR_WEIGHT, NEIGHTBOR_WEIGHT],
        [NEIGHTBOR_WEIGHT, POINT_WEIGHT, NEIGHTBOR_WEIGHT],
        [NEIGHTBOR_WEIGHT, NEIGHTBOR_WEIGHT, NEIGHTBOR_WEIGHT],
    ];
    assert(is_blur_mask(mask));

    let mut new_height_map = height_map;

    let mut i: usize = 0;
    while i < W
        invariant
            i <= W,
            is_blur_mask(mask),
            forall|x: int, y: int|
                in_bounds::<W, H>(x, y) ==> Fixed::MIN <= #[trigger] blurred(height_map, x, y)
                    <= Fixed::MAX,
            forall|x: int, y: int|
                in_bounds::<W, H>(x, y) && x < i ==> new_height_map[x][y] == blurred(
                    height_map,
                    x,
                    y,
                ),
        decreases W - i,
    {
        let mut j: usize = 0;
        while j < H
            invariant
                i < W,
                j <= H,
                is_blur_mask(mask),
                forall|x: int, y: int|
                    in_bounds::<W, H>(x, y) ==> Fixed::MIN <= #[trigger] blurred(height_map, x, y)
                        <= Fixed::MAX,
                forall|x: int, y: int|
                    in_bounds::<W, H>(x, y) && (x < i || (x == i && y < j))
                        ==> new_height_map[x][y] == blurred(height_map, x, y),
            decreases H - j,
        {
            proof {
                lemma_blur_mask(height_map, mask, i as int, j as int);
                assert(in_bounds::<W, H>(i as int, j as int));
            }
            new_height_map[i][j] = apply_mask(&height_map, &mask, i, j);
            j += 1;
        }
        i += 1;
    }

    proof {
        if new_height_map == height_map {
            assert forall|x: int, y: int| in_bounds::<W, H>(x, y) implies #[trigger] blurred(
                height_map,
                x,
                y,
            ) == height_map[x][y] by {
                assert(new_height_map[x][y] == blurred(height_map, x, y));
            }
        }
    }
    new_height_map
}

/// Whether every cell of the map is sea, lake or land.
pub open spec fn is_banded<const W: usize, const H: usize>(height_map: [[Fixed; H]; W]) -> bool {
    forall|x: int, y: int|
        in_bounds::<W, H>(x, y) ==> height_map[x][y] == SEA_VALUE || height_map[x][y]
            == LAKE_VALUE || height_map[x][y] == LAND_VALUE
}

/// Whether smoothing leaves every cell of the map as it is.
pub open spec fn is_unchanged_by_smoothing<const W: usize, const H: usize>(
    height_map: [[Fixed; H]; W],
) -> bool {
    forall|x: int, y: int|
        in_bounds::<W, H>(x, y) ==> #[trigger] blurred(height_map, x, y) == height_map[x][y]
}

/// How far the cell `(x, y)` is from the nearest border of the map.
spec fn ring<const W: usize, const H: usize>(x: int, y: int) -> int {
    let across = if x <= W - 1 - x {
        x
    } else {
        W - 1 - x
    };
    let along = if y <= H - 1 - y {
        y
    } else {
        H - 1 - y
    };
    if across <= along {
        across
    } else {
        along
    }
}

/// Whether every cell of the map is zero, or above zero and between
/// `raised.0` and `raised.1`, or below zero and of a size between `sunk.0`
/// and `sunk.1`.
pub open spec fn is_stepped<const W: usize, const H: usize>(
    height_map: [[Fixed; H]; W],
    sunk: (int, int),
    raised: (int, int),
) -> bool {
    forall|x: int, y: int|
        in_bounds::<W, H>(x, y) ==> height_map[x][y] == 0 || raised.0 <= height_map[x][y]
            <= raised.1 || -sunk.1 <= height_map[x][y] <= -sunk.0
}

/// Whether the cells of a stepped map are too much alike for five of them to
/// weigh up six times one of them, rounding counted in: on each side of zero
/// six times the least size is more than five times the greatest, and eight
/// more below zero, where rounding down may hide a change of up to eight
/// ninths.
pub open spec fn steps_are_alike(sunk: (int, int), raised: (int, int)) -> bool {
    &&& 0 < raised.0 <= raised.1
    &&& 0 < sunk.0 <= sunk.1
    &&& 6 * raised.0 > 5 * raised.1
    &&& 6 * sunk.0 > 5 * sunk.1 + 8
}

/// Whether every cell of the map is zero.
pub open spec fn is_flat<const W: usize, const H: usize>(height_map: [[Fixed; H]; W]) -> bool {
    forall|x: int, y: int| in_bounds::<W, H>(x, y) ==> height_map[x][y] == 0
}

/// In a stepped map of like steps that smoothing leaves as it is, every cell
/// is zero: the cells at the border, which have too few cells around them to
/// hold their own, then ring by ring those further in.
proof fn lemma_unchanged_cell_is_zero<const W: usize, const H: usize>(
    height_map: [[Fixed; H]; W],
    sunk: (int, int),
    raised: (int, int),
    x: int,
    y: int,
)
    requires
        is_stepped(height_map, sunk, raised),
        steps_are_alike(sunk, raised),
        is_unchanged_by_smoothing(height_map),
        in_bounds::<W, H>(x, y),
    ensures
        height_map[x][y] == 0,
    decreases ring::<W, H>(x, y),
{
    let d = ring::<W, H>(x, y);
    // The side of the map that is nearest, and the three cells towards it.
    let (sx, sy): (int, int) = if d == x {
        (-1, 0)
    } else if d == W - 1 - x {
        (1, 0)
    } else if d == y {
        (0, -1)
    } else {
        (0, 1)
    };
    let a = if sx != 0 {
        (x + sx, y - 1)
    } else {
        (x - 1, y + sy)
    };
    let b = (x + sx, y + sy);
    let c = if sx != 0 {
        (x + sx, y + 1)
    } else {
        (x + 1, y + sy)
    };
    if in_bounds::<W, H>(a.0, a.1) {
        lemma_unchanged_cell_is_zero(height_map, sunk, raised, a.0, a.1);
    }
    if in_bounds::<W, H>(b.0, b.1) {
        lemma_unchanged_cell_is_zero(height_map, sunk, raised, b.0, b.1);
    }
    if in_bounds::<W, H>(c.0, c.1) {
        lemma_unchanged_cell_is_zero(height_map, sunk, raised, c.0, c.1);
    }
    assert(value_or_zero(height_map, a.0, a.1) == 0);
    assert(value_or_zero(height_map, b.0, b.1) == 0);
    assert(value_or_zero(height_map, c.0, c.1) == 0);
    assert forall|i: int, j: int| -sunk.1 <= #[trigger] value_or_zero(height_map, i, j)
        <= raised.1 by {}
    assert(-5 * sunk.1 <= neighbor_sum(height_map, x, y) <= 5 * raised.1);
    assert(blurred(height_map, x, y) == height_map[x][y]);
}

/// Smoothing changes every stepped map of like steps, see [`is_stepped`] and
/// [`steps_are_alike`], but the map that is all zero, which it leaves as it
/// is. Among such maps are those of sea, lake and land, and those of deep sea
/// and land. Of other maps nothing is claimed: where the cells differ more in
/// size, or are small against the rounding, a map may be its own smoothing,
/// as the two by two map of three cells of -2 and one of -1 is.
pub proof fn lemma_smoothing_changes_stepped_map<const W: usize, const H: usize>(
    height_map: [[Fixed; H]; W],
    sunk: (int, int),
    raised: (int, int),
)
    requires
        is_stepped(height_map, sunk, raised),
        steps_are_alike(sunk, raised),
    ensures
        is_unchanged_by_smoothing(height_map) <==> is_flat(height_map),
{
    if is_unchanged_by_smoothing(height_map) {
        assert forall|x: int, y: int| in_bounds::<W, H>(x, y) implies height_map[x][y] == 0 by {
            lemma_unchanged_cell_is_zero(height_map, sunk, raised, x, y);
        }
    }
    if is_flat(height_map) {
        assert forall|x: int, y: int| in_bounds::<W, H>(x, y) implies #[trigger] blurred(
            height_map,
            x,
            y,
        ) == height_map[x][y] by {
            assert forall|i: int, j: int| #[trigger] value_or_zero(height_map, i, j) == 0 by {}
        }
    }
}

/// The smoothed value of every cell is a fixed-point number if no cell of
/// the map is of a size beyond `bound`, which is nine elevenths of the
/// greatest fixed-point number at most.
pub proof fn lemma_smoothing_in_range<const W: usize, const H: usize>(
    height_map: [[Fixed; H]; W],
    bound: int,
)
    requires
        0 <= bound,
        11 * bound <= 9 * Fixed::MAX,
        forall|x: int, y: int| in_bounds::<W, H>(x, y) ==> -bound <= height_map[x][y] <= bound,
    ensures
        forall|x: int, y: int|
            in_bounds::<W, H>(x, y) ==> Fixed::MIN <= #[trigger] blurred(height_map, x, y)
                <= Fixed::MAX,
{
    assert forall|x: int, y: int| in_bounds::<W, H>(x, y) implies Fixed::MIN <= #[trigger] blurred(
        height_map,
        x,
        y,
    ) <= Fixed::MAX by {
        assert forall|i: int, j: int| -bound <= #[trigger] value_or_zero(height_map, i, j)
            <= bound by {}
        assert(-8 * bound <= neighbor_sum(height_map, x, y) <= 8 * bound);
    }
}

/// Smoothing changes every map of sea, lake and land but the map that is all
/// lake, which it leaves as it is.
pub proof fn lemma_smoothing_changes_banded_map<const W: usize, const H: usize>(
    height_map: [[Fixed; H]; W],
)
    requires
        is_banded(height_map),
    ensures
        is_unchanged_by_smoothing(height_map) <==> forall|x: int, y: int|
            in_bounds::<W, H>(x, y) ==> height_map[x][y] == LAKE_VALUE,
{
    lemma_smoothing_changes_stepped_map(height_map, (13122, 13122), (13122, 13122));
}

} // verus!
