//! The mathematical vocabulary of height maps: cells, neighbourhoods, counts
//! and connectivity, with the lemmas that the generators rely on.
use crate::fixed::Fixed;
use crate::utils::height_map::{LAKE_VALUE, LAND_VALUE, SEA_VALUE};
use vstd::prelude::*;

verus! {

/// Whether `(x, y)` is a cell of a `W` by `H` grid.
pub open spec fn in_bounds<const W: usize, const H: usize>(x: int, y: int) -> bool {
    0 <= x < W && 0 <= y < H
}

/// Whether `(x, y)` is a cell of the grid that holds `value`.
pub open spec fn cell_is<const W: usize, const H: usize>(
    height_map: [[Fixed; H]; W],
    x: int,
    y: int,
    value: Fixed,
) -> bool {
    in_bounds::<W, H>(x, y) && height_map[x][y] == value
}

/// The number of cells among the first `n` of `row` that hold `value`.
pub open spec fn count_in_row<const H: usize>(row: [Fixed; H], value: Fixed, n: nat) -> nat
    decreases n,
{
    if n == 0 {
        0
    } else {
        count_in_row(row, value, (n - 1) as nat) + if row[n - 1] == value {
            1nat
        } else {
            0nat
        }
    }
}

/// The number of cells in the first `n` rows of the grid that hold `value`.
pub open spec fn count_in_rows<const W: usize, const H: usize>(
    height_map: [[Fixed; H]; W],
    value: Fixed,
    n: nat,
) -> nat
    decreases n,
{
    if n == 0 {
        0
    } else {
        count_in_rows(height_map, value, (n - 1) as nat) + count_in_row(
            height_map[n - 1],
            value,
            H as nat,
        )
    }
}

/// The number of cells of the grid that hold `value`.
pub open spec fn count_cells<const W: usize, const H: usize>(
    height_map: [[Fixed; H]; W],
    value: Fixed,
) -> nat {
    count_in_rows(height_map, value, W as nat)
}

proof fn lemma_row_count_same<const H: usize>(a: [Fixed; H], b: [Fixed; H], value: Fixed, n: nat)
    requires
        n <= H,
        forall|j: int| 0 <= j < n ==> a[j] == b[j],
    ensures
        count_in_row(a, value, n) == count_in_row(b, value, n),
    decreases n,
{
    if n > 0 {
        lemma_row_count_same(a, b, value, (n - 1) as nat);
    }
}

proof fn lemma_row_count_update<const H: usize>(
    a: [Fixed; H],
    b: [Fixed; H],
    value: Fixed,
    y: int,
    n: nat,
)
    requires
        n <= H,
        0 <= y < H,
        forall|j: int| 0 <= j < H && j != y ==> a[j] == b[j],
    ensures
        count_in_row(b, value, n) + (if y < n && a[y] == value { 1nat } else { 0nat })
            == count_in_row(a, value, n) + (if y < n && b[y] == value { 1nat } else { 0nat }),
    decreases n,
{
    if n > 0 {
        lemma_row_count_update(a, b, value, y, (n - 1) as nat);
    }
}

proof fn lemma_rows_count_update<const W: usize, const H: usize>(
    before: [[Fixed; H]; W],
    after: [[Fixed; H]; W],
    x: int,
    y: int,
    value: Fixed,
    n: nat,
)
    requires
        n <= W,
        in_bounds::<W, H>(x, y),
        forall|i: int, j: int|
            in_bounds::<W, H>(i, j) && !(i == x && j == y) ==> after[i][j] == before[i][j],
    ensures
        count_in_rows(after, value, n) + (if x < n && before[x][y] == value { 1nat } else { 0nat })
            == count_in_rows(before, value, n) + (if x < n && after[x][y] == value { 1nat } else { 0nat }),
    decreases n,
{
    if n > 0 {
        lemma_rows_count_update(before, after, x, y, value, (n - 1) as nat);
        let i = n - 1;
        if i == x {
            assert forall|j: int| 0 <= j < H && j != y implies before[i][j] == after[i][j] by {
                assert(in_bounds::<W, H>(i, j));
            }
            lemma_row_count_update(before[i], after[i], value, y, H as nat);
        } else {
            assert forall|j: int| 0 <= j < H implies before[i][j] == after[i][j] by {
                assert(in_bounds::<W, H>(i, j));
            }
            lemma_row_count_same(before[i], after[i], value, H as nat);
        }
    }
}

/// Setting one cell changes the count of a value by what that cell gains or loses.
pub proof fn lemma_count_update<const W: usize, const H: usize>(
    before: [[Fixed; H]; W],
    after: [[Fixed; H]; W],
    x: int,
    y: int,
    value: Fixed,
)
    requires
        in_bounds::<W, H>(x, y),
        forall|i: int, j: int|
            in_bounds::<W, H>(i, j) && !(i == x && j == y) ==> after[i][j] == before[i][j],
    ensures
        count_cells(after, value) + (if before[x][y] == value { 1nat } else { 0nat })
            == count_cells(before, value) + (if after[x][y] == value { 1nat } else { 0nat }),
{
    lemma_rows_count_update(before, after, x, y, value, W as nat);
}

proof fn lemma_row_count_bounds<const H: usize>(row: [Fixed; H], value: Fixed, n: nat)
    requires
        n <= H,
    ensures
        count_in_row(row, value, n) <= n,
        (forall|j: int| 0 <= j < n ==> row[j] == value) ==> count_in_row(row, value, n) == n,
        (exists|j: int| 0 <= j < n && row[j] == value) ==> count_in_row(row, value, n) >= 1,
        (forall|j: int| 0 <= j < n ==> row[j] != value) ==> count_in_row(row, value, n) == 0,
    decreases n,
{
    if n > 0 {
        lemma_row_count_bounds(row, value, (n - 1) as nat);
    }
}

proof fn lemma_rows_count_bounds<const W: usize, const H: usize>(
    height_map: [[Fixed; H]; W],
    value: Fixed,
    n: nat,
)
    requires
        n <= W,
    ensures
        count_in_rows(height_map, value, n) <= n * H,
        (forall|i: int, j: int| 0 <= i < n && 0 <= j < H ==> height_map[i][j] == value)
            ==> count_in_rows(height_map, value, n) == n * H,
        (exists|i: int, j: int| 0 <= i < n && 0 <= j < H && height_map[i][j] == value)
            ==> count_in_rows(height_map, value, n) >= 1,
        (forall|i: int, j: int| 0 <= i < n && 0 <= j < H ==> height_map[i][j] != value)
            ==> count_in_rows(height_map, value, n) == 0,
    decreases n,
{
    if n > 0 {
        lemma_rows_count_bounds(height_map, value, (n - 1) as nat);
        lemma_row_count_bounds(height_map[n - 1], value, H as nat);
        assert((n - 1) * H + H == n * H) by (nonlinear_arith);
        if exists|i: int, j: int| 0 <= i < n && 0 <= j < H && height_map[i][j] == value {
            let (i, j) = choose|i: int, j: int|
                0 <= i < n && 0 <= j < H && height_map[i][j] == value;
            if i == n - 1 {
                assert(height_map[n - 1][j] == value);
            } else {
                assert(0 <= i < n - 1 && 0 <= j < H && height_map[i][j] == value);
            }
        }
    } else {
        assert(0 * H == 0) by (nonlinear_arith);
    }
}

/// A count never exceeds the number of cells; it reaches it only when every
/// cell holds the value, and it is zero exactly when no cell does.
pub proof fn lemma_count_bounds<const W: usize, const H: usize>(
    height_map: [[Fixed; H]; W],
    value: Fixed,
)
    ensures
        count_cells(height_map, value) <= W * H,
        count_cells(height_map, value) < W * H ==> exists|x: int, y: int|
            in_bounds::<W, H>(x, y) && height_map[x][y] != value,
        count_cells(height_map, value) == 0 <==> forall|x: int, y: int|
            in_bounds::<W, H>(x, y) ==> height_map[x][y] != value,
{
    lemma_rows_count_bounds(height_map, value, W as nat);
    if count_cells(height_map, value) < W * H {
        if forall|i: int, j: int| 0 <= i < W && 0 <= j < H ==> height_map[i][j] == value {
            assert(false);
        } else {
            let (x, y) = choose|i: int, j: int|
                0 <= i < W && 0 <= j < H && height_map[i][j] != value;
            assert(in_bounds::<W, H>(x, y) && height_map[x][y] != value);
        }
    }
    if forall|x: int, y: int| in_bounds::<W, H>(x, y) ==> height_map[x][y] != value {
        assert forall|i: int, j: int| 0 <= i < W && 0 <= j < H implies height_map[i][j]
            != value by {
            assert(in_bounds::<W, H>(i, j));
        }
    }
    if count_cells(height_map, value) == 0 {
        assert forall|x: int, y: int| in_bounds::<W, H>(x, y) implies height_map[x][y]
            != value by {
            if height_map[x][y] == value {
                assert(0 <= x < W && 0 <= y < H && height_map[x][y] == value);
            }
        }
    }
}

/// Whether `(x, y)` is a land cell of the grid.
pub open spec fn is_land<const W: usize, const H: usize>(
    height_map: [[Fixed; H]; W],
    x: int,
    y: int,
) -> bool {
    cell_is(height_map, x, y, LAND_VALUE)
}

/// Whether one of the four cells that share an edge with `(x, y)` is land.
pub open spec fn has_land_neighbor<const W: usize, const H: usize>(
    height_map: [[Fixed; H]; W],
    x: int,
    y: int,
) -> bool {
    ||| is_land(height_map, x, y - 1)
    ||| is_land(height_map, x - 1, y)
    ||| is_land(height_map, x + 1, y)
    ||| is_land(height_map, x, y + 1)
}

/// Whether land may grow into `(x, y)`: the cell is not land yet and shares an
/// edge with a land cell.
pub open spec fn can_grow<const W: usize, const H: usize>(
    height_map: [[Fixed; H]; W],
    x: int,
    y: int,
) -> bool {
    &&& in_bounds::<W, H>(x, y)
    &&& height_map[x][y] != LAND_VALUE
    &&& has_land_neighbor(height_map, x, y)
}

/// Whether two cells share an edge.
pub open spec fn adjacent4(a: (int, int), b: (int, int)) -> bool {
    ||| a.0 == b.0 && (a.1 == b.1 + 1 || a.1 + 1 == b.1)
    ||| a.1 == b.1 && (a.0 == b.0 + 1 || a.0 + 1 == b.0)
}

/// Whether `path` is a walk over land cells in which each step crosses an edge.
pub open spec fn is_land_path<const W: usize, const H: usize>(
    height_map: [[Fixed; H]; W],
    path: Seq<(int, int)>,
) -> bool {
    &&& path.len() > 0
    &&& forall|i: int| 0 <= i < path.len() ==> is_land(height_map, #[trigger] path[i].0, path[i].1)
    &&& forall|i: int| 0 <= i < path.len() - 1 ==> adjacent4(#[trigger] path[i], path[i + 1])
}

/// Whether one can walk from `a` to `b` over land, crossing edges only.
pub open spec fn land_connected<const W: usize, const H: usize>(
    height_map: [[Fixed; H]; W],
    a: (int, int),
    b: (int, int),
) -> bool {
    exists|path: Seq<(int, int)>|
        is_land_path(height_map, path) && path.first() == a && path.last() == b
}

/// Whether the land cell `c` of `after` is connected, in `after`, to a land
/// cell of `before`.
pub open spec fn grown_from<const W: usize, const H: usize>(
    before: [[Fixed; H]; W],
    after: [[Fixed; H]; W],
    c: (int, int),
) -> bool {
    exists|s: (int, int)| is_land(before, s.0, s.1) && land_connected(after, s, c)
}

/// Whether every cell of `after` either kept its value or became land.
pub open spec fn only_gained_land<const W: usize, const H: usize>(
    before: [[Fixed; H]; W],
    after: [[Fixed; H]; W],
) -> bool {
    forall|x: int, y: int|
        in_bounds::<W, H>(x, y) ==> after[x][y] == before[x][y] || after[x][y] == LAND_VALUE
}

/// Every land cell is connected to itself.
pub proof fn lemma_land_connected_self<const W: usize, const H: usize>(
    height_map: [[Fixed; H]; W],
    c: (int, int),
)
    requires
        is_land(height_map, c.0, c.1),
    ensures
        land_connected(height_map, c, c),
{
    let path = seq![c];
    assert(is_land_path(height_map, path));
    assert(path.first() == c && path.last() == c);
}

/// Growing land keeps every connection, and a new land cell is connected to
/// whatever its land neighbour is connected to.
pub proof fn lemma_land_connected_grows<const W: usize, const H: usize>(
    before: [[Fixed; H]; W],
    after: [[Fixed; H]; W],
    s: (int, int),
    d: (int, int),
    c: (int, int),
)
    requires
        forall|x: int, y: int| is_land(before, x, y) ==> is_land(after, x, y),
        land_connected(before, s, d),
        c == d || (is_land(after, c.0, c.1) && adjacent4(d, c)),
    ensures
        land_connected(after, s, c),
{
    let path = choose|path: Seq<(int, int)>|
        is_land_path(before, path) && path.first() == s && path.last() == d;
    assert forall|i: int| 0 <= i < path.len() implies is_land(
        after,
        #[trigger] path[i].0,
        path[i].1,
    ) by {
        assert(is_land(before, path[i].0, path[i].1));
    }
    if c == d {
        assert(is_land_path(after, path));
    } else {
        let longer = path.push(c);
        assert forall|i: int| 0 <= i < longer.len() implies is_land(
            after,
            #[trigger] longer[i].0,
            longer[i].1,
        ) by {
            if i < path.len() {
                assert(longer[i] == path[i]);
            }
        }
        assert forall|i: int| 0 <= i < longer.len() - 1 implies adjacent4(
            #[trigger] longer[i],
            longer[i + 1],
        ) by {
            if i < path.len() - 1 {
                assert(longer[i] == path[i] && longer[i + 1] == path[i + 1]);
            } else {
                assert(longer[i] == d && longer[i + 1] == c);
            }
        }
        assert(is_land_path(after, longer));
        assert(longer.first() == s && longer.last() == c);
    }
}

/// A grid that holds a land cell and a cell that is not land holds a cell
/// into which land may grow.
pub proof fn lemma_frontier_exists<const W: usize, const H: usize>(
    height_map: [[Fixed; H]; W],
    a: (int, int),
    b: (int, int),
)
    requires
        is_land(height_map, a.0, a.1),
        in_bounds::<W, H>(b.0, b.1),
        height_map[b.0][b.1] != LAND_VALUE,
    ensures
        exists|x: int, y: int| can_grow(height_map, x, y),
    decreases
        (if a.0 <= b.0 { b.0 - a.0 } else { a.0 - b.0 }) + (if a.1 <= b.1 { b.1 - a.1 } else { a.1 - b.1 }),
{
    if has_land_neighbor(height_map, b.0, b.1) {
        assert(can_grow(height_map, b.0, b.1));
    } else {
        let next = if b.0 < a.0 {
            (b.0 + 1, b.1)
        } else if b.0 > a.0 {
            (b.0 - 1, b.1)
        } else if b.1 < a.1 {
            (b.0, b.1 + 1)
        } else {
            (b.0, b.1 - 1)
        };
        assert(in_bounds::<W, H>(next.0, next.1));
        assert(!is_land(height_map, next.0, next.1));
        lemma_frontier_exists(height_map, a, next);
    }
}

/// Whether two distinct cells share an edge or a corner.
pub open spec fn adjacent8(a: (int, int), b: (int, int)) -> bool {
    &&& a != b
    &&& a.0 - 1 <= b.0 <= a.0 + 1
    &&& a.1 - 1 <= b.1 <= a.1 + 1
}

/// Whether none of the cells of the grid around `(x, y)` is sea.
pub open spec fn no_sea_around<const W: usize, const H: usize>(
    height_map: [[Fixed; H]; W],
    x: int,
    y: int,
) -> bool {
    forall|i: int, j: int|
        in_bounds::<W, H>(i, j) && adjacent8((x, y), (i, j)) ==> height_map[i][j] != SEA_VALUE
}

/// Whether a lake may hold the cell `(x, y)`: it is a cell of the grid and
/// none of the cells around it is sea.
pub open spec fn is_lake_site<const W: usize, const H: usize>(
    height_map: [[Fixed; H]; W],
    x: int,
    y: int,
) -> bool {
    in_bounds::<W, H>(x, y) && no_sea_around(height_map, x, y)
}

/// Whether every cell of `after` either kept its value or became a lake cell
/// with no sea around it.
pub open spec fn only_carved_lakes<const W: usize, const H: usize>(
    before: [[Fixed; H]; W],
    after: [[Fixed; H]; W],
) -> bool {
    forall|x: int, y: int|
        in_bounds::<W, H>(x, y) ==> after[x][y] == before[x][y] || (after[x][y] == LAKE_VALUE
            && no_sea_around(after, x, y))
}

/// Whether no lake cell of the grid has sea around it.
pub open spec fn lakes_away_from_sea<const W: usize, const H: usize>(
    height_map: [[Fixed; H]; W],
) -> bool {
    forall|x: int, y: int|
        cell_is(height_map, x, y, LAKE_VALUE) ==> no_sea_around(height_map, x, y)
}

/// Whether `path` is a walk over lake cells in which each step goes to a cell
/// that shares an edge or a corner with the last.
pub open spec fn is_lake_path<const W: usize, const H: usize>(
    height_map: [[Fixed; H]; W],
    path: Seq<(int, int)>,
) -> bool {
    &&& path.len() > 0
    &&& forall|i: int|
        0 <= i < path.len() ==> cell_is(height_map, #[trigger] path[i].0, path[i].1, LAKE_VALUE)
    &&& forall|i: int| 0 <= i < path.len() - 1 ==> adjacent8(#[trigger] path[i], path[i + 1])
}

/// Whether `a` and `b` lie in one lake: one can go from one to the other over
/// lake cells.
pub open spec fn lake_connected<const W: usize, const H: usize>(
    height_map: [[Fixed; H]; W],
    a: (int, int),
    b: (int, int),
) -> bool {
    exists|path: Seq<(int, int)>|
        is_lake_path(height_map, path) && path.first() == a && path.last() == b
}

/// Every lake cell is connected to itself.
pub proof fn lemma_lake_connected_self<const W: usize, const H: usize>(
    height_map: [[Fixed; H]; W],
    c: (int, int),
)
    requires
        cell_is(height_map, c.0, c.1, LAKE_VALUE),
    ensures
        lake_connected(height_map, c, c),
{
    let path = seq![c];
    assert(is_lake_path(height_map, path));
    assert(path.first() == c && path.last() == c);
}

/// Carving keeps every connection, and a new lake cell is connected to
/// whatever the lake cell beside it is connected to.
pub proof fn lemma_lake_connected_grows<const W: usize, const H: usize>(
    before: [[Fixed; H]; W],
    after: [[Fixed; H]; W],
    s: (int, int),
    d: (int, int),
    c: (int, int),
)
    requires
        forall|x: int, y: int|
            cell_is(before, x, y, LAKE_VALUE) ==> cell_is(after, x, y, LAKE_VALUE),
        lake_connected(before, s, d),
        c == d || (cell_is(after, c.0, c.1, LAKE_VALUE) && adjacent8(d, c)),
    ensures
        lake_connected(after, s, c),
{
    let path = choose|path: Seq<(int, int)>|
        is_lake_path(before, path) && path.first() == s && path.last() == d;
    assert forall|i: int| 0 <= i < path.len() implies cell_is(
        after,
        #[trigger] path[i].0,
        path[i].1,
        LAKE_VALUE,
    ) by {
        assert(cell_is(before, path[i].0, path[i].1, LAKE_VALUE));
    }
    if c == d {
        assert(is_lake_path(after, path));
    } else {
        let longer = path.push(c);
        assert forall|i: int| 0 <= i < longer.len() implies cell_is(
            after,
            #[trigger] longer[i].0,
            longer[i].1,
            LAKE_VALUE,
        ) by {
            if i < path.len() {
                assert(longer[i] == path[i]);
            }
        }
        assert forall|i: int| 0 <= i < longer.len() - 1 implies adjacent8(
            #[trigger] longer[i],
            longer[i + 1],
        ) by {
            if i < path.len() - 1 {
                assert(longer[i] == path[i] && longer[i + 1] == path[i + 1]);
            } else {
                assert(longer[i] == d && longer[i + 1] == c);
            }
        }
        assert(is_lake_path(after, longer));
        assert(longer.first() == s && longer.last() == c);
    }
}

} // verus!
