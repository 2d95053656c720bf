//! The square grid of cells that a chunk holds, and how its live cells are counted.

use vstd::prelude::*;

verus! {

/// One generation of a chunk: 50 columns of 50 cells, `true` for a live cell.
pub type Grid = [[bool; 50]; 50];

/// Whether `(x, y)` is a position inside a chunk.
pub open spec fn in_chunk(x: int, y: int) -> bool {
    0 <= x < 50 && 0 <= y < 50
}

/// The cell of `g` at `(x, y)`.
pub open spec fn cell(g: Grid, x: int, y: int) -> bool {
    g[x][y]
}

/// Every cell of `g` is dead.
pub open spec fn is_dead(g: Grid) -> bool {
    forall|x: int, y: int| in_chunk(x, y) ==> !#[trigger] cell(g, x, y)
}

/// `a` and `b` hold the same cells.
pub open spec fn same_cells(a: Grid, b: Grid) -> bool {
    forall|x: int, y: int| in_chunk(x, y) ==> #[trigger] cell(a, x, y) == cell(b, x, y)
}

/// `after` is `before` with the cell at `(x, y)` set to `state`.
pub open spec fn is_update(before: Grid, after: Grid, x: int, y: int, state: bool) -> bool {
    forall|a: int, b: int|
        in_chunk(a, b) ==> #[trigger] cell(after, a, b) == (if a == x && b == y {
            state
        } else {
            cell(before, a, b)
        })
}

/// 1 for a live cell, 0 for a dead one.
pub open spec fn alive_int(state: bool) -> int {
    if state {
        1
    } else {
        0
    }
}

/// The number of live cells among the first `n` cells of a column.
pub open spec fn column_alive(column: [bool; 50], n: int) -> int
    decreases n,
{
    if n <= 0 {
        0
    } else {
        column_alive(column, n - 1) + alive_int(column[n - 1])
    }
}

/// The number of live cells in the first `n` columns of a grid.
pub open spec fn columns_alive(g: Grid, n: int) -> int
    decreases n,
{
    if n <= 0 {
        0
    } else {
        columns_alive(g, n - 1) + column_alive(g[n - 1], 50)
    }
}

/// The number of live cells in a grid.
pub open spec fn alive_count(g: Grid) -> int {
    columns_alive(g, 50)
}

/// Grids that hold the same cells are the same grid.
pub proof fn lemma_same_cells_equal(a: Grid, b: Grid)
    requires
        same_cells(a, b),
    ensures
        a == b,
{
    assert forall|x: int| 0 <= x < 50 implies a[x] == b[x] by {
        assert forall|y: int| 0 <= y < 50 implies a[x][y] == b[x][y] by {
            assert(cell(a, x, y) == cell(b, x, y));
        }
        assert(a[x] =~= b[x]);
    }
    assert(a =~= b);
}

/// The first `n` cells of a column hold between 0 and `n` live cells.
pub proof fn lemma_column_alive_range(column: [bool; 50], n: int)
    requires
        0 <= n <= 50,
    ensures
        0 <= column_alive(column, n) <= n,
    decreases n,
{
    if n > 0 {
        lemma_column_alive_range(column, n - 1);
    }
}

/// The first `n` columns of a grid hold between 0 and `50 * n` live cells.
pub proof fn lemma_columns_alive_range(g: Grid, n: int)
    requires
        0 <= n <= 50,
    ensures
        0 <= columns_alive(g, n) <= 50 * n,
    decreases n,
{
    if n > 0 {
        lemma_columns_alive_range(g, n - 1);
        lemma_column_alive_range(g[n - 1], 50);
    }
}

/// Columns that agree on their first `n` cells have the same count there.
pub proof fn lemma_column_alive_agree(a: [bool; 50], b: [bool; 50], n: int)
    requires
        0 <= n <= 50,
        forall|i: int| 0 <= i < n ==> a[i] == b[i],
    ensures
        column_alive(a, n) == column_alive(b, n),
    decreases n,
{
    if n > 0 {
        lemma_column_alive_agree(a, b, n - 1);
    }
}

/// Grids that agree on their first `n` columns have the same count there.
pub proof fn lemma_columns_alive_agree(a: Grid, b: Grid, n: int)
    requires
        0 <= n <= 50,
        forall|x: int, y: int|
            0 <= x < n && 0 <= y < 50 ==> #[trigger] cell(a, x, y) == cell(b, x, y),
    ensures
        columns_alive(a, n) == columns_alive(b, n),
    decreases n,
{
    if n > 0 {
        lemma_columns_alive_agree(a, b, n - 1);
        let last_a = a[n - 1];
        let last_b = b[n - 1];
        assert forall|i: int| 0 <= i < 50 implies last_a[i] == last_b[i] by {
            assert(cell(a, n - 1, i) == cell(b, n - 1, i));
        }
        lemma_column_alive_agree(last_a, last_b, 50);
    }
}

/// The first `n` cells of a column count zero exactly when all of them are dead.
pub proof fn lemma_column_alive_zero(column: [bool; 50], n: int)
    requires
        0 <= n <= 50,
    ensures
        column_alive(column, n) == 0 <==> (forall|i: int| 0 <= i < n ==> !column[i]),
    decreases n,
{
    if n > 0 {
        lemma_column_alive_zero(column, n - 1);
        lemma_column_alive_range(column, n - 1);
        if column_alive(column, n) == 0 {
            assert forall|i: int| 0 <= i < n implies !column[i] by {
                if i < n - 1 {
                }
            }
        }
    }
}

/// The first `n` columns count zero exactly when all their cells are dead.
proof fn lemma_columns_alive_zero(g: Grid, n: int)
    requires
        0 <= n <= 50,
    ensures
        columns_alive(g, n) == 0 <==> (forall|x: int, y: int|
            0 <= x < n && 0 <= y < 50 ==> !#[trigger] cell(g, x, y)),
    decreases n,
{
    if n > 0 {
        lemma_columns_alive_zero(g, n - 1);
        lemma_columns_alive_range(g, n - 1);
        lemma_column_alive_range(g[n - 1], 50);
        lemma_column_alive_zero(g[n - 1], 50);
        let last = g[n - 1];
        if columns_alive(g, n) == 0 {
            assert forall|x: int, y: int| 0 <= x < n && 0 <= y < 50 implies !#[trigger] cell(
                g,
                x,
                y,
            ) by {
                if x == n - 1 {
                    assert(!last[y]);
                }
            }
        } else if columns_alive(g, n - 1) == 0 {
            let i = choose|i: int| 0 <= i < 50 && last[i];
            assert(cell(g, n - 1, i));
        } else {
        }
    }
}

/// A grid counts zero live cells exactly when it is dead.
pub proof fn lemma_alive_count_zero(g: Grid)
    ensures
        alive_count(g) == 0 <==> is_dead(g),
        0 <= alive_count(g) <= 2500,
{
    lemma_columns_alive_zero(g, 50);
    lemma_columns_alive_range(g, 50);
}

/// Columns that differ at most at the cell `y` differ in their count by
/// the difference at that cell.
proof fn lemma_column_alive_update(a: [bool; 50], b: [bool; 50], y: int, n: int)
    requires
        0 <= n <= 50,
        0 <= y < 50,
        forall|i: int| 0 <= i < 50 && i != y ==> a[i] == b[i],
    ensures
        column_alive(b, n) == column_alive(a, n) + (if y < n {
            alive_int(b[y]) - alive_int(a[y])
        } else {
            0
        }),
    decreases n,
{
    if n > 0 {
        lemma_column_alive_update(a, b, y, n - 1);
    }
}

/// Grids that differ at most at the cell `(x, y)` differ in their count by
/// the difference at that cell.
proof fn lemma_columns_alive_update(a: Grid, b: Grid, x: int, y: int, n: int)
    requires
        0 <= n <= 50,
        in_chunk(x, y),
        is_update(a, b, x, y, cell(b, x, y)),
    ensures
        columns_alive(b, n) == columns_alive(a, n) + (if x < n {
            alive_int(cell(b, x, y)) - alive_int(cell(a, x, y))
        } else {
            0
        }),
    decreases n,
{
    if n > 0 {
        lemma_columns_alive_update(a, b, x, y, n - 1);
        let last_a = a[n - 1];
        let last_b = b[n - 1];
        assert forall|i: int| 0 <= i < 50 && (n - 1 != x || i != y) implies last_a[i]
            == last_b[i] by {
            assert(cell(b, n - 1, i) == cell(a, n - 1, i));
        }
        if n - 1 == x {
            lemma_column_alive_update(last_a, last_b, y, 50);
        } else {
            lemma_column_alive_agree(last_a, last_b, 50);
        }
    }
}

/// Setting one cell changes the count by the difference at that cell.
pub proof fn lemma_alive_count_update(before: Grid, after: Grid, x: int, y: int, state: bool)
    requires
        in_chunk(x, y),
        is_update(before, after, x, y, state),
    ensures
        alive_count(after) == alive_count(before) + alive_int(state) - alive_int(
            cell(before, x, y),
        ),
{
    assert(cell(after, x, y) == state);
    lemma_columns_alive_update(before, after, x, y, 50);
}

/// A grid with no live cell.
pub fn dead_grid() -> (g: Grid)
    ensures
        is_dead(g),
        alive_count(g) == 0,
{
    let g: Grid = [[false; 50]; 50];
    proof {
        assert forall|x: int, y: int| in_chunk(x, y) implies !#[trigger] cell(g, x, y) by {
            assert(!g[x][y]);
        }
        lemma_alive_count_zero(g);
    }
    g
}

/// Whether two grids hold the same cells.
pub fn grids_equal(a: &Grid, b: &Grid) -> (equal: bool)
    ensures
        equal == (*a == *b),
{
    let mut x: usize = 0;
    while x < 50
        invariant
            x <= 50,
            forall|i: int, j: int|
                0 <= i < x && 0 <= j < 50 ==> #[trigger] cell(*a, i, j) == cell(*b, i, j),
        decreases 50 - x,
    {
        let mut y: usize = 0;
        while y < 50
            invariant
                x < 50,
                y <= 50,
                forall|i: int, j: int|
                    0 <= i < x && 0 <= j < 50 ==> #[trigger] cell(*a, i, j) == cell(*b, i, j),
                forall|j: int|
                    0 <= j < y ==> #[trigger] cell(*a, x as int, j) == cell(*b, x as int, j),
            decreases 50 - y,
        {
            if a[x][y] != b[x][y] {
                assert(cell(*a, x as int, y as int) != cell(*b, x as int, y as int));
                return false;
            }
            y += 1;
        }
        x += 1;
    }
    proof {
        lemma_same_cells_equal(*a, *b);
    }
    true
}

} // verus!
