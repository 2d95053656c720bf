//! What a renderer needs of a grid: its live cells in a fixed order, and
//! the corner numbers of the two triangles that make up each cell's square.

use crate::grid::{
    alive_count, cell, column_alive, columns_alive, in_chunk, lemma_column_alive_range,
    lemma_columns_alive_range, Grid,
};
use vstd::prelude::*;

verus! {

/// The place of the cell `p` in the order in which a grid is scanned:
/// column by column, and up each column.
pub open spec fn scan_rank(p: (usize, usize)) -> int {
    50 * p.0 + p.1
}

/// The corner of a square that the `i`-th of its six triangle corners
/// names: the square's corners are numbered 0 to 3, and its two triangles
/// are 0, 2, 1 and 0, 3, 2.
pub open spec fn triangle_corner(i: int) -> int {
    if i == 0 {
        0
    } else if i == 1 {
        2
    } else if i == 2 {
        1
    } else if i == 3 {
        0
    } else if i == 4 {
        3
    } else {
        2
    }
}

/// The live cells of `grid`, in the order of the scan.
pub fn live_cells(grid: &Grid) -> (cells: Vec<(usize, usize)>)
    ensures
        cells.len() == alive_count(*grid),
        forall|i: int|
            0 <= i < cells.len() ==> in_chunk((#[trigger] cells[i]).0 as int, cells[i].1 as int)
                && cell(*grid, cells[i].0 as int, cells[i].1 as int),
        forall|i: int, j: int|
            0 <= i < j < cells.len() ==> scan_rank(#[trigger] cells[i]) < scan_rank(
                #[trigger] cells[j],
            ),
        forall|x: int, y: int|
            in_chunk(x, y) && #[trigger] cell(*grid, x, y) ==> cells@.contains(
                (x as usize, y as usize),
            ),
{
    let mut cells: Vec<(usize, usize)> = Vec::new();
    let mut x: usize = 0;
    while x < 50
        invariant
            x <= 50,
            cells.len() == columns_alive(*grid, x as int),
            forall|i: int|
                0 <= i < cells.len() ==> in_chunk(
                    (#[trigger] cells[i]).0 as int,
                    cells[i].1 as int,
                ) && cell(*grid, cells[i].0 as int, cells[i].1 as int) && cells[i].0 < x,
            forall|i: int, j: int|
                0 <= i < j < cells.len() ==> scan_rank(#[trigger] cells[i]) < scan_rank(
                    #[trigger] cells[j],
                ),
            forall|a: int, b: int|
                0 <= a < x && 0 <= b < 50 && #[trigger] cell(*grid, a, b) ==> cells@.contains(
                    (a as usize, b as usize),
                ),
        decreases 50 - x,
    {
        let mut y: usize = 0;
        while y < 50
            invariant
                x < 50,
                y <= 50,
                cells.len() == columns_alive(*grid, x as int) + column_alive(
                    grid[x as int],
                    y as int,
                ),
                forall|i: int|
                    0 <= i < cells.len() ==> in_chunk(
                        (#[trigger] cells[i]).0 as int,
                        cells[i].1 as int,
                    ) && cell(*grid, cells[i].0 as int, cells[i].1 as int) && scan_rank(cells[i])
                        < 50 * x + y,
                forall|i: int, j: int|
                    0 <= i < j < cells.len() ==> scan_rank(#[trigger] cells[i]) < scan_rank(
                        #[trigger] cells[j],
                    ),
                forall|a: int, b: int|
                    0 <= a < x && 0 <= b < 50 && #[trigger] cell(*grid, a, b) ==> cells@.contains(
                        (a as usize, b as usize),
                    ),
                forall|b: int|
                    0 <= b < y && #[trigger] cell(*grid, x as int, b) ==> cells@.contains(
                        (x, b as usize),
                    ),
            decreases 50 - y,
        {
            proof {
                lemma_columns_alive_range(*grid, x as int);
                lemma_column_alive_range(grid[x as int], y as int);
            }
            let alive = grid[x][y];
            assert(alive == cell(*grid, x as int, y as int));
            if alive {
                let ghost before = cells@;
                cells.push((x, y));
                proof {
                    assert forall|p: (usize, usize)| before.contains(p) implies cells@.contains(
                        p,
                    ) by {
                        let i = choose|i: int| 0 <= i < before.len() && before[i] == p;
                        assert(cells@[i] == p);
                    }
                    assert(cells@[before.len() as int] == (x, y));
                }
            }
            y += 1;
        }
        x += 1;
    }
    cells
}

/// The corner numbers of the triangles of `quads` squares, six for each
/// square: the corners of the square `q` are numbered `4 * q` to
/// `4 * q + 3`.
pub fn quad_indices(quads: usize) -> (indices: Vec<u32>)
    requires
        4 * quads + 3 <= u32::MAX,
    ensures
        indices.len() == 6 * quads,
        forall|i: int|
            0 <= i < indices.len() ==> #[trigger] indices[i] == 4 * (i / 6) + triangle_corner(
                i % 6,
            ),
{
    let mut indices: Vec<u32> = Vec::new();
    let mut index: usize = 0;
    while index < quads
        invariant
            index <= quads,
            4 * quads + 3 <= u32::MAX,
            indices.len() == 6 * index,
            forall|i: int|
                0 <= i < indices.len() ==> #[trigger] indices[i] == 4 * (i / 6) + triangle_corner(
                    i % 6,
                ),
        decreases quads - index,
    {
        let base: u32 = 4 * (index as u32);
        indices.push(base);
        indices.push(base + 2);
        indices.push(base + 1);
        indices.push(base);
        indices.push(base + 3);
        indices.push(base + 2);
        index += 1;
    }
    indices
}

} // verus!
