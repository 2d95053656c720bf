use game_of_life::grid::{dead_grid, Grid};
use game_of_life::mesh::{live_cells, quad_indices};

#[test]
fn live_cells_come_in_scan_order() {
    let mut grid: Grid = dead_grid();
    grid[49][0] = true;
    grid[0][49] = true;
    grid[3][7] = true;
    grid[3][2] = true;
    grid[0][0] = true;
    assert_eq!(live_cells(&grid), vec![(0, 0), (0, 49), (3, 2), (3, 7), (49, 0)]);
}

#[test]
fn dead_grid_has_no_live_cells() {
    let cells = live_cells(&dead_grid());
    assert!(cells.is_empty());
}

#[test]
fn full_grid_lists_every_cell() {
    let grid: Grid = [[true; 50]; 50];
    let cells = live_cells(&grid);
    assert_eq!(cells.len(), 2500);
    assert_eq!(cells[0], (0, 0));
    assert_eq!(cells[51], (1, 1));
    assert_eq!(cells[2499], (49, 49));
}

#[test]
fn quad_indices_name_two_triangles_for_each_square() {
    assert_eq!(quad_indices(0), Vec::<u32>::new());
    assert_eq!(quad_indices(1), vec![0, 2, 1, 0, 3, 2]);
    assert_eq!(quad_indices(3), vec![0, 2, 1, 0, 3, 2, 4, 6, 5, 4, 7, 6, 8, 10, 9, 8, 11, 10]);
}

#[test]
fn quad_indices_of_a_full_chunk() {
    let indices = quad_indices(2500);
    assert_eq!(indices.len(), 15000);
    assert_eq!(indices[14994], 9996);
    assert_eq!(indices[14998], 9999);
    assert_eq!(indices[14999], 9998);
}
