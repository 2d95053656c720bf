use game_of_life::grid::{dead_grid, grids_equal, Grid};
use game_of_life::Chunk;

fn dead_neighbors() -> [Grid; 8] {
    [dead_grid(); 8]
}

fn count_true(grid: &Grid) -> i32 {
    let mut total: i32 = 0;
    for column in grid.iter() {
        for state in column.iter() {
            if *state {
                total += 1;
            }
        }
    }
    total
}

fn chunk_with(cells: &[(usize, usize)]) -> Chunk {
    let mut chunk = Chunk::new((0, 0));
    for (x, y) in cells.iter() {
        chunk.set_cell_state(*x, *y, true);
    }
    chunk
}

fn live_cells_of(chunk: &Chunk) -> Vec<(usize, usize)> {
    let mut cells: Vec<(usize, usize)> = Vec::new();
    for x in 0..50usize {
        for y in 0..50usize {
            if chunk.cell_state(x, y) {
                cells.push((x, y));
            }
        }
    }
    cells
}

#[test]
fn new_chunk_is_all_dead() {
    let chunk = Chunk::new((3, -4));
    assert_eq!(chunk.pos(), (3, -4));
    assert_eq!(chunk.current_gen_alive(), 0);
    assert_eq!(chunk.last_gen_alive(), 0);
    assert_eq!(count_true(chunk.current_gen()), 0);
    assert_eq!(count_true(chunk.last_gen()), 0);
    assert!(!chunk.changed());
}

#[test]
fn set_cell_state_keeps_the_count() {
    let mut chunk = Chunk::new((0, 0));
    chunk.set_cell_state(4, 5, true);
    assert!(chunk.cell_state(4, 5));
    assert!(!chunk.cell_state(5, 4));
    assert_eq!(chunk.current_gen_alive(), 1);
    chunk.set_cell_state(4, 5, true);
    assert_eq!(chunk.current_gen_alive(), 1);
    chunk.set_cell_state(49, 0, true);
    assert_eq!(chunk.current_gen_alive(), 2);
    chunk.set_cell_state(4, 5, false);
    assert_eq!(chunk.current_gen_alive(), 1);
    chunk.set_cell_state(4, 5, false);
    assert_eq!(chunk.current_gen_alive(), 1);
    assert_eq!(live_cells_of(&chunk), vec![(49, 0)]);
    assert_eq!(chunk.last_gen_alive(), 0);
}

#[test]
fn prepare_tick_moves_current_to_last_and_clears() {
    let mut chunk = chunk_with(&[(1, 2), (3, 4), (49, 49)]);
    let before: Grid = *chunk.current_gen();
    chunk.prepare_tick();
    assert!(grids_equal(chunk.last_gen(), &before));
    assert_eq!(chunk.last_gen_alive(), 3);
    assert_eq!(count_true(chunk.current_gen()), 0);
    assert_eq!(chunk.current_gen_alive(), 0);
    assert_eq!(chunk.pos(), (0, 0));
}

#[test]
fn prepare_tick_replaces_the_last_generation() {
    let mut chunk = chunk_with(&[(1, 2)]);
    chunk.prepare_tick();
    chunk.set_cell_state(7, 7, true);
    chunk.prepare_tick();
    assert!(!chunk.last_gen()[1][2]);
    assert!(chunk.last_gen()[7][7]);
    assert_eq!(chunk.last_gen_alive(), 1);
}

#[test]
fn dead_chunk_among_dead_chunks_stays_dead() {
    let mut chunk = Chunk::new((0, 0));
    chunk.prepare_tick();
    chunk.tick(dead_neighbors());
    assert_eq!(count_true(chunk.current_gen()), 0);
    assert_eq!(chunk.current_gen_alive(), 0);
    assert!(!chunk.changed());
}

#[test]
fn block_is_a_still_life() {
    let mut chunk = chunk_with(&[(10, 10), (10, 11), (11, 10), (11, 11)]);
    chunk.prepare_tick();
    chunk.tick(dead_neighbors());
    assert_eq!(live_cells_of(&chunk), vec![(10, 10), (10, 11), (11, 10), (11, 11)]);
    assert_eq!(chunk.current_gen_alive(), 4);
    assert!(!chunk.changed());
}

#[test]
fn block_in_the_corner_of_a_chunk_is_a_still_life() {
    let mut chunk = chunk_with(&[(0, 0), (0, 1), (1, 0), (1, 1)]);
    chunk.prepare_tick();
    chunk.tick(dead_neighbors());
    assert_eq!(live_cells_of(&chunk), vec![(0, 0), (0, 1), (1, 0), (1, 1)]);
    assert!(!chunk.changed());
}

#[test]
fn blinker_turns_and_turns_back() {
    let mut chunk = chunk_with(&[(24, 25), (25, 25), (26, 25)]);
    chunk.prepare_tick();
    chunk.tick(dead_neighbors());
    assert_eq!(live_cells_of(&chunk), vec![(25, 24), (25, 25), (25, 26)]);
    assert_eq!(chunk.current_gen_alive(), 3);
    assert!(chunk.changed());
    chunk.prepare_tick();
    chunk.tick(dead_neighbors());
    assert_eq!(live_cells_of(&chunk), vec![(24, 25), (25, 25), (26, 25)]);
    assert_eq!(chunk.current_gen_alive(), 3);
    assert!(chunk.changed());
}

#[test]
fn lonely_cell_dies_and_crowded_cell_dies() {
    let mut chunk = chunk_with(&[(5, 5)]);
    chunk.prepare_tick();
    chunk.tick(dead_neighbors());
    assert_eq!(chunk.current_gen_alive(), 0);
    assert!(chunk.changed());

    let mut crowded = chunk_with(&[(20, 20), (19, 20), (21, 20), (20, 19), (20, 21)]);
    crowded.prepare_tick();
    crowded.tick(dead_neighbors());
    assert!(!crowded.cell_state(20, 20));
    assert!(crowded.cell_state(19, 19));
    assert_eq!(crowded.current_gen_alive(), 8);
}

#[test]
fn dead_cell_with_three_neighbors_is_born() {
    let mut chunk = chunk_with(&[(10, 10), (11, 10), (10, 11)]);
    chunk.prepare_tick();
    chunk.tick(dead_neighbors());
    assert!(chunk.cell_state(11, 11));
    assert_eq!(live_cells_of(&chunk), vec![(10, 10), (10, 11), (11, 10), (11, 11)]);
}

#[test]
fn tick_leaves_the_last_generation_alone() {
    let mut chunk = chunk_with(&[(24, 25), (25, 25), (26, 25)]);
    chunk.prepare_tick();
    let last: Grid = *chunk.last_gen();
    chunk.tick(dead_neighbors());
    assert!(grids_equal(chunk.last_gen(), &last));
    assert_eq!(chunk.last_gen_alive(), 3);
    assert_eq!(chunk.pos(), (0, 0));
}

#[test]
fn count_after_tick_is_the_number_of_live_cells() {
    let mut chunk = chunk_with(&[
        (1, 0),
        (2, 1),
        (0, 2),
        (1, 2),
        (2, 2),
        (30, 30),
        (31, 30),
        (32, 30),
        (31, 31),
        (48, 49),
        (49, 49),
        (49, 48),
    ]);
    let mut generation: i32 = 0;
    while generation < 30 {
        chunk.prepare_tick();
        chunk.tick(dead_neighbors());
        assert_eq!(chunk.current_gen_alive(), count_true(chunk.current_gen()));
        assert_eq!(chunk.last_gen_alive(), count_true(chunk.last_gen()));
        generation += 1;
    }
}

fn single(x: usize, y: usize) -> Grid {
    let mut grid: Grid = dead_grid();
    grid[x][y] = true;
    grid
}

#[test]
fn corner_positions_read_one_cell_of_the_diagonal_neighbor() {
    let chunk = Chunk::new((0, 0));
    let mut neighbors = dead_neighbors();
    neighbors[1] = single(49, 0);
    neighbors[3] = single(0, 0);
    neighbors[5] = single(0, 49);
    neighbors[7] = single(49, 49);
    assert!(chunk.get_neighbor_status(&neighbors, (-1, 50)));
    assert!(chunk.get_neighbor_status(&neighbors, (50, 50)));
    assert!(chunk.get_neighbor_status(&neighbors, (50, -1)));
    assert!(chunk.get_neighbor_status(&neighbors, (-1, -1)));
    assert!(!chunk.get_neighbor_status(&neighbors, (-1, 49)));
    assert!(!chunk.get_neighbor_status(&neighbors, (49, 50)));
    assert!(!chunk.get_neighbor_status(&neighbors, (50, 0)));
    assert!(!chunk.get_neighbor_status(&neighbors, (0, -1)));
}

#[test]
fn corner_positions_do_not_read_the_edge_neighbors() {
    let chunk = Chunk::new((0, 0));
    let mut full: Grid = dead_grid();
    for x in 0..50usize {
        for y in 0..50usize {
            full[x][y] = true;
        }
    }
    let mut neighbors = dead_neighbors();
    neighbors[0] = full;
    neighbors[2] = full;
    neighbors[4] = full;
    neighbors[6] = full;
    assert!(!chunk.get_neighbor_status(&neighbors, (-1, 50)));
    assert!(!chunk.get_neighbor_status(&neighbors, (50, 50)));
    assert!(!chunk.get_neighbor_status(&neighbors, (50, -1)));
    assert!(!chunk.get_neighbor_status(&neighbors, (-1, -1)));
}

#[test]
fn edge_positions_read_the_facing_line_of_the_edge_neighbor() {
    let chunk = Chunk::new((0, 0));
    let mut neighbors = dead_neighbors();
    neighbors[0] = single(49, 17);
    neighbors[2] = single(23, 0);
    neighbors[4] = single(0, 31);
    neighbors[6] = single(8, 49);
    assert!(chunk.get_neighbor_status(&neighbors, (-1, 17)));
    assert!(!chunk.get_neighbor_status(&neighbors, (-1, 16)));
    assert!(chunk.get_neighbor_status(&neighbors, (23, 50)));
    assert!(!chunk.get_neighbor_status(&neighbors, (24, 50)));
    assert!(chunk.get_neighbor_status(&neighbors, (50, 31)));
    assert!(!chunk.get_neighbor_status(&neighbors, (50, 30)));
    assert!(chunk.get_neighbor_status(&neighbors, (8, -1)));
    assert!(!chunk.get_neighbor_status(&neighbors, (9, -1)));
}

#[test]
fn inner_positions_read_the_last_generation() {
    let mut chunk = chunk_with(&[(0, 0), (49, 49), (12, 34)]);
    let mut full: Grid = dead_grid();
    for x in 0..50usize {
        for y in 0..50usize {
            full[x][y] = true;
        }
    }
    let neighbors: [Grid; 8] = [full; 8];
    assert!(!chunk.get_neighbor_status(&neighbors, (12, 34)));
    chunk.prepare_tick();
    assert!(chunk.get_neighbor_status(&neighbors, (0, 0)));
    assert!(chunk.get_neighbor_status(&neighbors, (49, 49)));
    assert!(chunk.get_neighbor_status(&neighbors, (12, 34)));
    assert!(!chunk.get_neighbor_status(&neighbors, (34, 12)));
    assert!(!chunk.get_neighbor_status(&neighbors, (0, 49)));
}

fn patterned(seed: usize) -> Grid {
    let mut grid: Grid = dead_grid();
    for x in 0..50usize {
        for y in 0..50usize {
            grid[x][y] = (x * 7 + y * 13 + seed * 5 + (x * y) % 3) % 4 == 0;
        }
    }
    grid
}

fn slot_toward(dx: i32, dy: i32) -> usize {
    match (dx, dy) {
        (-1, 0) => 0,
        (-1, 1) => 1,
        (0, 1) => 2,
        (1, 1) => 3,
        (1, 0) => 4,
        (1, -1) => 5,
        (0, -1) => 6,
        (-1, -1) => 7,
        _ => unreachable!(),
    }
}

#[test]
fn every_position_resolves_to_its_cell_of_the_plane() {
    let mut chunk = Chunk::new((0, 0));
    let own = patterned(8);
    for x in 0..50usize {
        for y in 0..50usize {
            chunk.set_cell_state(x, y, own[x][y]);
        }
    }
    chunk.prepare_tick();
    let mut neighbors = dead_neighbors();
    for slot in 0..8usize {
        neighbors[slot] = patterned(slot);
    }
    let mut x: i32 = -1;
    while x <= 50 {
        let mut y: i32 = -1;
        while y <= 50 {
            let dx = x.div_euclid(50);
            let dy = y.div_euclid(50);
            let lx = x.rem_euclid(50) as usize;
            let ly = y.rem_euclid(50) as usize;
            let expected = if dx == 0 && dy == 0 {
                own[lx][ly]
            } else {
                neighbors[slot_toward(dx, dy)][lx][ly]
            };
            assert_eq!(chunk.get_neighbor_status(&neighbors, (x, y)), expected);
            y += 1;
        }
        x += 1;
    }
}

#[test]
fn corner_cell_counts_neighbors_from_three_chunks() {
    let mut chunk = chunk_with(&[(1, 0), (0, 1)]);
    chunk.prepare_tick();
    let mut neighbors = dead_neighbors();
    neighbors[0] = single(49, 0);
    neighbors[6] = single(0, 49);
    neighbors[7] = single(49, 49);
    assert_eq!(chunk.get_alive_neighbors(&neighbors, (0, 0)), 5);
    neighbors[0][49][1] = true;
    neighbors[6][1][49] = true;
    assert_eq!(chunk.get_alive_neighbors(&neighbors, (0, 0)), 7);
    assert_eq!(chunk.get_alive_neighbors(&neighbors, (25, 25)), 0);
}

#[test]
fn cell_on_the_edge_is_born_from_the_neighbor_chunk() {
    let mut chunk = Chunk::new((0, 0));
    chunk.prepare_tick();
    let mut east: Grid = dead_grid();
    east[0][9] = true;
    east[0][10] = true;
    east[0][11] = true;
    let mut neighbors = dead_neighbors();
    neighbors[4] = east;
    chunk.tick(neighbors);
    assert_eq!(live_cells_of(&chunk), vec![(49, 10)]);
    assert_eq!(chunk.current_gen_alive(), 1);
    assert!(chunk.changed());
}

#[test]
fn grids_equal_compares_every_cell() {
    let a = single(49, 49);
    let b = single(49, 49);
    let c = single(49, 48);
    assert!(grids_equal(&a, &b));
    assert!(!grids_equal(&a, &c));
    assert!(!grids_equal(&a, &dead_grid()));
    assert!(grids_equal(&dead_grid(), &dead_grid()));
}
