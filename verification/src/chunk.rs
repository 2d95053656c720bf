//! A chunk: two generations of one square of the plane, and the step from
//! the previous generation to the current one.

use crate::grid::{
    alive_count, alive_int, cell, column_alive, columns_alive, dead_grid, grids_equal, in_chunk,
    is_dead, is_update, lemma_alive_count_update, lemma_alive_count_zero, lemma_column_alive_agree,
    lemma_columns_alive_agree, Grid,
};
use crate::utils::{chunk_of, local_of};
use vstd::prelude::*;

verus! {

/// The rule of the game: a live cell stays alive with two or three live
/// neighbors, a dead cell comes alive with exactly three.
pub open spec fn life_rule(alive: bool, neighbors: int) -> bool {
    neighbors == 3 || (alive && neighbors == 2)
}

/// The place in the array of neighbor grids of the chunk that lies `dx`
/// chunks to the east and `dy` chunks to the north: west first, then
/// clockwise.
pub open spec fn neighbor_slot(dx: int, dy: int) -> int {
    if dx == -1 && dy == 0 {
        0
    } else if dx == -1 && dy == 1 {
        1
    } else if dx == 0 && dy == 1 {
        2
    } else if dx == 1 && dy == 1 {
        3
    } else if dx == 1 && dy == 0 {
        4
    } else if dx == 1 && dy == -1 {
        5
    } else if dx == 0 && dy == -1 {
        6
    } else {
        7
    }
}

/// The state in the previous generation of the position `(x, y)` as seen
/// from a chunk. A position inside the chunk is read from the chunk's own
/// grid `last`. A position one step outside is read from the grid of the
/// neighbor that it falls into, at the cell where it lies in that neighbor.
pub open spec fn neighbor_status(last: Grid, neighbors: [Grid; 8], x: int, y: int) -> bool {
    let dx = chunk_of(x);
    let dy = chunk_of(y);
    let source = if dx == 0 && dy == 0 {
        last
    } else {
        neighbors[neighbor_slot(dx, dy)]
    };
    cell(source, local_of(x), local_of(y))
}

/// The number of live cells among the eight positions around `(x, y)`.
pub open spec fn alive_neighbors(last: Grid, neighbors: [Grid; 8], x: int, y: int) -> int {
    alive_int(neighbor_status(last, neighbors, x - 1, y))
        + alive_int(neighbor_status(last, neighbors, x - 1, y + 1))
        + alive_int(neighbor_status(last, neighbors, x, y + 1))
        + alive_int(neighbor_status(last, neighbors, x + 1, y + 1))
        + alive_int(neighbor_status(last, neighbors, x + 1, y))
        + alive_int(neighbor_status(last, neighbors, x + 1, y - 1))
        + alive_int(neighbor_status(last, neighbors, x, y - 1))
        + alive_int(neighbor_status(last, neighbors, x - 1, y - 1))
}

/// The state of the cell `(x, y)` one generation after `last`.
pub open spec fn next_state(last: Grid, neighbors: [Grid; 8], x: int, y: int) -> bool {
    life_rule(cell(last, x, y), alive_neighbors(last, neighbors, x, y))
}

/// An all-dead chunk among all-dead chunks stays all dead.
pub proof fn lemma_dead_stays_dead(last: Grid, neighbors: [Grid; 8], x: int, y: int)
    requires
        is_dead(last),
        forall|i: int| 0 <= i < 8 ==> is_dead(#[trigger] neighbors[i]),
        in_chunk(x, y),
    ensures
        !next_state(last, neighbors, x, y),
{
    lemma_dead_around(last, neighbors, x - 1, y);
    lemma_dead_around(last, neighbors, x - 1, y + 1);
    lemma_dead_around(last, neighbors, x, y + 1);
    lemma_dead_around(last, neighbors, x + 1, y + 1);
    lemma_dead_around(last, neighbors, x + 1, y);
    lemma_dead_around(last, neighbors, x + 1, y - 1);
    lemma_dead_around(last, neighbors, x, y - 1);
    lemma_dead_around(last, neighbors, x - 1, y - 1);
}

/// Among all-dead grids every position in and around the chunk reads dead.
proof fn lemma_dead_around(last: Grid, neighbors: [Grid; 8], x: int, y: int)
    requires
        is_dead(last),
        forall|i: int| 0 <= i < 8 ==> is_dead(#[trigger] neighbors[i]),
        -1 <= x <= 50,
        -1 <= y <= 50,
    ensures
        !neighbor_status(last, neighbors, x, y),
{
    let slot = neighbor_slot(chunk_of(x), chunk_of(y));
    assert(is_dead(neighbors[slot]));
    assert(in_chunk(local_of(x), local_of(y)));
}

/// What a chunk holds, as a mathematical value.
pub struct ChunkView {
    /// The chunk's place in the grid of chunks.
    pub pos: (int, int),
    /// The generation before the last step.
    pub last_gen: Grid,
    /// The count kept for `last_gen`.
    pub last_gen_alive: int,
    /// The generation that is shown and edited.
    pub current_gen: Grid,
    /// The count kept for `current_gen`.
    pub current_gen_alive: int,
}

impl ChunkView {
    /// Both counts are the number of live cells of their grid, and the
    /// position is one that a chunk can have.
    pub open spec fn wf(self) -> bool {
        &&& i32::MIN <= self.pos.0 <= i32::MAX
        &&& i32::MIN <= self.pos.1 <= i32::MAX
        &&& self.last_gen_alive == alive_count(self.last_gen)
        &&& self.current_gen_alive == alive_count(self.current_gen)
    }

    /// The current generation differs from the previous one.
    pub open spec fn changed(self) -> bool {
        self.current_gen != self.last_gen
    }

    /// A chunk at `pos` in which nothing has ever lived.
    pub open spec fn is_fresh(self, pos: (int, int)) -> bool {
        &&& self.pos == pos
        &&& is_dead(self.last_gen)
        &&& self.last_gen_alive == 0
        &&& is_dead(self.current_gen)
        &&& self.current_gen_alive == 0
    }
}

/// A fixed square of the plane with its current and its previous generation.
#[derive(Debug)]
pub struct Chunk {
    pos: (i32, i32),
    last_gen: Grid,
    last_gen_alive: i32,
    current_gen: Grid,
    current_gen_alive: i32,
}

impl View for Chunk {
    type V = ChunkView;

    closed spec fn view(&self) -> ChunkView {
        ChunkView {
            pos: (self.pos.0 as int, self.pos.1 as int),
            last_gen: self.last_gen,
            last_gen_alive: self.last_gen_alive as int,
            current_gen: self.current_gen,
            current_gen_alive: self.current_gen_alive as int,
        }
    }
}

impl Chunk {
    /// The counts kept by the chunk are those of its grids.
    pub open spec fn wf(&self) -> bool {
        self@.wf()
    }

    /// An all-dead chunk at `pos`.
    pub fn new(pos: (i32, i32)) -> (chunk: Chunk)
        ensures
            chunk.wf(),
            chunk@.is_fresh((pos.0 as int, pos.1 as int)),
    {
        Chunk {
            pos,
            last_gen: dead_grid(),
            last_gen_alive: 0,
            current_gen: dead_grid(),
            current_gen_alive: 0,
        }
    }

    /// The chunk's place in the grid of chunks.
    pub fn pos(&self) -> (pos: (i32, i32))
        ensures
            pos.0 == self@.pos.0,
            pos.1 == self@.pos.1,
    {
        self.pos
    }

    /// The previous generation.
    pub fn last_gen(&self) -> (g: &Grid)
        ensures
            *g == self@.last_gen,
    {
        &self.last_gen
    }

    /// The number of live cells of the previous generation.
    pub fn last_gen_alive(&self) -> (count: i32)
        ensures
            count == self@.last_gen_alive,
    {
        self.last_gen_alive
    }

    /// The current generation.
    pub fn current_gen(&self) -> (g: &Grid)
        ensures
            *g == self@.current_gen,
    {
        &self.current_gen
    }

    /// The number of live cells of the current generation.
    pub fn current_gen_alive(&self) -> (count: i32)
        ensures
            count == self@.current_gen_alive,
    {
        self.current_gen_alive
    }

    /// The state of the cell `(x, y)` in the current generation.
    pub fn cell_state(&self, x: usize, y: usize) -> (state: bool)
        requires
            x < 50,
            y < 50,
        ensures
            state == cell(self@.current_gen, x as int, y as int),
    {
        self.current_gen[x][y]
    }

    /// Sets the cell `(x, y)` of the current generation to `state` and keeps
    /// the count in step.
    pub fn set_cell_state(&mut self, x: usize, y: usize, state: bool)
        requires
            old(self).wf(),
            x < 50,
            y < 50,
        ensures
            final(self).wf(),
            final(self)@.pos == old(self)@.pos,
            final(self)@.last_gen == old(self)@.last_gen,
            final(self)@.last_gen_alive == old(self)@.last_gen_alive,
            is_update(old(self)@.current_gen, final(self)@.current_gen, x as int, y as int, state),
            final(self)@.current_gen_alive == old(self)@.current_gen_alive + alive_int(state)
                - alive_int(cell(old(self)@.current_gen, x as int, y as int)),
    {
        let was = self.current_gen[x][y];
        self.current_gen[x][y] = state;
        proof {
            assert(is_update(
                old(self).current_gen,
                self.current_gen,
                x as int,
                y as int,
                state,
            )) by {
                assert forall|a: int, b: int| in_chunk(a, b) implies #[trigger] cell(
                    self.current_gen,
                    a,
                    b,
                ) == (if a == x && b == y {
                    state
                } else {
                    cell(old(self).current_gen, a, b)
                }) by {
                    assert(self.current_gen[a][b] == (if a == x && b == y {
                        state
                    } else {
                        old(self).current_gen[a][b]
                    }));
                }
            }
            lemma_alive_count_update(
                old(self).current_gen,
                self.current_gen,
                x as int,
                y as int,
                state,
            );
            lemma_alive_count_zero(old(self).current_gen);
            lemma_alive_count_zero(self.current_gen);
        }
        if was && !state {
            self.current_gen_alive -= 1;
        } else if !was && state {
            self.current_gen_alive += 1;
        }
    }

    /// Makes the current generation the previous one and clears the
    /// current one, so that the next step can fill it.
    pub fn prepare_tick(&mut self)
        requires
            old(self).wf(),
        ensures
            final(self).wf(),
            final(self)@.pos == old(self)@.pos,
            final(self)@.last_gen == old(self)@.current_gen,
            final(self)@.last_gen_alive == old(self)@.current_gen_alive,
            is_dead(final(self)@.current_gen),
            final(self)@.current_gen_alive == 0,
    {
        self.last_gen = self.current_gen;
        self.last_gen_alive = self.current_gen_alive;

        self.current_gen = dead_grid();
        self.current_gen_alive = 0;
    }

    /// The state in the previous generation of the position `pos`, which
    /// lies in this chunk or one step outside it. The neighbor grids come
    /// in the order west, north-west, north, north-east, east, south-east,
    /// south, south-west.
    pub fn get_neighbor_status(&self, chunk_neighbors_state: &[Grid; 8], pos: (i32, i32)) -> (alive:
        bool)
        requires
            -1 <= pos.0 <= 50,
            -1 <= pos.1 <= 50,
        ensures
            alive == neighbor_status(
                self@.last_gen,
                *chunk_neighbors_state,
                pos.0 as int,
                pos.1 as int,
            ),
    {
        match pos {
            (-1, 50) => chunk_neighbors_state[1][49][0],
            (50, 50) => chunk_neighbors_state[3][0][0],
            (50, -1) => chunk_neighbors_state[5][0][49],
            (-1, -1) => chunk_neighbors_state[7][49][49],
            (-1, y) => chunk_neighbors_state[0][49][y as usize],
            (x, 50) => chunk_neighbors_state[2][x as usize][0],
            (50, y) => chunk_neighbors_state[4][0][y as usize],
            (x, -1) => chunk_neighbors_state[6][x as usize][49],
            (x, y) => self.last_gen[x as usize][y as usize],
        }
    }

    /// The number of live cells, in the previous generation, among the
    /// eight positions around the cell `pos` of this chunk.
    pub fn get_alive_neighbors(&self, chunk_neighbors_state: &[Grid; 8], pos: (i32, i32)) -> (count:
        i32)
        requires
            0 <= pos.0 < 50,
            0 <= pos.1 < 50,
        ensures
            count == alive_neighbors(
                self@.last_gen,
                *chunk_neighbors_state,
                pos.0 as int,
                pos.1 as int,
            ),
            0 <= count <= 8,
    {
        let x: i32 = pos.0;
        let y: i32 = pos.1;
        let mut total_alive: i32 = 0;
        if self.get_neighbor_status(chunk_neighbors_state, (x - 1, y)) {
            total_alive += 1;
        }
        if self.get_neighbor_status(chunk_neighbors_state, (x - 1, y + 1)) {
            total_alive += 1;
        }
        if self.get_neighbor_status(chunk_neighbors_state, (x, y + 1)) {
            total_alive += 1;
        }
        if self.get_neighbor_status(chunk_neighbors_state, (x + 1, y + 1)) {
            total_alive += 1;
        }
        if self.get_neighbor_status(chunk_neighbors_state, (x + 1, y)) {
            total_alive += 1;
        }
        if self.get_neighbor_status(chunk_neighbors_state, (x + 1, y - 1)) {
            total_alive += 1;
        }
        if self.get_neighbor_status(chunk_neighbors_state, (x, y - 1)) {
            total_alive += 1;
        }
        if self.get_neighbor_status(chunk_neighbors_state, (x - 1, y - 1)) {
            total_alive += 1;
        }
        total_alive
    }

    /// Computes the current generation from the previous one and the
    /// previous generations of the eight chunks around, given in the order
    /// west, north-west, north, north-east, east, south-east, south,
    /// south-west. The chunk must have been prepared for the step.
    pub fn tick(&mut self, chunk_neighbors_state: [Grid; 8])
        requires
            old(self).wf(),
            old(self)@.current_gen_alive == 0,
        ensures
            final(self).wf(),
            final(self)@.pos == old(self)@.pos,
            final(self)@.last_gen == old(self)@.last_gen,
            final(self)@.last_gen_alive == old(self)@.last_gen_alive,
            forall|x: int, y: int|
                in_chunk(x, y) ==> #[trigger] cell(final(self)@.current_gen, x, y) == next_state(
                    old(self)@.last_gen,
                    chunk_neighbors_state,
                    x,
                    y,
                ),
    {
        let mut x: i32 = 0;
        while x < 50
            invariant
                0 <= x <= 50,
                self.pos == old(self).pos,
                self.last_gen == old(self).last_gen,
                self.last_gen_alive == old(self).last_gen_alive,
                self.current_gen_alive == columns_alive(self.current_gen, x as int),
                0 <= self.current_gen_alive <= 50 * x,
                forall|a: int, b: int|
                    0 <= a < x && 0 <= b < 50 ==> #[trigger] cell(self.current_gen, a, b)
                        == next_state(old(self).last_gen, chunk_neighbors_state, a, b),
            decreases 50 - x,
        {
            let mut y: i32 = 0;
            while y < 50
                invariant
                    0 <= x < 50,
                    0 <= y <= 50,
                    self.pos == old(self).pos,
                    self.last_gen == old(self).last_gen,
                    self.last_gen_alive == old(self).last_gen_alive,
                    self.current_gen_alive == columns_alive(self.current_gen, x as int)
                        + column_alive(self.current_gen[x as int], y as int),
                    0 <= self.current_gen_alive <= 50 * x + y,
                    forall|a: int, b: int|
                        0 <= a < x && 0 <= b < 50 ==> #[trigger] cell(self.current_gen, a, b)
                            == next_state(old(self).last_gen, chunk_neighbors_state, a, b),
                    forall|b: int|
                        0 <= b < y ==> #[trigger] cell(self.current_gen, x as int, b)
                            == next_state(old(self).last_gen, chunk_neighbors_state, x as int, b),
                decreases 50 - y,
            {
                let alive = self.last_gen[x as usize][y as usize];
                let alive_neighbors = self.get_alive_neighbors(&chunk_neighbors_state, (x, y));

                let now_alive = match alive_neighbors {
                    2 => alive,
                    3 => true,
                    _ => false,
                };

                let ghost before = self.current_gen;
                self.current_gen[x as usize][y as usize] = now_alive;

                if now_alive {
                    self.current_gen_alive += 1;
                }
                proof {
                    let after = self.current_gen;
                    assert forall|a: int, b: int| in_chunk(a, b) implies #[trigger] cell(
                        after,
                        a,
                        b,
                    ) == (if a == x && b == y {
                        now_alive
                    } else {
                        cell(before, a, b)
                    }) by {
                        assert(after[a][b] == (if a == x && b == y {
                            now_alive
                        } else {
                            before[a][b]
                        }));
                    }
                    lemma_columns_alive_agree(before, after, x as int);
                    let column_before = before[x as int];
                    let column_after = after[x as int];
                    assert forall|i: int| 0 <= i < y implies column_before[i]
                        == column_after[i] by {
                        assert(cell(after, x as int, i) == cell(before, x as int, i));
                    }
                    lemma_column_alive_agree(column_before, column_after, y as int);
                    assert(column_after[y as int] == cell(after, x as int, y as int));
                    assert(cell(old(self).last_gen, x as int, y as int) == alive);
                }
                y += 1;
            }
            x += 1;
        }
    }

    /// Whether the current generation differs from the previous one.
    pub fn changed(&self) -> (changed: bool)
        ensures
            changed == self@.changed(),
    {
        !grids_equal(&self.current_gen, &self.last_gen)
    }
}

} // verus!
