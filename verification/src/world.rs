//! The plane as a mathematical value: a map from chunk positions to
//! chunks, the cells that it shows, and what one step of the game does to it.

use crate::chunk::{life_rule, neighbor_status, next_state, ChunkView};
use crate::grid::{
    alive_count, alive_int, cell, in_chunk, is_dead, lemma_alive_count_zero,
    lemma_same_cells_equal, same_cells, Grid,
};
use crate::utils::{chunk_of, local_of};
use vstd::prelude::*;

verus! {

/// The chunks that exist, by position.
pub type World = Map<(int, int), ChunkView>;

/// Whether `v` is a coordinate that a chunk can have.
pub open spec fn in_i32(v: int) -> bool {
    i32::MIN <= v <= i32::MAX
}

/// Every chunk is kept under its own position and its counts are right.
pub open spec fn world_wf(w: World) -> bool {
    forall|k: (int, int)| #[trigger] w.contains_key(k) ==> w[k].wf() && w[k].pos == k
}

/// The state of the world cell `(x, y)`: that of its cell in the current
/// generation of its chunk, and dead where no chunk exists.
pub open spec fn cell_at(w: World, x: int, y: int) -> bool {
    let k = (chunk_of(x), chunk_of(y));
    w.contains_key(k) && cell(w[k].current_gen, local_of(x), local_of(y))
}

/// The number of live cells among the eight world cells around `(x, y)`.
pub open spec fn live_neighbors(w: World, x: int, y: int) -> int {
    alive_int(cell_at(w, x - 1, y)) + alive_int(cell_at(w, x - 1, y + 1)) + alive_int(
        cell_at(w, x, y + 1),
    ) + alive_int(cell_at(w, x + 1, y + 1)) + alive_int(cell_at(w, x + 1, y)) + alive_int(
        cell_at(w, x + 1, y - 1),
    ) + alive_int(cell_at(w, x, y - 1)) + alive_int(cell_at(w, x - 1, y - 1))
}

/// The state of the world cell `(x, y)` after one step of the game.
pub open spec fn next_cell_at(w: World, x: int, y: int) -> bool {
    life_rule(cell_at(w, x, y), live_neighbors(w, x, y))
}

/// The chunk at `k` exists and counts a live cell.
pub open spec fn is_live_chunk(w: World, k: (int, int)) -> bool {
    w.contains_key(k) && w[k].current_gen_alive > 0
}

/// One of the eight chunks around `k` exists and counts a live cell.
pub open spec fn has_live_neighbor(w: World, k: (int, int)) -> bool {
    ||| is_live_chunk(w, (k.0 - 1, k.1))
    ||| is_live_chunk(w, (k.0 - 1, k.1 + 1))
    ||| is_live_chunk(w, (k.0, k.1 + 1))
    ||| is_live_chunk(w, (k.0 + 1, k.1 + 1))
    ||| is_live_chunk(w, (k.0 + 1, k.1))
    ||| is_live_chunk(w, (k.0 + 1, k.1 - 1))
    ||| is_live_chunk(w, (k.0, k.1 - 1))
    ||| is_live_chunk(w, (k.0 - 1, k.1 - 1))
}

/// The chunks that exist after a step: those that existed before, and
/// every position around a chunk that counted a live cell.
pub open spec fn exists_after(before: World, k: (int, int)) -> bool {
    before.contains_key(k) || (in_i32(k.0) && in_i32(k.1) && has_live_neighbor(before, k))
}

/// `after` is what the chunk at `k` holds one step after `before`: the
/// former current generation has become the previous one (all dead for a
/// chunk that did not exist), each cell of the current generation follows
/// the rule of the game from the cells of `before`, and the count is that
/// of the new generation.
pub open spec fn chunk_advances(before: World, k: (int, int), after: ChunkView) -> bool {
    &&& after.pos == k
    &&& if before.contains_key(k) {
        after.last_gen == before[k].current_gen && after.last_gen_alive
            == before[k].current_gen_alive
    } else {
        is_dead(after.last_gen) && after.last_gen_alive == 0
    }
    &&& after.current_gen_alive == alive_count(after.current_gen)
    &&& forall|x: int, y: int|
        in_chunk(x, y) ==> #[trigger] cell(after.current_gen, x, y) == next_cell_at(
            before,
            50 * k.0 + x,
            50 * k.1 + y,
        )
}

/// `after` is the world one step of the game after `before`.
pub open spec fn advances(before: World, after: World) -> bool {
    &&& forall|k: (int, int)| #[trigger] after.contains_key(k) <==> exists_after(before, k)
    &&& forall|k: (int, int)| #[trigger]
        after.contains_key(k) ==> chunk_advances(before, k, after[k])
}

/// No chunk that counts a live cell lies on the rim of the positions that
/// a chunk can have, so that each of the eight positions around it can
/// hold a chunk.
pub open spec fn has_room(w: World) -> bool {
    forall|k: (int, int)| #[trigger]
        is_live_chunk(w, k) ==> i32::MIN < k.0 < i32::MAX && i32::MIN < k.1 < i32::MAX
}

/// The two worlds show the same cells everywhere.
pub open spec fn same_plane(a: World, b: World) -> bool {
    forall|x: int, y: int| #[trigger] cell_at(a, x, y) == cell_at(b, x, y)
}

/// `after` is what the chunk at `k` holds once the cell `(x, y)` of its
/// current generation has been set to `state`: a chunk that did not exist
/// starts all dead, the previous generation is untouched, and the count is
/// that of the new current generation.
pub open spec fn chunk_edited(
    before: World,
    k: (int, int),
    after: ChunkView,
    x: int,
    y: int,
    state: bool,
) -> bool {
    &&& after.pos == k
    &&& if before.contains_key(k) {
        &&& after.last_gen == before[k].last_gen
        &&& after.last_gen_alive == before[k].last_gen_alive
        &&& forall|a: int, b: int|
            in_chunk(a, b) ==> #[trigger] cell(after.current_gen, a, b) == (if a == x && b == y {
                state
            } else {
                cell(before[k].current_gen, a, b)
            })
    } else {
        &&& is_dead(after.last_gen)
        &&& after.last_gen_alive == 0
        &&& forall|a: int, b: int|
            in_chunk(a, b) ==> #[trigger] cell(after.current_gen, a, b) == (a == x && b == y
                && state)
    }
    &&& after.current_gen_alive == alive_count(after.current_gen)
}

/// `after` is `before` with the world cell `(x, y)` set to `state`. The
/// chunk of that cell exists afterwards, and no other chunk is touched.
pub open spec fn sets_cell(before: World, after: World, x: int, y: int, state: bool) -> bool {
    let k = (chunk_of(x), chunk_of(y));
    &&& after.dom() == before.dom().insert(k)
    &&& forall|j: (int, int)| j != k && #[trigger] before.contains_key(j) ==> after[j] == before[j]
    &&& chunk_edited(before, k, after[k], local_of(x), local_of(y), state)
}

/// `after` is `before` with a chunk at `k`: the one that was there, or an
/// all-dead one where none was.
pub open spec fn with_chunk(before: World, after: World, k: (int, int)) -> bool {
    &&& after.dom() == before.dom().insert(k)
    &&& forall|j: (int, int)| #[trigger] before.contains_key(j) ==> after[j] == before[j]
    &&& !before.contains_key(k) ==> after[k].is_fresh(k)
}

/// `after` is `before` with an all-dead chunk at `k`, in the place of any
/// chunk that was there.
pub open spec fn with_fresh_chunk(before: World, after: World, k: (int, int)) -> bool {
    &&& after.dom() == before.dom().insert(k)
    &&& forall|j: (int, int)| j != k && #[trigger] before.contains_key(j) ==> after[j] == before[j]
    &&& after[k].is_fresh(k)
}

/// Setting a cell changes that cell of the plane and no other.
pub proof fn lemma_edit_changes_one_cell(
    before: World,
    after: World,
    x: int,
    y: int,
    state: bool,
    px: int,
    py: int,
)
    requires
        sets_cell(before, after, x, y, state),
    ensures
        cell_at(after, px, py) == (if px == x && py == y {
            state
        } else {
            cell_at(before, px, py)
        }),
{
    let k = (chunk_of(x), chunk_of(y));
    let n = (chunk_of(px), chunk_of(py));
    assert(after.dom().contains(n) <==> before.dom().insert(k).contains(n));
    assert(in_chunk(local_of(px), local_of(py)));
    if n == k {
        assert(after.contains_key(k));
        assert(chunk_edited(before, k, after[k], local_of(x), local_of(y), state));
        assert(px == 50 * chunk_of(px) + local_of(px));
        assert(x == 50 * chunk_of(x) + local_of(x));
        assert(py == 50 * chunk_of(py) + local_of(py));
        assert(y == 50 * chunk_of(y) + local_of(y));
    } else {
    }
}

/// `g` is the current generation of the chunk at `n`, and all dead where
/// no chunk exists there.
pub open spec fn grid_shows(g: Grid, w: World, n: (int, int)) -> bool {
    if w.contains_key(n) {
        g == w[n].current_gen
    } else {
        is_dead(g)
    }
}

/// `neighbors` holds the current generations of the eight chunks around
/// `k`, in the order west, north-west, north, north-east, east,
/// south-east, south, south-west.
pub open spec fn neighbors_show(neighbors: [Grid; 8], w: World, k: (int, int)) -> bool {
    &&& grid_shows(neighbors[0], w, (k.0 - 1, k.1))
    &&& grid_shows(neighbors[1], w, (k.0 - 1, k.1 + 1))
    &&& grid_shows(neighbors[2], w, (k.0, k.1 + 1))
    &&& grid_shows(neighbors[3], w, (k.0 + 1, k.1 + 1))
    &&& grid_shows(neighbors[4], w, (k.0 + 1, k.1))
    &&& grid_shows(neighbors[5], w, (k.0 + 1, k.1 - 1))
    &&& grid_shows(neighbors[6], w, (k.0, k.1 - 1))
    &&& grid_shows(neighbors[7], w, (k.0 - 1, k.1 - 1))
}

/// What a chunk reads at a position in or one step outside itself, from
/// its own grid and the grids of the chunks around it, is the cell of the
/// plane at that place.
pub proof fn lemma_seam(w: World, k: (int, int), neighbors: [Grid; 8], x: int, y: int)
    requires
        w.contains_key(k),
        neighbors_show(neighbors, w, k),
        -1 <= x <= 50,
        -1 <= y <= 50,
    ensures
        neighbor_status(w[k].current_gen, neighbors, x, y) == cell_at(
            w,
            50 * k.0 + x,
            50 * k.1 + y,
        ),
{
    let wx = 50 * k.0 + x;
    let wy = 50 * k.1 + y;
    assert(chunk_of(wx) == k.0 + chunk_of(x));
    assert(chunk_of(wy) == k.1 + chunk_of(y));
    assert(local_of(wx) == local_of(x));
    assert(local_of(wy) == local_of(y));
    assert(in_chunk(local_of(x), local_of(y)));
}

/// The step that a chunk computes for one of its cells, from its own grid
/// and the grids of the chunks around it, is the step of the game for that
/// cell of the plane.
pub proof fn lemma_chunk_step_is_world_step(
    w: World,
    k: (int, int),
    neighbors: [Grid; 8],
    x: int,
    y: int,
)
    requires
        w.contains_key(k),
        neighbors_show(neighbors, w, k),
        in_chunk(x, y),
    ensures
        next_state(w[k].current_gen, neighbors, x, y) == next_cell_at(
            w,
            50 * k.0 + x,
            50 * k.1 + y,
        ),
{
    lemma_seam(w, k, neighbors, x, y);
    lemma_seam(w, k, neighbors, x - 1, y);
    lemma_seam(w, k, neighbors, x - 1, y + 1);
    lemma_seam(w, k, neighbors, x, y + 1);
    lemma_seam(w, k, neighbors, x + 1, y + 1);
    lemma_seam(w, k, neighbors, x + 1, y);
    lemma_seam(w, k, neighbors, x + 1, y - 1);
    lemma_seam(w, k, neighbors, x, y - 1);
    lemma_seam(w, k, neighbors, x - 1, y - 1);
    assert(cell(w[k].current_gen, x, y) == neighbor_status(w[k].current_gen, neighbors, x, y));
}

/// A chunk that holds a live cell counts one.
pub proof fn lemma_live_cell_live_chunk(w: World, x: int, y: int)
    requires
        world_wf(w),
        cell_at(w, x, y),
    ensures
        is_live_chunk(w, (chunk_of(x), chunk_of(y))),
{
    let k = (chunk_of(x), chunk_of(y));
    lemma_alive_count_zero(w[k].current_gen);
    assert(cell(w[k].current_gen, local_of(x), local_of(y)));
}

/// A chunk that counts a live cell shows one on the plane.
pub proof fn lemma_live_chunk_live_cell(w: World, k: (int, int)) -> (at: (int, int))
    requires
        world_wf(w),
        is_live_chunk(w, k),
    ensures
        cell_at(w, at.0, at.1),
        chunk_of(at.0) == k.0,
        chunk_of(at.1) == k.1,
{
    lemma_alive_count_zero(w[k].current_gen);
    let g = w[k].current_gen;
    let (x, y) = choose|x: int, y: int| in_chunk(x, y) && #[trigger] cell(g, x, y);
    (50 * k.0 + x, 50 * k.1 + y)
}

/// One step of the game keeps every chunk under its position with the
/// right counts: after the step the count of each chunk is the number of
/// live cells of its current generation.
pub proof fn lemma_step_keeps_counts(before: World, after: World)
    requires
        world_wf(before),
        advances(before, after),
    ensures
        world_wf(after),
        forall|k: (int, int)| #[trigger]
            after.contains_key(k) ==> after[k].current_gen_alive == alive_count(
                after[k].current_gen,
            ),
{
    assert forall|k: (int, int)| #[trigger] after.contains_key(k) implies after[k].wf()
        && after[k].pos == k by {
        assert(chunk_advances(before, k, after[k]));
        assert(exists_after(before, k));
        if before.contains_key(k) {
        } else {
            lemma_alive_count_zero(after[k].last_gen);
        }
    }
}

/// One step of the game changes every cell of the plane by the rule of
/// the game, whatever chunk the cell and the cells around it lie in: a cell
/// next to the border of its chunk is treated like any other, and a cell
/// for which no chunk exists after the step is one that the rule leaves dead.
pub proof fn lemma_step_follows_rule(before: World, after: World, x: int, y: int)
    requires
        world_wf(before),
        has_room(before),
        advances(before, after),
    ensures
        cell_at(after, x, y) == next_cell_at(before, x, y),
{
    let k = (chunk_of(x), chunk_of(y));
    if after.contains_key(k) {
        assert(chunk_advances(before, k, after[k]));
        assert(in_chunk(local_of(x), local_of(y)));
        assert(50 * k.0 + local_of(x) == x);
        assert(50 * k.1 + local_of(y) == y);
    } else {
        assert(!exists_after(before, k));
        lemma_no_life_around(before, k, x - 1, y);
        lemma_no_life_around(before, k, x - 1, y + 1);
        lemma_no_life_around(before, k, x, y + 1);
        lemma_no_life_around(before, k, x + 1, y + 1);
        lemma_no_life_around(before, k, x + 1, y);
        lemma_no_life_around(before, k, x + 1, y - 1);
        lemma_no_life_around(before, k, x, y - 1);
        lemma_no_life_around(before, k, x - 1, y - 1);
    }
}

/// Where no chunk comes to exist at `k`, the cells in and around `k` are dead.
proof fn lemma_no_life_around(w: World, k: (int, int), x: int, y: int)
    requires
        world_wf(w),
        has_room(w),
        !exists_after(w, k),
        k.0 - 1 <= chunk_of(x) <= k.0 + 1,
        k.1 - 1 <= chunk_of(y) <= k.1 + 1,
    ensures
        !cell_at(w, x, y),
{
    if cell_at(w, x, y) {
        lemma_live_cell_live_chunk(w, x, y);
        let n = (chunk_of(x), chunk_of(y));
        assert(is_live_chunk(w, n));
        assert(n != k);
        assert(in_i32(k.0) && in_i32(k.1));
        assert(has_live_neighbor(w, k));
    }
}

/// A step of the game removes no chunk.
pub proof fn lemma_step_keeps_chunks(before: World, after: World, k: (int, int))
    requires
        advances(before, after),
        before.contains_key(k),
    ensures
        after.contains_key(k),
{
    assert(exists_after(before, k));
}

/// Setting a cell removes no chunk.
pub proof fn lemma_edit_keeps_chunks(
    before: World,
    after: World,
    x: int,
    y: int,
    state: bool,
    k: (int, int),
)
    requires
        sets_cell(before, after, x, y, state),
        before.contains_key(k),
    ensures
        after.contains_key(k),
{
    assert(before.dom().insert((chunk_of(x), chunk_of(y))).contains(k));
}

/// After a step a chunk exists at each position around a chunk that
/// counted a live cell before it, where that is a position a chunk can
/// have. A chunk that the step has made has an all-dead previous
/// generation, and a live cell only where the rule of the game gives one.
pub proof fn lemma_frontier_grows(before: World, after: World, n: (int, int), k: (int, int))
    requires
        advances(before, after),
        is_live_chunk(before, n),
        n != k,
        -1 <= k.0 - n.0 <= 1,
        -1 <= k.1 - n.1 <= 1,
        in_i32(k.0),
        in_i32(k.1),
    ensures
        after.contains_key(k),
        !before.contains_key(k) ==> is_dead(after[k].last_gen),
        forall|x: int, y: int|
            in_chunk(x, y) ==> #[trigger] cell(after[k].current_gen, x, y) == next_cell_at(
                before,
                50 * k.0 + x,
                50 * k.1 + y,
            ),
{
    assert(has_live_neighbor(before, k));
    assert(exists_after(before, k));
    assert(after.contains_key(k));
}

/// A step of the game has one result.
pub proof fn lemma_step_is_determined(before: World, a: World, b: World)
    requires
        advances(before, a),
        advances(before, b),
    ensures
        a == b,
{
    assert forall|k: (int, int)| a.contains_key(k) == b.contains_key(k) by {
        assert(a.contains_key(k) <==> exists_after(before, k));
        assert(b.contains_key(k) <==> exists_after(before, k));
    }
    assert forall|k: (int, int)| a.contains_key(k) implies a[k] == b[k] by {
        assert(b.contains_key(k));
        assert(chunk_advances(before, k, a[k]));
        assert(chunk_advances(before, k, b[k]));
        assert(same_cells(a[k].current_gen, b[k].current_gen));
        lemma_same_cells_equal(a[k].current_gen, b[k].current_gen);
        if !before.contains_key(k) {
            assert(same_cells(a[k].last_gen, b[k].last_gen));
            lemma_same_cells_equal(a[k].last_gen, b[k].last_gen);
        }
    }
    assert(a =~= b);
}

/// A world that a step leaves as it is on the plane is at rest: in the
/// world after that step, and after the next one, no chunk's current
/// generation differs from its previous one, and the next step brings no
/// new chunk.
pub proof fn lemma_still_life_rests(w0: World, w1: World, w2: World)
    requires
        world_wf(w0),
        advances(w0, w1),
        advances(w1, w2),
        same_plane(w0, w1),
    ensures
        w2.dom() == w1.dom(),
        same_plane(w1, w2),
        forall|k: (int, int)| #[trigger] w1.contains_key(k) ==> w1[k].current_gen == w1[k].last_gen,
        forall|k: (int, int)| #[trigger] w2.contains_key(k) ==> w2[k].current_gen == w2[k].last_gen,
{
    lemma_step_keeps_counts(w0, w1);
    assert forall|k: (int, int)| #[trigger] w1.contains_key(k) implies w1[k].current_gen
        == w1[k].last_gen by {
        lemma_unchanged_chunk(w0, w1, k);
    }
    assert forall|k: (int, int)| w2.contains_key(k) <==> w1.contains_key(k) by {
        assert(w2.contains_key(k) <==> exists_after(w1, k));
        assert(w1.contains_key(k) <==> exists_after(w0, k));
        if in_i32(k.0) && in_i32(k.1) && has_live_neighbor(w1, k) {
            lemma_live_chunk_carries_over(w0, w1, (k.0 - 1, k.1));
            lemma_live_chunk_carries_over(w0, w1, (k.0 - 1, k.1 + 1));
            lemma_live_chunk_carries_over(w0, w1, (k.0, k.1 + 1));
            lemma_live_chunk_carries_over(w0, w1, (k.0 + 1, k.1 + 1));
            lemma_live_chunk_carries_over(w0, w1, (k.0 + 1, k.1));
            lemma_live_chunk_carries_over(w0, w1, (k.0 + 1, k.1 - 1));
            lemma_live_chunk_carries_over(w0, w1, (k.0, k.1 - 1));
            lemma_live_chunk_carries_over(w0, w1, (k.0 - 1, k.1 - 1));
            assert(has_live_neighbor(w0, k));
        }
    }
    assert(w2.dom() =~= w1.dom());
    assert forall|x: int, y: int| #[trigger] cell_at(w1, x, y) == cell_at(w2, x, y) by {
        lemma_rest_continues(w0, w1, w2, x, y);
    }
    assert forall|k: (int, int)| #[trigger] w2.contains_key(k) implies w2[k].current_gen
        == w2[k].last_gen by {
        assert(w1.contains_key(k));
        lemma_unchanged_chunk(w1, w2, k);
    }
}

/// In a world that a step leaves as it is on the plane, a chunk that
/// counts a live cell after the step counted one before it.
proof fn lemma_live_chunk_carries_over(w0: World, w1: World, k: (int, int))
    requires
        world_wf(w0),
        world_wf(w1),
        same_plane(w0, w1),
    ensures
        is_live_chunk(w1, k) ==> is_live_chunk(w0, k),
{
    if is_live_chunk(w1, k) {
        let at = lemma_live_chunk_live_cell(w1, k);
        assert(cell_at(w0, at.0, at.1) == cell_at(w1, at.0, at.1));
        lemma_live_cell_live_chunk(w0, at.0, at.1);
    }
}

/// In a world that a step leaves as it is on the plane, the next step
/// leaves each cell as it is too.
proof fn lemma_rest_continues(w0: World, w1: World, w2: World, x: int, y: int)
    requires
        world_wf(w0),
        advances(w0, w1),
        advances(w1, w2),
        same_plane(w0, w1),
        forall|k: (int, int)| w2.contains_key(k) <==> w1.contains_key(k),
    ensures
        cell_at(w1, x, y) == cell_at(w2, x, y),
{
    let k = (chunk_of(x), chunk_of(y));
    if w1.contains_key(k) {
        assert(w2.contains_key(k));
        assert(chunk_advances(w0, k, w1[k]));
        assert(chunk_advances(w1, k, w2[k]));
        assert(in_chunk(local_of(x), local_of(y)));
        assert(50 * k.0 + local_of(x) == x);
        assert(50 * k.1 + local_of(y) == y);
        assert(cell_at(w1, x, y) == next_cell_at(w0, x, y));
        assert(cell_at(w2, x, y) == next_cell_at(w1, x, y));
        lemma_same_plane_same_step(w0, w1, x, y);
    } else {
        assert(!w2.contains_key(k));
    }
}

/// Worlds that show the same plane take each cell to the same next state.
pub proof fn lemma_same_plane_same_step(a: World, b: World, x: int, y: int)
    requires
        same_plane(a, b),
    ensures
        next_cell_at(a, x, y) == next_cell_at(b, x, y),
{
    assert(cell_at(a, x, y) == cell_at(b, x, y));
    assert(cell_at(a, x - 1, y) == cell_at(b, x - 1, y));
    assert(cell_at(a, x - 1, y + 1) == cell_at(b, x - 1, y + 1));
    assert(cell_at(a, x, y + 1) == cell_at(b, x, y + 1));
    assert(cell_at(a, x + 1, y + 1) == cell_at(b, x + 1, y + 1));
    assert(cell_at(a, x + 1, y) == cell_at(b, x + 1, y));
    assert(cell_at(a, x + 1, y - 1) == cell_at(b, x + 1, y - 1));
    assert(cell_at(a, x, y - 1) == cell_at(b, x, y - 1));
    assert(cell_at(a, x - 1, y - 1) == cell_at(b, x - 1, y - 1));
}

/// Where a step leaves the plane as it is, the chunk at `k` has after the
/// step a current generation equal to its previous one.
proof fn lemma_unchanged_chunk(before: World, after: World, k: (int, int))
    requires
        advances(before, after),
        same_plane(before, after),
        after.contains_key(k),
    ensures
        after[k].current_gen == after[k].last_gen,
{
    let c = after[k];
    assert(chunk_advances(before, k, c));
    assert forall|x: int, y: int| in_chunk(x, y) implies #[trigger] cell(c.current_gen, x, y)
        == cell(c.last_gen, x, y) by {
        let wx = 50 * k.0 + x;
        let wy = 50 * k.1 + y;
        assert(chunk_of(wx) == k.0 && local_of(wx) == x);
        assert(chunk_of(wy) == k.1 && local_of(wy) == y);
        assert(cell_at(after, wx, wy) == cell(c.current_gen, x, y));
        assert(cell_at(before, wx, wy) == cell_at(after, wx, wy));
        if before.contains_key(k) {
            assert(cell_at(before, wx, wy) == cell(before[k].current_gen, x, y));
        } else {
            assert(!cell_at(before, wx, wy));
            assert(!cell(c.last_gen, x, y));
        }
    }
    lemma_same_cells_equal(c.current_gen, c.last_gen);
}

} // verus!
