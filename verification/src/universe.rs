//! The universe: the chunks that exist, found by position, and the step
//! that takes all of them to the next generation.

use crate::chunk::{Chunk, ChunkView};
use crate::grid::{alive_count, cell, dead_grid, in_chunk, is_dead, is_update, Grid};
use crate::utils::{chunk_of, local_of, to_chunk_pos, to_local_pos};
use crate::world::{
    advances, cell_at, chunk_advances, exists_after, has_live_neighbor, in_i32, is_live_chunk,
    lemma_chunk_step_is_world_step, lemma_same_plane_same_step, neighbors_show, next_cell_at,
    sets_cell, with_chunk, with_fresh_chunk, world_wf, World,
};
use vstd::prelude::*;

verus! {

/// The place of each chunk in the universe's list of chunks, by chunk
/// position. It is a `bevy_utils::HashMap`, which is `hashbrown::HashMap`
/// with the hasher of `ahash`; nothing of it is verified.
#[verifier::external_body]
pub struct ChunkIndex {
    slots: bevy_utils::HashMap<(i32, i32), usize>,
}

/// The entries that a `ChunkIndex` holds.
pub uninterp spec fn index_contents(index: ChunkIndex) -> Map<(i32, i32), usize>;

/// `hashbrown::HashMap::default`, which makes a map without entries.
#[verifier::external_body]
fn index_new() -> (index: ChunkIndex)
    ensures
        index_contents(index) == (Map::<(i32, i32), usize>::empty()),
{
    ChunkIndex { slots: bevy_utils::HashMap::default() }
}

/// `hashbrown::HashMap::get`, which returns the value kept under the key,
/// and `None` where the map has no such key. The map is left as it is.
#[verifier::external_body]
fn index_get(index: &ChunkIndex, pos: (i32, i32)) -> (slot: Option<usize>)
    ensures
        slot == (if index_contents(*index).contains_key(pos) {
            Some(index_contents(*index)[pos])
        } else {
            None
        }),
{
    index.slots.get(&pos).copied()
}

/// `hashbrown::HashMap::insert`, which puts the value under the key, in
/// the place of any value that was kept there, and leaves every other
/// entry as it is.
#[verifier::external_body]
fn index_insert(index: &mut ChunkIndex, pos: (i32, i32), slot: usize)
    ensures
        index_contents(*final(index)) == index_contents(*old(index)).insert(pos, slot),
{
    index.slots.insert(pos, slot);
}

/// The position `k` as the key under which the index keeps it.
spec fn key_of(k: (int, int)) -> (i32, i32) {
    (k.0 as i32, k.1 as i32)
}

/// The position `p` of the index as a position of the world.
pub open spec fn pos_of(p: (i32, i32)) -> (int, int) {
    (p.0 as int, p.1 as int)
}

/// The index has an entry for the position `k`.
spec fn listed(slots: Map<(i32, i32), usize>, k: (int, int)) -> bool {
    in_i32(k.0) && in_i32(k.1) && slots.contains_key(key_of(k))
}

/// Every entry of the index leads to a chunk at that position, and every
/// chunk is found through the index.
spec fn arena_inv(chunks: Seq<Chunk>, slots: Map<(i32, i32), usize>) -> bool {
    &&& forall|p: (i32, i32)| #[trigger]
        slots.contains_key(p) ==> slots[p] < chunks.len() && chunks[slots[p] as int]@.pos
            == pos_of(p)
    &&& forall|i: int|
        0 <= i < chunks.len() ==> (#[trigger] chunks[i]).wf() && slots.contains_key(
            key_of(chunks[i]@.pos),
        ) && slots[key_of(chunks[i]@.pos)] == i
}

/// The world that a list of chunks and its index stand for.
spec fn arena_world(chunks: Seq<Chunk>, slots: Map<(i32, i32), usize>) -> World {
    Map::new(|k: (int, int)| listed(slots, k), |k: (int, int)| chunks[slots[key_of(k)] as int]@)
}

/// The world of a consistent list keeps every chunk under its position,
/// and holds each chunk of the list.
proof fn lemma_arena_world(chunks: Seq<Chunk>, slots: Map<(i32, i32), usize>)
    requires
        arena_inv(chunks, slots),
    ensures
        world_wf(arena_world(chunks, slots)),
        forall|i: int|
            0 <= i < chunks.len() ==> arena_world(chunks, slots).contains_key(
                (#[trigger] chunks[i])@.pos,
            ) && arena_world(chunks, slots)[chunks[i]@.pos] == chunks[i]@,
{
    let w = arena_world(chunks, slots);
    assert forall|k: (int, int)| #[trigger] w.contains_key(k) implies w[k].wf() && w[k].pos
        == k by {
        let p = key_of(k);
        assert(slots.contains_key(p));
        assert(chunks[slots[p] as int].wf());
    }
    assert forall|i: int| 0 <= i < chunks.len() implies w.contains_key(
        (#[trigger] chunks[i])@.pos,
    ) && w[chunks[i]@.pos] == chunks[i]@ by {
        assert(chunks[i].wf());
        assert(pos_of(key_of(chunks[i]@.pos)) == chunks[i]@.pos);
    }
}

/// Chunks that keep their positions stay where the index finds them.
proof fn lemma_positions_kept(
    before: Seq<Chunk>,
    after: Seq<Chunk>,
    slots: Map<(i32, i32), usize>,
)
    requires
        arena_inv(before, slots),
        after.len() == before.len(),
        forall|i: int|
            0 <= i < after.len() ==> (#[trigger] after[i]).wf() && after[i]@.pos
                == before[i]@.pos,
    ensures
        arena_inv(after, slots),
        arena_world(after, slots).dom() == arena_world(before, slots).dom(),
{
    assert forall|i: int| 0 <= i < after.len() implies (#[trigger] after[i]).wf()
        && slots.contains_key(key_of(after[i]@.pos)) && slots[key_of(after[i]@.pos)] == i by {
        assert(before[i].wf());
    }
    assert(arena_world(after, slots).dom() =~= arena_world(before, slots).dom());
}

/// The world with the previous generation of every chunk in the place of
/// its current one.
spec fn rewound(w: World) -> World {
    Map::new(
        |k: (int, int)| w.contains_key(k),
        |k: (int, int)|
            ChunkView {
                pos: w[k].pos,
                last_gen: w[k].last_gen,
                last_gen_alive: w[k].last_gen_alive,
                current_gen: w[k].last_gen,
                current_gen_alive: w[k].last_gen_alive,
            },
    )
}

/// `after` is `before` made ready for a step.
spec fn is_prepared(before: ChunkView, after: ChunkView) -> bool {
    &&& after.pos == before.pos
    &&& after.last_gen == before.current_gen
    &&& after.last_gen_alive == before.current_gen_alive
    &&& is_dead(after.current_gen)
    &&& after.current_gen_alive == 0
}

/// `after` is `before` with its current generation computed from the
/// cells that the world `w` shows.
spec fn is_ticked(w: World, before: ChunkView, after: ChunkView) -> bool {
    &&& after.pos == before.pos
    &&& after.last_gen == before.last_gen
    &&& after.last_gen_alive == before.last_gen_alive
    &&& after.current_gen_alive == alive_count(after.current_gen)
    &&& forall|x: int, y: int|
        in_chunk(x, y) ==> #[trigger] cell(after.current_gen, x, y) == next_cell_at(
            w,
            50 * before.pos.0 + x,
            50 * before.pos.1 + y,
        )
}

/// Every chunk of `after` is the chunk of `before` at its position, made
/// ready for a step.
spec fn world_prepared(before: World, after: World) -> bool {
    &&& after.dom() == before.dom()
    &&& forall|k: (int, int)| #[trigger] before.contains_key(k) ==> is_prepared(before[k], after[k])
}

/// `after` is `before` with an all-dead chunk at every position around a
/// chunk whose previous generation counts a live cell.
spec fn world_grown(before: World, after: World) -> bool {
    &&& forall|k: (int, int)| #[trigger]
        after.contains_key(k) <==> exists_after(rewound(before), k)
    &&& forall|k: (int, int)| #[trigger] before.contains_key(k) ==> after[k] == before[k]
    &&& forall|k: (int, int)| #[trigger]
        after.contains_key(k) && !before.contains_key(k) ==> after[k].is_fresh(k)
}

/// Every chunk of `after` is the chunk of `before` at its position, with
/// its current generation computed from the previous generations of
/// `before`.
spec fn world_ticked(before: World, after: World) -> bool {
    &&& after.dom() == before.dom()
    &&& forall|k: (int, int)| #[trigger]
        before.contains_key(k) ==> is_ticked(rewound(before), before[k], after[k])
}

/// `k` is the position `n`, and one that a chunk can have.
spec fn reached(k: (int, int), n: (int, int)) -> bool {
    k == n && in_i32(n.0) && in_i32(n.1)
}

/// The positions differ by at most one step in each direction, and differ.
spec fn adjacent(a: (int, int), b: (int, int)) -> bool {
    a != b && -1 <= a.0 - b.0 <= 1 && -1 <= a.1 - b.1 <= 1
}

/// The previous generation of the chunk in place `j` counts a live cell.
spec fn was_live(chunks: Seq<Chunk>, j: int) -> bool {
    chunks[j]@.last_gen_alive > 0
}

/// One of the first `i` chunks lies next to `k` and its previous
/// generation counts a live cell.
spec fn near_live(chunks: Seq<Chunk>, i: int, k: (int, int)) -> bool {
    exists|j: int| 0 <= j < i && #[trigger] was_live(chunks, j) && adjacent(chunks[j]@.pos, k)
}

/// A chunk is among the first `i + 1` exactly when it is among the first
/// `i` or is the one in place `i`.
proof fn lemma_near_live_step(chunks: Seq<Chunk>, i: int, k: (int, int))
    requires
        0 <= i < chunks.len(),
    ensures
        near_live(chunks, i + 1, k) <==> near_live(chunks, i, k) || (was_live(chunks, i)
            && adjacent(chunks[i]@.pos, k)),
{
    if near_live(chunks, i, k) {
        let j = choose|j: int|
            0 <= j < i && #[trigger] was_live(chunks, j) && adjacent(chunks[j]@.pos, k);
        assert(0 <= j < i + 1 && was_live(chunks, j) && adjacent(chunks[j]@.pos, k));
    }
    if was_live(chunks, i) && adjacent(chunks[i]@.pos, k) {
        assert(0 <= i < i + 1 && was_live(chunks, i) && adjacent(chunks[i]@.pos, k));
    }
    if near_live(chunks, i + 1, k) {
        let j = choose|j: int|
            0 <= j < i + 1 && #[trigger] was_live(chunks, j) && adjacent(chunks[j]@.pos, k);
        if j < i {
            assert(near_live(chunks, i, k));
        }
    }
}

/// Preparing, growing and computing make up a step of the game.
proof fn lemma_phases_advance(w0: World, w1: World, w2: World, w3: World)
    requires
        world_wf(w0),
        world_prepared(w0, w1),
        world_grown(w1, w2),
        world_ticked(w2, w3),
    ensures
        advances(w0, w3),
{
    assert forall|k: (int, int)| is_live_chunk(rewound(w1), k) == is_live_chunk(w0, k) by {
        assert(w1.dom().contains(k) == w0.dom().contains(k));
        if w0.contains_key(k) {
            assert(is_prepared(w0[k], w1[k]));
        }
    }
    assert forall|k: (int, int)| exists_after(rewound(w1), k) == exists_after(w0, k) by {
        assert(w1.dom().contains(k) == w0.dom().contains(k));
    }
    let r = rewound(w2);
    assert forall|x: int, y: int| #[trigger] cell_at(r, x, y) == cell_at(w0, x, y) by {
        let n = (chunk_of(x), chunk_of(y));
        assert(w1.dom().contains(n) == w0.dom().contains(n));
        assert(in_chunk(local_of(x), local_of(y)));
        if w0.contains_key(n) {
            assert(w1.contains_key(n));
            assert(is_prepared(w0[n], w1[n]));
            assert(exists_after(rewound(w1), n));
            assert(w2.contains_key(n));
        } else if w2.contains_key(n) {
            assert(w2[n].is_fresh(n));
        } else {
        }
    }
    assert forall|k: (int, int)| #[trigger] w3.contains_key(k) <==> exists_after(w0, k) by {
        assert(w3.dom().contains(k) == w2.dom().contains(k));
        assert(w2.contains_key(k) <==> exists_after(rewound(w1), k));
    }
    assert forall|k: (int, int)| #[trigger] w3.contains_key(k) implies chunk_advances(
        w0,
        k,
        w3[k],
    ) by {
        assert(w3.dom().contains(k) == w2.dom().contains(k));
        assert(w1.dom().contains(k) == w0.dom().contains(k));
        assert(is_ticked(r, w2[k], w3[k]));
        if w0.contains_key(k) {
            assert(w1.contains_key(k));
            assert(is_prepared(w0[k], w1[k]));
            assert(w2[k] == w1[k]);
            assert(w0[k].pos == k);
        } else {
            assert(w2[k].is_fresh(k));
        }
        assert(w2[k].pos == k);
        assert forall|x: int, y: int| in_chunk(x, y) implies #[trigger] cell(
            w3[k].current_gen,
            x,
            y,
        ) == next_cell_at(w0, 50 * k.0 + x, 50 * k.1 + y) by {
            lemma_same_plane_same_step(r, w0, 50 * k.0 + x, 50 * k.1 + y);
        }
    }
}

/// The plane of the game: every chunk that has come to exist, found by its
/// position.
pub struct Universe {
    chunks: Vec<Chunk>,
    index: ChunkIndex,
}

impl View for Universe {
    type V = World;

    closed spec fn view(&self) -> World {
        arena_world(self.chunks@, index_contents(self.index))
    }
}

impl Universe {
    /// The index and the list of chunks agree.
    pub closed spec fn inv(&self) -> bool {
        arena_inv(self.chunks@, index_contents(self.index))
    }

    /// The universe is consistent: each chunk is kept under its own
    /// position and its counts are right.
    pub open spec fn wf(&self) -> bool {
        self.inv() && world_wf(self@)
    }

    /// A universe without chunks.
    pub fn new() -> (universe: Universe)
        ensures
            universe.wf(),
            universe@ == (Map::<(int, int), ChunkView>::empty()),
    {
        let universe = Universe { chunks: Vec::new(), index: index_new() };
        proof {
            assert(universe@ =~= Map::<(int, int), ChunkView>::empty());
        }
        universe
    }

    /// The place in the list of the chunk at `pos`, if there is one.
    fn find(&self, pos: (i32, i32)) -> (slot: Option<usize>)
        requires
            self.inv(),
        ensures
            slot is Some <==> self@.contains_key(pos_of(pos)),
            slot is Some <==> index_contents(self.index).contains_key(pos),
            slot is Some ==> slot->0 < self.chunks.len() && index_contents(self.index)[pos]
                == slot->0 && self.chunks[slot->0 as int]@ == self@[pos_of(pos)],
    {
        proof {
            assert(key_of(pos_of(pos)) == pos);
        }
        index_get(&self.index, pos)
    }

    /// The place in the list of the chunk at `pos`, which is made, all
    /// dead, where there is none.
    fn ensure_chunk(&mut self, pos: (i32, i32)) -> (slot: usize)
        requires
            old(self).inv(),
        ensures
            final(self).inv(),
            slot < final(self).chunks.len(),
            final(self).chunks[slot as int]@.pos == pos_of(pos),
            index_contents(old(self).index).contains_key(pos) ==> *final(self) == *old(self),
            !index_contents(old(self).index).contains_key(pos) ==> {
                &&& slot == old(self).chunks.len()
                &&& final(self).chunks@ == old(self).chunks@.push(final(self).chunks[slot as int])
                &&& final(self).chunks[slot as int]@.is_fresh(pos_of(pos))
                &&& index_contents(final(self).index) == index_contents(old(self).index).insert(
                    pos,
                    slot,
                )
            },
            with_chunk(old(self)@, final(self)@, pos_of(pos)),
    {
        proof {
            assert(key_of(pos_of(pos)) == pos);
        }
        match self.find(pos) {
            Some(slot) => {
                proof {
                    assert(self@.dom() =~= self@.dom().insert(pos_of(pos)));
                }
                slot
            },
            None => {
                let slot = self.chunks.len();
                self.chunks.push(Chunk::new(pos));
                index_insert(&mut self.index, pos, slot);
                proof {
                    Self::lemma_pushed(*old(self), *self, pos, slot);
                }
                slot
            },
        }
    }

    /// What the world is after a new chunk has been put at the end of the
    /// list and entered in the index.
    proof fn lemma_pushed(before: Universe, after: Universe, pos: (i32, i32), slot: usize)
        requires
            before.inv(),
            !index_contents(before.index).contains_key(pos),
            slot == before.chunks@.len(),
            after.chunks@ == before.chunks@.push(after.chunks@[slot as int]),
            after.chunks@[slot as int].wf(),
            after.chunks@[slot as int]@.pos == pos_of(pos),
            index_contents(after.index) == index_contents(before.index).insert(pos, slot),
        ensures
            after.inv(),
            after@.dom() == before@.dom().insert(pos_of(pos)),
            forall|j: (int, int)| #[trigger] before@.contains_key(j) ==> after@[j] == before@[j],
            after@[pos_of(pos)] == after.chunks@[slot as int]@,
    {
        let n = before.chunks@.len() as int;
        let slots = index_contents(before.index);
        let slots2 = index_contents(after.index);
        assert(key_of(pos_of(pos)) == pos);
        assert(after.chunks@.len() == n + 1);
        assert forall|i: int| 0 <= i < n implies after.chunks@[i] == before.chunks@[i] by {
        }
        assert forall|p: (i32, i32)| #[trigger] slots2.contains_key(p) implies slots2[p]
            < after.chunks@.len() && after.chunks@[slots2[p] as int]@.pos == pos_of(p) by {
            if p != pos {
                assert(slots.contains_key(p));
            }
        }
        assert forall|i: int| 0 <= i < after.chunks@.len() implies (#[trigger] after.chunks@[i]).wf()
            && slots2.contains_key(key_of(after.chunks@[i]@.pos)) && slots2[key_of(
            after.chunks@[i]@.pos,
        )] == i by {
            if i < n {
                assert(before.chunks@[i].wf());
                let p = key_of(before.chunks@[i]@.pos);
                assert(slots.contains_key(p));
                assert(p != pos);
            }
        }
        assert forall|j: (int, int)|
            after@.dom().contains(j) <==> before@.dom().insert(pos_of(pos)).contains(j) by {
            if j == pos_of(pos) {
            } else {
                assert(key_of(j) != pos || !in_i32(j.0) || !in_i32(j.1));
            }
        }
        assert(after@.dom() =~= before@.dom().insert(pos_of(pos)));
        assert forall|j: (int, int)| #[trigger] before@.contains_key(j) implies after@[j]
            == before@[j] by {
            assert(slots.contains_key(key_of(j)));
            assert(key_of(j) != pos);
        }
    }

    /// Puts an all-dead chunk at `chunk_pos`, in the place of any chunk
    /// that was there.
    pub fn spawn_chunk(&mut self, chunk_pos: (i32, i32))
        requires
            old(self).wf(),
        ensures
            final(self).wf(),
            with_fresh_chunk(old(self)@, final(self)@, pos_of(chunk_pos)),
    {
        let chunk = Chunk::new(chunk_pos);
        proof {
            assert(key_of(pos_of(chunk_pos)) == chunk_pos);
        }
        match self.find(chunk_pos) {
            Some(slot) => {
                self.chunks[slot] = chunk;
                proof {
                    let slots = index_contents(self.index);
                    assert forall|i: int| 0 <= i < self.chunks@.len() implies (
                    #[trigger] self.chunks@[i]).wf() && self.chunks@[i]@.pos
                        == old(self).chunks@[i]@.pos by {
                        assert(old(self).chunks@[i].wf());
                    }
                    lemma_positions_kept(old(self).chunks@, self.chunks@, slots);
                    assert(self@.dom() =~= old(self)@.dom().insert(pos_of(chunk_pos)));
                    assert forall|j: (int, int)|
                        j != pos_of(chunk_pos) && #[trigger] old(self)@.contains_key(
                            j,
                        ) implies self@[j] == old(self)@[j] by {
                        assert(slots.contains_key(key_of(j)));
                    }
                }
            },
            None => {
                let slot = self.chunks.len();
                self.chunks.push(chunk);
                index_insert(&mut self.index, chunk_pos, slot);
                proof {
                    Self::lemma_pushed(*old(self), *self, chunk_pos, slot);
                }
            },
        }
        proof {
            lemma_arena_world(self.chunks@, index_contents(self.index));
        }
    }

    /// Whether a chunk exists at `chunk_pos`.
    pub fn has_chunk(&self, chunk_pos: (i32, i32)) -> (exists: bool)
        requires
            self.wf(),
        ensures
            exists == self@.contains_key(pos_of(chunk_pos)),
    {
        self.find(chunk_pos).is_some()
    }

    /// The chunk at `chunk_pos`, if it exists. Nothing is made.
    pub fn chunk(&self, chunk_pos: (i32, i32)) -> (chunk: Option<&Chunk>)
        requires
            self.wf(),
        ensures
            chunk is Some <==> self@.contains_key(pos_of(chunk_pos)),
            chunk is Some ==> chunk->0@ == self@[pos_of(chunk_pos)],
    {
        match self.find(chunk_pos) {
            Some(slot) => Some(&self.chunks[slot]),
            None => None,
        }
    }

    /// The chunk at `chunk_pos`, which is made, all dead, where there is none.
    pub fn get_chunk(&mut self, chunk_pos: (i32, i32)) -> (chunk: &Chunk)
        requires
            old(self).wf(),
        ensures
            final(self).wf(),
            with_chunk(old(self)@, final(self)@, pos_of(chunk_pos)),
            chunk@ == final(self)@[pos_of(chunk_pos)],
    {
        let slot = self.ensure_chunk(chunk_pos);
        proof {
            lemma_arena_world(self.chunks@, index_contents(self.index));
        }
        &self.chunks[slot]
    }

    /// Sets the world cell `world_pos` to `state` in the current
    /// generation of its chunk, which is made where there is none.
    pub fn set_cell_state(&mut self, world_pos: (i32, i32), state: bool)
        requires
            old(self).wf(),
        ensures
            final(self).wf(),
            sets_cell(old(self)@, final(self)@, world_pos.0 as int, world_pos.1 as int, state),
    {
        let chunk_pos = to_chunk_pos(world_pos);
        let (local_x, local_y) = to_local_pos(world_pos);
        let slot = self.ensure_chunk(chunk_pos);
        let ghost mid = *self;
        proof {
            lemma_arena_world(self.chunks@, index_contents(self.index));
        }
        self.chunks[slot].set_cell_state(local_x, local_y, state);
        proof {
            let k = pos_of(chunk_pos);
            let slots = index_contents(self.index);
            assert(key_of(k) == chunk_pos);
            assert forall|i: int| 0 <= i < self.chunks@.len() implies (
            #[trigger] self.chunks@[i]).wf() && self.chunks@[i]@.pos
                == mid.chunks@[i]@.pos by {
                assert(mid.chunks@[i].wf());
            }
            lemma_positions_kept(mid.chunks@, self.chunks@, slots);
            lemma_arena_world(self.chunks@, slots);
            assert forall|j: (int, int)| j != k && #[trigger] old(self)@.contains_key(
                j,
            ) implies self@[j] == old(self)@[j] by {
                assert(mid@[j] == old(self)@[j]);
                assert(slots.contains_key(key_of(j)));
            }
            let before = mid@[k];
            let after = self@[k];
            assert(after == self.chunks@[slot as int]@);
            assert(before == mid.chunks@[slot as int]@);
            assert(is_update(
                before.current_gen,
                after.current_gen,
                local_x as int,
                local_y as int,
                state,
            ));
            if old(self)@.contains_key(k) {
                assert(before == old(self)@[k]);
            } else {
                assert(before.is_fresh(k));
                assert forall|a: int, b: int| in_chunk(a, b) implies #[trigger] cell(
                    after.current_gen,
                    a,
                    b,
                ) == (a == local_x && b == local_y && state) by {
                    assert(!cell(before.current_gen, a, b));
                }
            }
        }
    }

    /// The state of the world cell `world_pos` in the current generation:
    /// dead where its chunk does not exist. Nothing is made.
    pub fn get_cell_state(&self, world_pos: (i32, i32)) -> (state: bool)
        requires
            self.wf(),
        ensures
            state == cell_at(self@, world_pos.0 as int, world_pos.1 as int),
    {
        let chunk_pos = to_chunk_pos(world_pos);
        let (local_x, local_y) = to_local_pos(world_pos);
        match self.find(chunk_pos) {
            Some(slot) => self.chunks[slot].cell_state(local_x, local_y),
            None => false,
        }
    }

    /// Makes the world cell `world_pos` dead if it is alive, and alive if
    /// it is dead.
    pub fn toggle_cell_state(&mut self, world_pos: (i32, i32))
        requires
            old(self).wf(),
        ensures
            final(self).wf(),
            sets_cell(
                old(self)@,
                final(self)@,
                world_pos.0 as int,
                world_pos.1 as int,
                !cell_at(old(self)@, world_pos.0 as int, world_pos.1 as int),
            ),
    {
        let current_state = self.get_cell_state(world_pos);
        self.set_cell_state(world_pos, !current_state);
    }
    /// The positions of the chunks that exist, each once.
    pub fn chunk_positions(&self) -> (positions: Vec<(i32, i32)>)
        requires
            self.wf(),
        ensures
            positions@.no_duplicates(),
            forall|p: (i32, i32)| positions@.contains(p) <==> self@.contains_key(pos_of(p)),
    {
        let n = self.chunks.len();
        let mut positions: Vec<(i32, i32)> = Vec::with_capacity(n);
        let mut i: usize = 0;
        while i < n
            invariant
                i <= n,
                n == self.chunks.len(),
                self.inv(),
                positions.len() == i,
                forall|j: int|
                    0 <= j < i ==> pos_of(#[trigger] positions[j]) == self.chunks[j]@.pos,
            decreases n - i,
        {
            positions.push(self.chunks[i].pos());
            i += 1;
        }
        proof {
            let slots = index_contents(self.index);
            lemma_arena_world(self.chunks@, slots);
            assert forall|a: int, b: int|
                0 <= a < positions.len() && 0 <= b < positions.len() && a != b implies positions[a]
                != positions[b] by {
                assert(self.chunks@[a].wf() && self.chunks@[b].wf());
                assert(pos_of(positions[a]) == self.chunks[a]@.pos);
                assert(pos_of(positions[b]) == self.chunks[b]@.pos);
            }
            assert forall|p: (i32, i32)| positions@.contains(p) <==> self@.contains_key(
                pos_of(p),
            ) by {
                assert(key_of(pos_of(p)) == p);
                if positions@.contains(p) {
                    let j = choose|j: int| 0 <= j < positions.len() && positions[j] == p;
                    assert(self.chunks@[j].wf());
                }
                if self@.contains_key(pos_of(p)) {
                    assert(slots.contains_key(p));
                    let j = slots[p] as int;
                    assert(pos_of(positions[j]) == pos_of(p));
                    assert(positions@[j] == p);
                }
            }
        }
        positions
    }

    /// The positions, each once, of the chunks whose current generation
    /// differs from the previous one: those that have to be drawn again
    /// after a step.
    pub fn changed_chunks(&self) -> (positions: Vec<(i32, i32)>)
        requires
            self.wf(),
        ensures
            positions@.no_duplicates(),
            forall|p: (i32, i32)|
                positions@.contains(p) <==> self@.contains_key(pos_of(p)) && self@[pos_of(
                    p,
                )].changed(),
    {
        let n = self.chunks.len();
        let mut positions: Vec<(i32, i32)> = Vec::new();
        let ghost mut places: Seq<int> = Seq::empty();
        let mut i: usize = 0;
        while i < n
            invariant
                i <= n,
                n == self.chunks.len(),
                self.inv(),
                places.len() == positions.len(),
                forall|t: int|
                    0 <= t < places.len() ==> 0 <= #[trigger] places[t] < i && pos_of(
                        positions[t],
                    ) == self.chunks[places[t]]@.pos && self.chunks[places[t]]@.changed(),
                forall|t: int, u: int|
                    0 <= t < u < places.len() ==> #[trigger] places[t] < #[trigger] places[u],
                forall|j: int|
                    0 <= j < i && (#[trigger] self.chunks[j])@.changed() ==> places.contains(j),
            decreases n - i,
        {
            if self.chunks[i].changed() {
                let ghost before = places;
                positions.push(self.chunks[i].pos());
                proof {
                    places = places.push(i as int);
                    assert forall|j: int| before.contains(j) implies places.contains(j) by {
                        let t = choose|t: int| 0 <= t < before.len() && before[t] == j;
                        assert(places[t] == j);
                    }
                    assert(places[before.len() as int] == i);
                }
            }
            i += 1;
        }
        proof {
            let slots = index_contents(self.index);
            lemma_arena_world(self.chunks@, slots);
            assert forall|a: int, b: int|
                0 <= a < positions.len() && 0 <= b < positions.len() && a != b implies positions[a]
                != positions[b] by {
                assert(places[a] != places[b]) by {
                    if a < b {
                        assert(places[a] < places[b]);
                    } else {
                        assert(places[b] < places[a]);
                    }
                }
                assert(self.chunks@[places[a]].wf() && self.chunks@[places[b]].wf());
            }
            assert forall|p: (i32, i32)|
                positions@.contains(p) <==> self@.contains_key(pos_of(p)) && self@[pos_of(
                    p,
                )].changed() by {
                assert(key_of(pos_of(p)) == p);
                if positions@.contains(p) {
                    let t = choose|t: int| 0 <= t < positions.len() && positions[t] == p;
                    assert(self.chunks@[places[t]].wf());
                }
                if self@.contains_key(pos_of(p)) && self@[pos_of(p)].changed() {
                    assert(slots.contains_key(p));
                    let j = slots[p] as int;
                    assert(self.chunks[j]@.changed());
                    assert(places.contains(j));
                    let t = choose|t: int| 0 <= t < places.len() && places[t] == j;
                    assert(pos_of(positions[t]) == pos_of(p));
                    assert(positions@[t] == p);
                }
            }
        }
        positions
    }

    /// Makes every chunk ready for a step.
    fn prepare_all(&mut self)
        requires
            old(self).inv(),
        ensures
            final(self).inv(),
            world_prepared(old(self)@, final(self)@),
    {
        let n = self.chunks.len();
        let mut i: usize = 0;
        while i < n
            invariant
                i <= n,
                n == self.chunks.len(),
                n == old(self).chunks.len(),
                self.index == old(self).index,
                old(self).inv(),
                forall|j: int|
                    0 <= j < i ==> (#[trigger] self.chunks[j]).wf() && is_prepared(
                        old(self).chunks[j]@,
                        self.chunks[j]@,
                    ),
                forall|j: int| i <= j < n ==> #[trigger] self.chunks[j] == old(self).chunks[j],
            decreases n - i,
        {
            assert(old(self).chunks[i as int].wf());
            self.chunks[i].prepare_tick();
            i += 1;
        }
        proof {
            let slots = index_contents(self.index);
            lemma_positions_kept(old(self).chunks@, self.chunks@, slots);
            assert forall|k: (int, int)| #[trigger] old(self)@.contains_key(k) implies is_prepared(
                old(self)@[k],
                self@[k],
            ) by {
                assert(slots.contains_key(key_of(k)));
                assert(self.chunks[slots[key_of(k)] as int].wf());
            }
        }
    }

    /// Makes sure that a chunk exists one step from `(x, y)` in the
    /// direction `(dx, dy)`, where that is a position a chunk can have.
    fn grow_toward(&mut self, x: i32, y: i32, dx: i32, dy: i32)
        requires
            old(self).inv(),
            -1 <= dx <= 1,
            -1 <= dy <= 1,
        ensures
            final(self).inv(),
            final(self).chunks.len() >= old(self).chunks.len(),
            forall|j: int|
                0 <= j < old(self).chunks.len() ==> #[trigger] final(self).chunks[j]
                    == old(self).chunks[j],
            forall|k: (int, int)| #[trigger]
                final(self)@.contains_key(k) <==> old(self)@.contains_key(k) || reached(
                    k,
                    (x + dx, y + dy),
                ),
            forall|k: (int, int)|
                old(self)@.contains_key(k) ==> #[trigger] final(self)@[k] == old(self)@[k],
            forall|k: (int, int)|
                final(self)@.contains_key(k) && !old(self)@.contains_key(k) ==> (
                #[trigger] final(self)@[k]).is_fresh(k),
    {
        if (dx == 1 && x == i32::MAX) || (dx == -1 && x == i32::MIN) {
            return;
        }
        if (dy == 1 && y == i32::MAX) || (dy == -1 && y == i32::MIN) {
            return;
        }
        self.ensure_chunk((x + dx, y + dy));
        proof {
            let n = (x + dx, y + dy);
            assert forall|k: (int, int)| #[trigger]
                self@.contains_key(k) <==> old(self)@.contains_key(k) || reached(k, n) by {
                assert(self@.dom().contains(k) == old(self)@.dom().insert(n).contains(k));
            }
        }
    }

    /// Makes sure that a chunk exists at each of the eight positions around
    /// every chunk whose previous generation counts a live cell.
    fn grow_frontier(&mut self)
        requires
            old(self).inv(),
        ensures
            final(self).inv(),
            world_grown(old(self)@, final(self)@),
    {
        let n = self.chunks.len();
        let mut i: usize = 0;
        while i < n
            invariant
                i <= n,
                n == old(self).chunks.len(),
                n <= self.chunks.len(),
                self.inv(),
                old(self).inv(),
                forall|j: int| 0 <= j < n ==> #[trigger] self.chunks[j] == old(self).chunks[j],
                forall|k: (int, int)| #[trigger]
                    self@.contains_key(k) <==> old(self)@.contains_key(k) || (in_i32(k.0)
                        && in_i32(k.1) && near_live(old(self).chunks@, i as int, k)),
                forall|k: (int, int)| #[trigger]
                    old(self)@.contains_key(k) ==> self@[k] == old(self)@[k],
                forall|k: (int, int)| #[trigger]
                    self@.contains_key(k) && !old(self)@.contains_key(k) ==> self@[k].is_fresh(k),
            decreases n - i,
        {
            let ghost before = self@;
            let ghost chunks = old(self).chunks@;
            let ghost pos = chunks[i as int]@.pos;
            if self.chunks[i].last_gen_alive() > 0 {
                let (x, y) = self.chunks[i].pos();
                self.grow_toward(x, y, -1, 0);
                self.grow_toward(x, y, -1, 1);
                self.grow_toward(x, y, 0, 1);
                self.grow_toward(x, y, 1, 1);
                self.grow_toward(x, y, 1, 0);
                self.grow_toward(x, y, 1, -1);
                self.grow_toward(x, y, 0, -1);
                self.grow_toward(x, y, -1, -1);
                proof {
                    assert forall|k: (int, int)| #[trigger]
                        self@.contains_key(k) <==> before.contains_key(k) || (in_i32(k.0)
                            && in_i32(k.1) && adjacent(pos, k)) by {
                        assert(chunks[i as int].wf());
                    }
                }
            }
            proof {
                assert forall|k: (int, int)|
                    near_live(chunks, i + 1, k) <==> near_live(chunks, i as int, k) || (was_live(
                        chunks,
                        i as int,
                    ) && adjacent(pos, k)) by {
                    lemma_near_live_step(chunks, i as int, k);
                }
            }
            i += 1;
        }
        proof {
            Self::lemma_near_live(*old(self));
        }
    }

    /// A position lies next to a chunk of the list whose previous
    /// generation counts a live cell exactly when one of the eight chunks
    /// around it in the world is such a chunk.
    proof fn lemma_near_live(u: Universe)
        requires
            u.inv(),
        ensures
            forall|k: (int, int)|
                near_live(u.chunks@, u.chunks@.len() as int, k) <==> has_live_neighbor(
                    rewound(u@),
                    k,
                ),
    {
        let chunks = u.chunks@;
        let slots = index_contents(u.index);
        let r = rewound(u@);
        lemma_arena_world(chunks, slots);
        assert forall|k: (int, int)|
            near_live(chunks, chunks.len() as int, k) <==> has_live_neighbor(r, k) by {
            if near_live(chunks, chunks.len() as int, k) {
                let j = choose|j: int|
                    0 <= j < chunks.len() && #[trigger] was_live(chunks, j) && adjacent(
                        chunks[j]@.pos,
                        k,
                    );
                let p = chunks[j]@.pos;
                assert(u@.contains_key(p) && u@[p] == chunks[j]@);
                assert(is_live_chunk(r, p));
            }
            if has_live_neighbor(r, k) {
                Self::lemma_live_slot(u, (k.0 - 1, k.1));
                Self::lemma_live_slot(u, (k.0 - 1, k.1 + 1));
                Self::lemma_live_slot(u, (k.0, k.1 + 1));
                Self::lemma_live_slot(u, (k.0 + 1, k.1 + 1));
                Self::lemma_live_slot(u, (k.0 + 1, k.1));
                Self::lemma_live_slot(u, (k.0 + 1, k.1 - 1));
                Self::lemma_live_slot(u, (k.0, k.1 - 1));
                Self::lemma_live_slot(u, (k.0 - 1, k.1 - 1));
            }
        }
    }

    /// A chunk of the world whose previous generation counts a live cell
    /// stands in the list.
    proof fn lemma_live_slot(u: Universe, p: (int, int))
        requires
            u.inv(),
        ensures
            is_live_chunk(rewound(u@), p) ==> exists|j: int|
                0 <= j < u.chunks@.len() && #[trigger] was_live(u.chunks@, j)
                    && u.chunks@[j]@.pos == p,
    {
        if is_live_chunk(rewound(u@), p) {
            let slots = index_contents(u.index);
            assert(slots.contains_key(key_of(p)));
            let j = slots[key_of(p)] as int;
            assert(was_live(u.chunks@, j) && u.chunks@[j]@.pos == p);
        }
    }

    /// The previous generation of every chunk, in the order of the list.
    fn snapshot(&self) -> (grids: Vec<Grid>)
        ensures
            grids.len() == self.chunks.len(),
            forall|j: int| 0 <= j < grids.len() ==> #[trigger] grids[j] == self.chunks[j]@.last_gen,
    {
        let n = self.chunks.len();
        let mut grids: Vec<Grid> = Vec::with_capacity(n);
        let mut i: usize = 0;
        while i < n
            invariant
                i <= n,
                n == self.chunks.len(),
                grids.len() == i,
                forall|j: int| 0 <= j < i ==> #[trigger] grids[j] == self.chunks[j]@.last_gen,
            decreases n - i,
        {
            grids.push(*self.chunks[i].last_gen());
            i += 1;
        }
        grids
    }

    /// The grid, among those of `snapshot`, of the chunk one step from
    /// `(x, y)` in the direction `(dx, dy)`: all dead where no chunk
    /// exists there.
    fn neighbor_grid(&self, snapshot: &Vec<Grid>, x: i32, y: i32, dx: i32, dy: i32) -> (g: Grid)
        requires
            forall|p: (i32, i32)| #[trigger]
                index_contents(self.index).contains_key(p) ==> index_contents(self.index)[p]
                    < snapshot.len(),
            -1 <= dx <= 1,
            -1 <= dy <= 1,
        ensures
            listed(index_contents(self.index), (x + dx, y + dy)) ==> g == snapshot[index_contents(
                self.index,
            )[key_of((x + dx, y + dy))] as int],
            !listed(index_contents(self.index), (x + dx, y + dy)) ==> is_dead(g),
    {
        if (dx == 1 && x == i32::MAX) || (dx == -1 && x == i32::MIN) {
            return dead_grid();
        }
        if (dy == 1 && y == i32::MAX) || (dy == -1 && y == i32::MIN) {
            return dead_grid();
        }
        match index_get(&self.index, (x + dx, y + dy)) {
            Some(slot) => snapshot[slot],
            None => dead_grid(),
        }
    }

    /// Computes the current generation of every chunk from the previous
    /// generations of the chunk and of the chunks around it.
    fn tick_all(&mut self)
        requires
            old(self).inv(),
            forall|k: (int, int)| #[trigger]
                old(self)@.contains_key(k) ==> old(self)@[k].current_gen_alive == 0,
        ensures
            final(self).inv(),
            world_ticked(old(self)@, final(self)@),
    {
        let snapshot = self.snapshot();
        let n = self.chunks.len();
        let ghost w = rewound(old(self)@);
        let ghost slots = index_contents(self.index);
        proof {
            lemma_arena_world(self.chunks@, slots);
            assert forall|k: (int, int)| listed(slots, k) implies #[trigger] w.contains_key(k)
                && w[k].current_gen == snapshot[slots[key_of(k)] as int] by {
                assert(slots.contains_key(key_of(k)));
            }
        }
        let mut i: usize = 0;
        while i < n
            invariant
                i <= n,
                n == self.chunks.len(),
                n == old(self).chunks.len(),
                n == snapshot.len(),
                self.index == old(self).index,
                slots == index_contents(self.index),
                w == rewound(old(self)@),
                old(self).inv(),
                forall|k: (int, int)| #[trigger]
                    old(self)@.contains_key(k) ==> old(self)@[k].current_gen_alive == 0,
                forall|k: (int, int)| #[trigger] w.contains_key(k) <==> listed(slots, k),
                forall|k: (int, int)|
                    listed(slots, k) ==> (#[trigger] w[k]).current_gen == snapshot[slots[key_of(
                        k,
                    )] as int],
                forall|j: int|
                    0 <= j < i ==> (#[trigger] self.chunks[j]).wf() && is_ticked(
                        w,
                        old(self).chunks[j]@,
                        self.chunks[j]@,
                    ),
                forall|j: int| i <= j < n ==> #[trigger] self.chunks[j] == old(self).chunks[j],
            decreases n - i,
        {
            let (x, y) = self.chunks[i].pos();
            let neighbors: [Grid; 8] = [
                self.neighbor_grid(&snapshot, x, y, -1, 0),
                self.neighbor_grid(&snapshot, x, y, -1, 1),
                self.neighbor_grid(&snapshot, x, y, 0, 1),
                self.neighbor_grid(&snapshot, x, y, 1, 1),
                self.neighbor_grid(&snapshot, x, y, 1, 0),
                self.neighbor_grid(&snapshot, x, y, 1, -1),
                self.neighbor_grid(&snapshot, x, y, 0, -1),
                self.neighbor_grid(&snapshot, x, y, -1, -1),
            ];
            let ghost k = (x as int, y as int);
            let ghost before = self.chunks[i as int]@;
            proof {
                lemma_arena_world(old(self).chunks@, slots);
                assert(old(self).chunks[i as int].wf());
                assert(old(self)@.contains_key(k) && old(self)@[k] == before);
                assert(w.contains_key(k));
                assert(neighbors_show(neighbors, w, k)) by {
                    assert(w.contains_key((k.0 - 1, k.1)) <==> listed(slots, (k.0 - 1, k.1)));
                    assert(w.contains_key((k.0, k.1 + 1)) <==> listed(slots, (k.0, k.1 + 1)));
                    assert(w.contains_key((k.0 + 1, k.1)) <==> listed(slots, (k.0 + 1, k.1)));
                    assert(w.contains_key((k.0, k.1 - 1)) <==> listed(slots, (k.0, k.1 - 1)));
                    let north_west = (k.0 - 1, k.1 + 1);
                    let north_east = (k.0 + 1, k.1 + 1);
                    let south_east = (k.0 + 1, k.1 - 1);
                    let south_west = (k.0 - 1, k.1 - 1);
                    assert(w.contains_key(north_west) <==> listed(slots, north_west));
                    assert(w.contains_key(north_east) <==> listed(slots, north_east));
                    assert(w.contains_key(south_east) <==> listed(slots, south_east));
                    assert(w.contains_key(south_west) <==> listed(slots, south_west));
                }
            }
            self.chunks[i].tick(neighbors);
            proof {
                let after = self.chunks[i as int]@;
                assert(w[k].current_gen == before.last_gen);
                assert forall|a: int, b: int| in_chunk(a, b) implies #[trigger] cell(
                    after.current_gen,
                    a,
                    b,
                ) == next_cell_at(w, 50 * before.pos.0 + a, 50 * before.pos.1 + b) by {
                    lemma_chunk_step_is_world_step(w, k, neighbors, a, b);
                }
            }
            i += 1;
        }
        proof {
            lemma_positions_kept(old(self).chunks@, self.chunks@, slots);
            assert forall|k: (int, int)| #[trigger] old(self)@.contains_key(k) implies is_ticked(
                w,
                old(self)@[k],
                self@[k],
            ) by {
                assert(slots.contains_key(key_of(k)));
                assert(self.chunks[slots[key_of(k)] as int].wf());
            }
        }
    }

    /// Advances the whole universe by one generation. Every chunk is made
    /// ready; a chunk comes to exist at each position around a chunk that
    /// counts a live cell; then the current generation of every chunk is
    /// computed from the generation before, with the chunks around it read
    /// as they were before the step.
    pub fn tick(&mut self)
        requires
            old(self).wf(),
        ensures
            final(self).wf(),
            advances(old(self)@, final(self)@),
    {
        self.prepare_all();
        let ghost w1 = self@;
        self.grow_frontier();
        let ghost w2 = self@;
        proof {
            assert forall|k: (int, int)| #[trigger] w2.contains_key(k) implies w2[k]
                .current_gen_alive == 0 by {
                if w1.contains_key(k) {
                    assert(old(self)@.dom().contains(k));
                    assert(is_prepared(old(self)@[k], w1[k]));
                } else {
                    assert(w2[k].is_fresh(k));
                }
            }
        }
        self.tick_all();
        proof {
            lemma_phases_advance(old(self)@, w1, w2, self@);
            lemma_arena_world(self.chunks@, index_contents(self.index));
        }
    }
}

} // verus!
