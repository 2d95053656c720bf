//! Mapping between world cell coordinates and chunk coordinates.

use vstd::prelude::*;

verus! {

/// The chunk coordinate that holds the world coordinate `w`: the floor of `w / 50`.
pub open spec fn chunk_of(w: int) -> int {
    w / 50
}

/// The index inside its chunk of the world coordinate `w`: `w` modulo 50, never negative.
pub open spec fn local_of(w: int) -> int {
    w % 50
}

/// The world coordinate of the first cell of chunk `c`.
pub open spec fn origin_of(c: int) -> int {
    c * 50
}

/// `v` brought into the range of `i32`.
pub open spec fn clamp_i32(v: int) -> int {
    if v < i32::MIN {
        i32::MIN as int
    } else if v > i32::MAX {
        i32::MAX as int
    } else {
        v
    }
}

/// The chunk coordinate that holds the world coordinate `w`.
fn chunk_index(w: i32) -> (c: i32)
    ensures
        c == chunk_of(w as int),
{
    if w >= 0 {
        w / 50
    } else {
        -((-(w + 1)) / 50) - 1
    }
}

/// The index inside its chunk of the world coordinate `w`.
pub fn local_index(w: i32) -> (l: usize)
    ensures
        l == local_of(w as int),
        l < 50,
{
    if w >= 0 {
        (w % 50) as usize
    } else {
        (49 - (-(w + 1)) % 50) as usize
    }
}

/// The world coordinate of the first cell of chunk `c`, kept in range.
fn chunk_origin(c: i32) -> (w: i32)
    ensures
        w == clamp_i32(origin_of(c as int)),
{
    if c > 42949672 {
        i32::MAX
    } else if c < -42949672 {
        i32::MIN
    } else {
        c * 50
    }
}

/// The chunk that holds the world cell `pos`.
pub fn to_chunk_pos(pos: (i32, i32)) -> (chunk: (i32, i32))
    ensures
        chunk.0 == chunk_of(pos.0 as int),
        chunk.1 == chunk_of(pos.1 as int),
{
    (chunk_index(pos.0), chunk_index(pos.1))
}

/// The world cell at the origin corner of chunk `pos`. Where the product
/// leaves the range of `i32` the nearest bound is returned.
pub fn from_chunk_pos(pos: (i32, i32)) -> (world: (i32, i32))
    ensures
        world.0 == clamp_i32(origin_of(pos.0 as int)),
        world.1 == clamp_i32(origin_of(pos.1 as int)),
{
    (chunk_origin(pos.0), chunk_origin(pos.1))
}

/// The position inside its chunk of the world cell `pos`.
pub fn to_local_pos(pos: (i32, i32)) -> (local: (usize, usize))
    ensures
        local.0 == local_of(pos.0 as int),
        local.1 == local_of(pos.1 as int),
        local.0 < 50,
        local.1 < 50,
{
    (local_index(pos.0), local_index(pos.1))
}

/// A world coordinate is made of its chunk's origin and its local index.
pub proof fn lemma_split_world_coordinate(w: int)
    ensures
        w == origin_of(chunk_of(w)) + local_of(w),
        0 <= local_of(w) < 50,
{
}

/// Mapping a chunk to its origin cell and back gives the same chunk,
/// for every chunk whose origin is a representable world coordinate.
pub proof fn lemma_chunk_round_trip(c: (int, int))
    requires
        i32::MIN <= origin_of(c.0) <= i32::MAX,
        i32::MIN <= origin_of(c.1) <= i32::MAX,
    ensures
        chunk_of(clamp_i32(origin_of(c.0))) == c.0,
        chunk_of(clamp_i32(origin_of(c.1))) == c.1,
{
}

} // verus!
