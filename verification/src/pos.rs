//! Coordinate system: chunk-sized constants, position types, and the pure
//! mapping between a global axis coordinate and a (chunk index, local offset)
//! pair. `chunked` uses Euclidean (always-nonnegative) remainder so negative
//! global coordinates still map to valid local offsets.

use vstd::prelude::*;
use vstd::arithmetic::div_mod::{lemma_fundamental_div_mod, lemma_fundamental_div_mod_converse};

verus! {

/// Edge length of a cubic chunk, in blocks.
pub const CHUNK_S1: usize = 32;
/// `CHUNK_S1` as a signed coordinate.
pub const CHUNK_S1I: i32 = 32;
/// Blocks in one chunk face.
pub const CHUNK_S2: usize = 1024;
/// Blocks in one chunk.
pub const CHUNK_S3: usize = 32768;
/// Edge length of a padded mesh buffer at full detail.
pub const CHUNK_PADDED_S1: usize = 34;
/// World height, in blocks.
pub const MAX_HEIGHT: usize = 256;
/// Vertical chunk slots in a column: `MAX_HEIGHT / CHUNK_S1`.
pub const NB_SLOTS: usize = 8;

/// World identifier: every position carries the realm it belongs to.
#[derive(Clone, Copy, PartialEq, Eq, Structural, Debug)]
pub enum Realm {
    Overworld,
}

/// Global block position.
#[derive(Clone, Copy, PartialEq, Eq, Structural, Debug)]
pub struct BlockPos {
    pub realm: Realm,
    pub x: i32,
    pub y: i32,
    pub z: i32,
}

/// Global block position in the horizontal plane.
#[derive(Clone, Copy, PartialEq, Eq, Structural, Debug)]
pub struct BlockPos2d {
    pub realm: Realm,
    pub x: i32,
    pub z: i32,
}

/// Position of a chunk, in chunk units.
#[derive(Clone, Copy, PartialEq, Eq, Structural, Debug)]
pub struct ChunkPos {
    pub realm: Realm,
    pub x: i32,
    pub y: i32,
    pub z: i32,
}

/// Position of a column, in chunk units.
#[derive(Clone, Copy, PartialEq, Eq, Structural, Debug)]
pub struct ColPos {
    pub realm: Realm,
    pub x: i32,
    pub z: i32,
}

/// Offset within a chunk, each component in `[0, CHUNK_S1)`.
pub type ChunkedPos = (usize, usize, usize);

/// Offset within a column: horizontal offsets in `[0, CHUNK_S1)` and an
/// absolute height in `[0, MAX_HEIGHT)`.
pub type ColedPos = (usize, i32, usize);

/// Horizontal offset within a chunk or column.
pub type ChunkedPos2D = (usize, usize);

/// Chunk index of a global coordinate (Euclidean division).
pub open spec fn spec_chunk_index(x: int) -> int {
    x / (CHUNK_S1 as int)
}

/// Local offset of a global coordinate (Euclidean remainder).
pub open spec fn spec_chunk_offset(x: int) -> int {
    x % (CHUNK_S1 as int)
}

/// Global coordinate rebuilt from a (chunk index, local offset) pair.
pub open spec fn spec_unchunked(cx: int, dx: int) -> int {
    cx * (CHUNK_S1 as int) + dx
}

/// Splits a global axis coordinate into its chunk index and local offset.
pub fn chunked(x: i32) -> (r: (i32, usize))
    ensures
        r.0 == spec_chunk_index(x as int),
        r.1 == spec_chunk_offset(x as int),
{
    if x >= 0 {
        let u = x as u32;
        let q = u / 32;
        let rm = u % 32;
        proof {
            lemma_fundamental_div_mod_converse(x as int, 32, q as int, rm as int);
        }
        (q as i32, rm as usize)
    } else {
        // For x < 0, write x == -y - 1 with y >= 0; then
        // x == 32 * (-(y / 32) - 1) + (31 - y % 32), with remainder in [0, 32).
        let y = -(x + 1);
        let u = y as u32;
        let q = u / 32;
        let rm = u % 32;
        proof {
            lemma_fundamental_div_mod(y as int, 32);
            lemma_fundamental_div_mod_converse(x as int, 32, -(q as int) - 1, 31 - rm as int);
        }
        (-(q as i32) - 1, (31 - rm) as usize)
    }
}

/// Inverse of `chunked`: rebuilds the global coordinate.
pub fn unchunked(cx: i32, dx: usize) -> (r: i32)
    requires
        dx < CHUNK_S1,
        i32::MIN <= spec_unchunked(cx as int, dx as int) <= i32::MAX,
    ensures
        r == spec_unchunked(cx as int, dx as int),
{
    proof {
        assert(cx * 32 <= cx * 32 + dx);
        // If cx were below -2^26, even adding the offset could not bring the
        // result back up to i32::MIN; so the product itself cannot underflow.
        assert(i32::MIN <= cx * 32) by {
            if cx <= -67108865 {
                assert(cx * 32 <= -67108865 * 32);
            } else {
                assert(cx * 32 >= -67108864 * 32);
            }
        };
    }
    cx * CHUNK_S1I + dx as i32
}

/// Splitting a coordinate and rebuilding it round-trips exactly, for every
/// integer coordinate.
pub proof fn lemma_chunked_roundtrip(x: int)
    ensures
        spec_unchunked(spec_chunk_index(x), spec_chunk_offset(x)) == x,
{
    lemma_fundamental_div_mod(x, CHUNK_S1 as int);
}

/// The local offset of every coordinate lies in `[0, CHUNK_S1)`.
pub proof fn lemma_chunk_offset_in_range(x: int)
    ensures
        0 <= spec_chunk_offset(x) < CHUNK_S1,
{
}

/// A (chunk index, offset) pair with the offset in range is the unique
/// splitting of the coordinate it rebuilds.
pub proof fn lemma_unchunked_inverse(cx: int, dx: int)
    requires
        0 <= dx < CHUNK_S1,
    ensures
        spec_chunk_index(spec_unchunked(cx, dx)) == cx,
        spec_chunk_offset(spec_unchunked(cx, dx)) == dx,
{
    lemma_fundamental_div_mod_converse(spec_unchunked(cx, dx), CHUNK_S1 as int, cx, dx);
}

} // verus!
