//! The meshing pipeline: build a padded voxel buffer around one chunk (its
//! six neighbors supplying a one-cell margin at full detail), extract visible
//! faces, merge them greedily into quads, and emit a geometry buffer. Each
//! build is a pure function of the current world contents; missing neighbor
//! chunks degrade to `Air` margins.

use vstd::prelude::*;
use vstd::arithmetic::div_mod::lemma_fundamental_div_mod_converse;
use crate::block::{face_tint, spec_tint, Block, Face, Tint};
use crate::greedy::{covers, merge_mask, quad_wf, MaskQuad};
use crate::pos::{ChunkPos, BlockPos, CHUNK_S1, CHUNK_S1I, NB_SLOTS};
use crate::world::Blocks;

verus! {

/// Bound on chunk coordinates so global block coordinates stay in `i32`.
pub open spec fn chunk_in_bounds(chunk: ChunkPos) -> bool {
    &&& -1048576 <= chunk.x <= 1048576
    &&& 0 <= chunk.y < NB_SLOTS
    &&& -1048576 <= chunk.z <= 1048576
}

/// An accepted level of detail: a stride that divides the chunk edge.
pub open spec fn valid_lod(lod: int) -> bool {
    1 <= lod <= CHUNK_S1 && (CHUNK_S1 as int) % lod == 0
}

/// Linear index into a padded buffer of edge `side + 2`.
pub open spec fn plin(side: int, x: int, y: int, z: int) -> int {
    (x * (side + 2) + z) * (side + 2) + y
}

/// Whether a padded coordinate lies on the one-cell margin.
pub open spec fn marginal(side: int, p: int) -> bool {
    p == 0 || p == side + 1
}

/// The block a padded buffer cell must hold: world contents sampled at
/// stride `lod`, with `Air` on edge and corner margins, and `Air` on every
/// margin when the level of detail skips neighbor stitching.
pub open spec fn spec_padded(
    world: Blocks,
    chunk: ChunkPos,
    lod: int,
    px: int,
    py: int,
    pz: int,
) -> Block {
    let side = (CHUNK_S1 as int) / lod;
    let mx = marginal(side, px);
    let my = marginal(side, py);
    let mz = marginal(side, pz);
    if (lod != 1 && (mx || my || mz))
        || (mx && my) || (mx && mz) || (my && mz) {
        Block::Air
    } else {
        world.block_at(BlockPos {
            realm: chunk.realm,
            x: (chunk.x * CHUNK_S1I + ((px - 1) * lod) as i32) as i32,
            y: (chunk.y * CHUNK_S1I + ((py - 1) * lod) as i32) as i32,
            z: (chunk.z * CHUNK_S1I + ((pz - 1) * lod) as i32) as i32,
        })
    }
}

/// Samples the world for one padded buffer cell.
fn padded_sample(
    world: &Blocks,
    chunk: ChunkPos,
    lod: usize,
    px: usize,
    py: usize,
    pz: usize,
) -> (r: Block)
    requires
        world.wf(),
        chunk_in_bounds(chunk),
        valid_lod(lod as int),
        px <= CHUNK_S1 as int / lod as int + 1,
        py <= CHUNK_S1 as int / lod as int + 1,
        pz <= CHUNK_S1 as int / lod as int + 1,
    ensures
        r == spec_padded(*world, chunk, lod as int, px as int, py as int, pz as int),
{
    let side = CHUNK_S1 / lod;
    let mx = px == 0 || px == side + 1;
    let my = py == 0 || py == side + 1;
    let mz = pz == 0 || pz == side + 1;
    if (lod != 1 && (mx || my || mz)) || (mx && my) || (mx && mz) || (my && mz) {
        Block::Air
    } else {
        proof {
            assert((px - 1) * lod <= 32 && (px - 1) * lod >= -32) by (nonlinear_arith)
                requires 0 <= px <= CHUNK_S1 as int / lod as int + 1, valid_lod(lod as int);
            assert((py - 1) * lod <= 32 && (py - 1) * lod >= -32) by (nonlinear_arith)
                requires 0 <= py <= CHUNK_S1 as int / lod as int + 1, valid_lod(lod as int);
            assert((pz - 1) * lod <= 32 && (pz - 1) * lod >= -32) by (nonlinear_arith)
                requires 0 <= pz <= CHUNK_S1 as int / lod as int + 1, valid_lod(lod as int);
        }
        let gx = chunk.x * CHUNK_S1I + (px as i32 - 1) * lod as i32;
        let gy = chunk.y * CHUNK_S1I + (py as i32 - 1) * lod as i32;
        let gz = chunk.z * CHUNK_S1I + (pz as i32 - 1) * lod as i32;
        world.get_block(BlockPos { realm: chunk.realm, x: gx, y: gy, z: gz })
    }
}

/// The reduced chunk edge at an accepted level of detail stays in `[1, 32]`.
proof fn lemma_side_bounds(lod: int)
    requires
        valid_lod(lod),
    ensures
        1 <= (CHUNK_S1 as int) / lod <= 32,
{
    assert(1 <= 32int / lod <= 32) by (nonlinear_arith)
        requires 1 <= lod <= 32;
}

/// Padded buffer cells decompose uniquely.
proof fn lemma_plin_inj(side: int, x1: int, y1: int, z1: int, x2: int, y2: int, z2: int)
    requires
        0 <= x1 < side + 2,
        0 <= y1 < side + 2,
        0 <= z1 < side + 2,
        0 <= x2 < side + 2,
        0 <= y2 < side + 2,
        0 <= z2 < side + 2,
        plin(side, x1, y1, z1) == plin(side, x2, y2, z2),
    ensures
        x1 == x2 && y1 == y2 && z1 == z2,
{
    let p = side + 2;
    lemma_fundamental_div_mod_converse(plin(side, x1, y1, z1), p, x1 * p + z1, y1);
    lemma_fundamental_div_mod_converse(plin(side, x2, y2, z2), p, x2 * p + z2, y2);
    lemma_fundamental_div_mod_converse(x1 * p + z1, p, x1, z1);
    lemma_fundamental_div_mod_converse(x2 * p + z2, p, x2, z2);
}

/// A padded cell's index lies inside the buffer.
proof fn lemma_plin_range(side: int, x: int, y: int, z: int)
    requires
        1 <= side <= 32,
        0 <= x < side + 2,
        0 <= y < side + 2,
        0 <= z < side + 2,
    ensures
        0 <= plin(side, x, y, z) < (side + 2) * (side + 2) * (side + 2),
        plin(side, x, y, z) < 39304,
{
    let p = side + 2;
    assert(0 <= plin(side, x, y, z) < p * p * p && p * p * p <= 39304) by (nonlinear_arith)
        requires
            1 <= side <= 32,
            p == side + 2,
            0 <= x < p,
            0 <= y < p,
            0 <= z < p;
}

/// Fills one padded vertical run: every cell with the given horizontal
/// padded coordinates, margins included.
#[verifier::loop_isolation(false)]
pub fn fill_padded_bloc_column(
    world: &Blocks,
    buffer: &mut Vec<Block>,
    chunk: ChunkPos,
    lod: usize,
    px: usize,
    pz: usize,
)
    requires
        world.wf(),
        chunk_in_bounds(chunk),
        valid_lod(lod as int),
        old(buffer)@.len() == (CHUNK_S1 as int / lod as int + 2)
            * (CHUNK_S1 as int / lod as int + 2) * (CHUNK_S1 as int / lod as int + 2),
        px < CHUNK_S1 as int / lod as int + 2,
        pz < CHUNK_S1 as int / lod as int + 2,
    ensures
        final(buffer)@.len() == old(buffer)@.len(),
        forall|py: int| #![trigger final(buffer)@[plin(CHUNK_S1 as int / lod as int, px as int, py, pz as int)]]
            0 <= py < CHUNK_S1 as int / lod as int + 2
            ==> final(buffer)@[plin(CHUNK_S1 as int / lod as int, px as int, py, pz as int)]
                == spec_padded(*world, chunk, lod as int, px as int, py, pz as int),
        forall|x: int, y: int, z: int|
            #![trigger final(buffer)@[plin(CHUNK_S1 as int / lod as int, x, y, z)]]
            0 <= x < CHUNK_S1 as int / lod as int + 2
            && 0 <= y < CHUNK_S1 as int / lod as int + 2
            && 0 <= z < CHUNK_S1 as int / lod as int + 2
            && !(x == px && z == pz)
            ==> final(buffer)@[plin(CHUNK_S1 as int / lod as int, x, y, z)]
                == old(buffer)@[plin(CHUNK_S1 as int / lod as int, x, y, z)],
{
    let side = CHUNK_S1 / lod;
    proof {
        lemma_side_bounds(lod as int);
    }
    let ghost orig: Seq<Block> = buffer@;
    let mut py: usize = 0;
    while py < side + 2
        invariant
            buffer@.len() == orig.len(),
            py <= side + 2,
            forall|y: int| #![trigger buffer@[plin(side as int, px as int, y, pz as int)]]
                0 <= y < py
                ==> buffer@[plin(side as int, px as int, y, pz as int)]
                    == spec_padded(*world, chunk, lod as int, px as int, y, pz as int),
            forall|x: int, y: int, z: int|
                #![trigger buffer@[plin(side as int, x, y, z)]]
                0 <= x < side + 2 && 0 <= y < side + 2 && 0 <= z < side + 2
                && !(x == px && z == pz)
                ==> buffer@[plin(side as int, x, y, z)] == orig[plin(side as int, x, y, z)],
            forall|y: int| #![trigger buffer@[plin(side as int, px as int, y, pz as int)]]
                py <= y < side + 2
                ==> buffer@[plin(side as int, px as int, y, pz as int)]
                    == orig[plin(side as int, px as int, y, pz as int)],
        decreases side + 2 - py,
    {
        let b = padded_sample(world, chunk, lod, px, py, pz);
        proof {
            lemma_plin_range(side as int, px as int, py as int, pz as int);
            assert(px * (side + 2) <= 1122 && (px * (side + 2) + pz) * (side + 2) + py < 39304)
                by (nonlinear_arith)
                requires 1 <= side <= 32, px < side + 2, py < side + 2, pz < side + 2;
        }
        let ghost before: Seq<Block> = buffer@;
        let i = (px * (side + 2) + pz) * (side + 2) + py;
        buffer[i] = b;
        proof {
            assert forall|x: int, y: int, z: int|
                #![trigger buffer@[plin(side as int, x, y, z)]]
                0 <= x < side + 2 && 0 <= y < side + 2 && 0 <= z < side + 2
                && !(x == px && y == py && z == pz)
                implies buffer@[plin(side as int, x, y, z)]
                    == before[plin(side as int, x, y, z)] by {
                lemma_plin_range(side as int, x, y, z);
                if plin(side as int, x, y, z) == i as int {
                    lemma_plin_inj(side as int, x, y, z, px as int, py as int, pz as int);
                }
            }
        }
        py += 1;
    }
}

/// Builds the padded voxel buffer for one chunk at a level of detail: the
/// chunk's blocks in the interior (sampled at stride `lod`), the nearest
/// neighbor layers on the face margins at full detail, `Air` elsewhere.
#[verifier::loop_isolation(false)]
pub fn fill_padded_chunk(world: &Blocks, chunk: ChunkPos, lod: usize) -> (r: Vec<Block>)
    requires
        world.wf(),
        chunk_in_bounds(chunk),
        valid_lod(lod as int),
    ensures
        r@.len() == (CHUNK_S1 as int / lod as int + 2)
            * (CHUNK_S1 as int / lod as int + 2) * (CHUNK_S1 as int / lod as int + 2),
        forall|x: int, y: int, z: int|
            #![trigger r@[plin(CHUNK_S1 as int / lod as int, x, y, z)]]
            0 <= x < CHUNK_S1 as int / lod as int + 2
            && 0 <= y < CHUNK_S1 as int / lod as int + 2
            && 0 <= z < CHUNK_S1 as int / lod as int + 2
            ==> r@[plin(CHUNK_S1 as int / lod as int, x, y, z)]
                == spec_padded(*world, chunk, lod as int, x, y, z),
{
    let side = CHUNK_S1 / lod;
    proof {
        lemma_side_bounds(lod as int);
        assert((side + 2) * (side + 2) <= 1156
            && (side + 2) * (side + 2) * (side + 2) <= 39304) by (nonlinear_arith)
            requires 1 <= side <= 32;
    }
    let size = (side + 2) * (side + 2) * (side + 2);
    let mut buffer: Vec<Block> = Vec::new();
    let mut i: usize = 0;
    while i < size
        invariant
            i <= size,
            buffer@.len() == i,
        decreases size - i,
    {
        buffer.push(Block::Air);
        i += 1;
    }
    let mut px: usize = 0;
    while px < side + 2
        invariant
            px <= side + 2,
            buffer@.len() == size,
            forall|x: int, y: int, z: int|
                #![trigger buffer@[plin(side as int, x, y, z)]]
                0 <= x < px && 0 <= y < side + 2 && 0 <= z < side + 2
                ==> buffer@[plin(side as int, x, y, z)]
                    == spec_padded(*world, chunk, lod as int, x, y, z),
        decreases side + 2 - px,
    {
        let mut pz: usize = 0;
        while pz < side + 2
            invariant
                px < side + 2,
                pz <= side + 2,
                buffer@.len() == size,
                forall|x: int, y: int, z: int|
                    #![trigger buffer@[plin(side as int, x, y, z)]]
                    0 <= x < side + 2 && 0 <= y < side + 2 && 0 <= z < side + 2
                    && (x < px || (x == px && z < pz))
                    ==> buffer@[plin(side as int, x, y, z)]
                        == spec_padded(*world, chunk, lod as int, x, y, z),
            decreases side + 2 - pz,
        {
            fill_padded_bloc_column(world, &mut buffer, chunk, lod, px, pz);
            pz += 1;
        }
        px += 1;
    }
    buffer
}

/// A merged rectangle of visible faces in chunk-grid coordinates:
/// `(x, y, z)` is the minimum covered cell, `w` and `h` the extents along
/// the face's two tangent axes.
#[derive(Clone, Copy, PartialEq, Eq, Structural, Debug)]
pub struct Quad {
    pub face: Face,
    pub x: usize,
    pub y: usize,
    pub z: usize,
    pub w: usize,
    pub h: usize,
    pub block: Block,
}

/// Unit offset toward the neighbor a face looks at.
pub open spec fn face_offset(f: Face) -> (int, int, int) {
    match f {
        Face::Left => (-1, 0, 0),
        Face::Right => (1, 0, 0),
        Face::Down => (0, -1, 0),
        Face::Up => (0, 1, 0),
        Face::Front => (0, 0, -1),
        Face::Back => (0, 0, 1),
    }
}

/// The block a padded buffer shows for a chunk-grid cell.
pub open spec fn cell_block(buf: Seq<Block>, side: int, x: int, y: int, z: int) -> Block {
    buf[plin(side, x + 1, y + 1, z + 1)]
}

/// Whether a cell's face is visible: the cell is solid and its neighbor in
/// the face direction (inside the padded buffer) is `Air`.
pub open spec fn face_visible(
    buf: Seq<Block>,
    side: int,
    x: int,
    y: int,
    z: int,
    f: Face,
) -> bool {
    let o = face_offset(f);
    &&& cell_block(buf, side, x, y, z) != Block::Air
    &&& buf[plin(side, x + 1 + o.0, y + 1 + o.1, z + 1 + o.2)] == Block::Air
}

/// Extent of a quad along each axis: one cell deep along its normal.
pub open spec fn quad_ext(q: Quad) -> (int, int, int) {
    match q.face {
        Face::Up | Face::Down => (q.w as int, 1, q.h as int),
        Face::Left | Face::Right => (1, q.h as int, q.w as int),
        Face::Front | Face::Back => (q.w as int, q.h as int, 1),
    }
}

/// Whether a quad covers a chunk-grid cell.
pub open spec fn covers3(q: Quad, x: int, y: int, z: int) -> bool {
    let e = quad_ext(q);
    &&& q.x <= x < q.x + e.0
    &&& q.y <= y < q.y + e.1
    &&& q.z <= z < q.z + e.2
}

/// A well-formed quad: non-empty and inside the chunk grid.
pub open spec fn quad3_wf(q: Quad, side: int) -> bool {
    let e = quad_ext(q);
    &&& 1 <= q.w
    &&& 1 <= q.h
    &&& q.x + e.0 <= side
    &&& q.y + e.1 <= side
    &&& q.z + e.2 <= side
    &&& q.block != Block::Air
}

/// The chunk-grid cell a mask position denotes, per face.
pub open spec fn cell_of(f: Face, layer: int, u: int, v: int) -> (int, int, int) {
    match f {
        Face::Up | Face::Down => (u, layer, v),
        Face::Left | Face::Right => (layer, v, u),
        Face::Front | Face::Back => (u, v, layer),
    }
}

/// The layer (normal-axis) coordinate of a cell, per face.
pub open spec fn layer_coord(f: Face, x: int, y: int, z: int) -> int {
    match f {
        Face::Up | Face::Down => y,
        Face::Left | Face::Right => x,
        Face::Front | Face::Back => z,
    }
}

/// What a face mask holds: the cell's block where its face is visible,
/// `Air` elsewhere.
pub open spec fn mask_spec(
    buf: Seq<Block>,
    side: int,
    f: Face,
    layer: int,
    u: int,
    v: int,
) -> Block {
    let c = cell_of(f, layer, u, v);
    if face_visible(buf, side, c.0, c.1, c.2, f) {
        cell_block(buf, side, c.0, c.1, c.2)
    } else {
        Block::Air
    }
}

/// A mask quad lifted into chunk-grid coordinates at one layer.
pub open spec fn lift_quad(f: Face, layer: int, mq: MaskQuad) -> Quad {
    match f {
        Face::Up | Face::Down => Quad {
            face: f, x: mq.u, y: layer as usize, z: mq.v, w: mq.w, h: mq.h, block: mq.block,
        },
        Face::Left | Face::Right => Quad {
            face: f, x: layer as usize, y: mq.v, z: mq.u, w: mq.w, h: mq.h, block: mq.block,
        },
        Face::Front | Face::Back => Quad {
            face: f, x: mq.u, y: mq.v, z: layer as usize, w: mq.w, h: mq.h, block: mq.block,
        },
    }
}

/// Reads one padded buffer cell.
fn read_padded(buffer: &Vec<Block>, side: usize, px: usize, py: usize, pz: usize) -> (r: Block)
    requires
        1 <= side <= 32,
        buffer@.len() == (side + 2) * (side + 2) * (side + 2),
        px < side + 2,
        py < side + 2,
        pz < side + 2,
    ensures
        r == buffer@[plin(side as int, px as int, py as int, pz as int)],
{
    proof {
        lemma_plin_range(side as int, px as int, py as int, pz as int);
        assert(px * (side + 2) <= 1122 && (px * (side + 2) + pz) * (side + 2) + py < 39304)
            by (nonlinear_arith)
            requires 1 <= side <= 32, px < side + 2, py < side + 2, pz < side + 2;
    }
    buffer[(px * (side + 2) + pz) * (side + 2) + py]
}

/// Mask cells of finished rows come before the current one.
proof fn lemma_cell_lex(side: int, u2: int, v2: int, u: int, v: int)
    requires
        0 <= u2 < side,
        0 <= u < side,
        0 <= v2,
        0 <= v,
        v2 < v || (v2 == v && u2 < u),
    ensures
        v2 * side + u2 < v * side + u,
{
    assert(v2 * side + u2 < v * side + u) by (nonlinear_arith)
        requires
            0 <= u2 < side,
            0 <= u < side,
            0 <= v2,
            0 <= v,
            v2 < v || (v2 == v && u2 < u);
}

/// Builds the visibility mask for one face direction and one layer.
#[verifier::loop_isolation(false)]
fn build_mask(buffer: &Vec<Block>, side: usize, f: Face, layer: usize) -> (r: Vec<Block>)
    requires
        1 <= side <= 32,
        buffer@.len() == (side + 2) * (side + 2) * (side + 2),
        layer < side,
    ensures
        r@.len() == side * side,
        forall|u: int, v: int| #![trigger r@[v * side + u]]
            0 <= u < side && 0 <= v < side
            ==> r@[v * side + u] == mask_spec(buffer@, side as int, f, layer as int, u, v),
{
    let mut mask: Vec<Block> = Vec::new();
    let mut v: usize = 0;
    while v < side
        invariant
            v <= side,
            mask@.len() == v * side,
            forall|u2: int, v2: int| #![trigger mask@[v2 * side + u2]]
                0 <= u2 < side && 0 <= v2 < v
                ==> mask@[v2 * side + u2]
                    == mask_spec(buffer@, side as int, f, layer as int, u2, v2),
        decreases side - v,
    {
        let mut u: usize = 0;
        while u < side
            invariant
                v < side,
                u <= side,
                mask@.len() == v * side + u,
                forall|u2: int, v2: int| #![trigger mask@[v2 * side + u2]]
                    0 <= u2 < side && (0 <= v2 < v || (v2 == v && 0 <= u2 < u))
                    ==> mask@[v2 * side + u2]
                        == mask_spec(buffer@, side as int, f, layer as int, u2, v2),
            decreases side - u,
        {
            // chunk-grid cell this mask position denotes, and its neighbor
            let (cx, cy, cz) = match f {
                Face::Up | Face::Down => (u, layer, v),
                Face::Left | Face::Right => (layer, v, u),
                Face::Front | Face::Back => (u, v, layer),
            };
            let (nx, ny, nz) = match f {
                Face::Left => (cx, cy + 1, cz + 1),
                Face::Right => (cx + 2, cy + 1, cz + 1),
                Face::Down => (cx + 1, cy, cz + 1),
                Face::Up => (cx + 1, cy + 2, cz + 1),
                Face::Front => (cx + 1, cy + 1, cz),
                Face::Back => (cx + 1, cy + 1, cz + 2),
            };
            let cell = read_padded(buffer, side, cx + 1, cy + 1, cz + 1);
            let neighbor = read_padded(buffer, side, nx, ny, nz);
            let m = if cell != Block::Air && neighbor == Block::Air {
                cell
            } else {
                Block::Air
            };
            let ghost pre: Seq<Block> = mask@;
            mask.push(m);
            proof {
                assert(mask@.len() == v * side + u + 1);
                assert forall|u2: int, v2: int| #![trigger mask@[v2 * side + u2]]
                    0 <= u2 < side && (0 <= v2 < v || (v2 == v && 0 <= u2 < u + 1))
                    implies mask@[v2 * side + u2]
                        == mask_spec(buffer@, side as int, f, layer as int, u2, v2) by {
                    if v2 == v && u2 == u {
                        assert(mask@[v * side + u] == m);
                    } else {
                        lemma_cell_lex(side as int, u2, v2, u as int, v as int);
                        assert(mask@[v2 * side + u2] == pre[v2 * side + u2]);
                    }
                }
            }
            u += 1;
        }
        proof {
            assert((v + 1) * side == v * side + side) by (nonlinear_arith);
        }
        v += 1;
    }
    mask
}

/// Extracts and merges the visible faces of one direction, layer by layer,
/// appending the quads. Every appended quad carries this face; together they
/// cover each visible face of this direction exactly once.
#[verifier::loop_isolation(false)]
#[verifier::rlimit(100)]
fn extract_face(buffer: &Vec<Block>, side: usize, f: Face, quads: &mut Vec<Quad>)
    requires
        1 <= side <= 32,
        buffer@.len() == (side + 2) * (side + 2) * (side + 2),
    ensures
        final(quads)@.len() >= old(quads)@.len(),
        forall|k: int| 0 <= k < old(quads)@.len()
            ==> final(quads)@[k] == old(quads)@[k],
        forall|k: int| old(quads)@.len() <= k < final(quads)@.len()
            ==> quad3_wf(#[trigger] final(quads)@[k], side as int)
                && final(quads)@[k].face == f,
        forall|k: int, x: int, y: int, z: int| #![trigger covers3(final(quads)@[k], x, y, z)]
            old(quads)@.len() <= k < final(quads)@.len() && covers3(final(quads)@[k], x, y, z)
            ==> 0 <= x < side && 0 <= y < side && 0 <= z < side
                && face_visible(buffer@, side as int, x, y, z, f)
                && cell_block(buffer@, side as int, x, y, z) == final(quads)@[k].block,
        forall|x: int, y: int, z: int|
            #![trigger face_visible(buffer@, side as int, x, y, z, f)]
            0 <= x < side && 0 <= y < side && 0 <= z < side
            && face_visible(buffer@, side as int, x, y, z, f)
            ==> exists|k: int|
                old(quads)@.len() <= k < final(quads)@.len()
                && covers3(#[trigger] final(quads)@[k], x, y, z),
        forall|k1: int, k2: int, x: int, y: int, z: int|
            #![trigger covers3(final(quads)@[k1], x, y, z), covers3(final(quads)@[k2], x, y, z)]
            old(quads)@.len() <= k1 < k2 < final(quads)@.len()
            ==> !(covers3(final(quads)@[k1], x, y, z) && covers3(final(quads)@[k2], x, y, z)),
{
    let ghost base: int = quads@.len() as int;
    let mut layer: usize = 0;
    while layer < side
        invariant
            layer <= side,
            quads@.len() >= base,
            forall|k: int| 0 <= k < base ==> quads@[k] == old(quads)@[k],
            forall|k: int| base <= k < quads@.len()
                ==> quad3_wf(#[trigger] quads@[k], side as int)
                    && quads@[k].face == f
                    && layer_coord(f, quads@[k].x as int, quads@[k].y as int, quads@[k].z as int)
                        < layer,
            forall|k: int, x: int, y: int, z: int| #![trigger covers3(quads@[k], x, y, z)]
                base <= k < quads@.len() && covers3(quads@[k], x, y, z)
                ==> 0 <= x < side && 0 <= y < side && 0 <= z < side
                    && face_visible(buffer@, side as int, x, y, z, f)
                    && cell_block(buffer@, side as int, x, y, z) == quads@[k].block
                    && layer_coord(f, x, y, z)
                        == layer_coord(f, quads@[k].x as int, quads@[k].y as int,
                            quads@[k].z as int),
            forall|x: int, y: int, z: int|
                #![trigger face_visible(buffer@, side as int, x, y, z, f)]
                0 <= x < side && 0 <= y < side && 0 <= z < side
                && layer_coord(f, x, y, z) < layer
                && face_visible(buffer@, side as int, x, y, z, f)
                ==> exists|k: int|
                    base <= k < quads@.len() && covers3(#[trigger] quads@[k], x, y, z),
            forall|k1: int, k2: int, x: int, y: int, z: int|
                #![trigger covers3(quads@[k1], x, y, z), covers3(quads@[k2], x, y, z)]
                base <= k1 < k2 < quads@.len()
                ==> !(covers3(quads@[k1], x, y, z) && covers3(quads@[k2], x, y, z)),
        decreases side - layer,
    {
        let mask = build_mask(buffer, side, f, layer);
        let mqs = merge_mask(&mask, side);
        let ghost at_layer: Seq<Quad> = quads@;
        let ghost lbase: int = quads@.len() as int;
        let mut j: usize = 0;
        while j < mqs.len()
            invariant
                layer < side,
                j <= mqs@.len(),
                quads@.len() == lbase + j,
                forall|k: int| 0 <= k < lbase ==> quads@[k] == at_layer[k],
                forall|j2: int| #![trigger quads@[lbase + j2]]
                    0 <= j2 < j
                    ==> quads@[lbase + j2] == lift_quad(f, layer as int, mqs@[j2]),
            decreases mqs@.len() - j,
        {
            let mq = mqs[j];
            let q = match f {
                Face::Up | Face::Down => Quad {
                    face: f, x: mq.u, y: layer, z: mq.v, w: mq.w, h: mq.h, block: mq.block,
                },
                Face::Left | Face::Right => Quad {
                    face: f, x: layer, y: mq.v, z: mq.u, w: mq.w, h: mq.h, block: mq.block,
                },
                Face::Front | Face::Back => Quad {
                    face: f, x: mq.u, y: mq.v, z: layer, w: mq.w, h: mq.h, block: mq.block,
                },
            };
            quads.push(q);
            proof {
                assert(q == lift_quad(f, layer as int, mqs@[j as int]));
            }
            j += 1;
        }
        proof {
            let gl = layer as int;
            let gs = side as int;
            // quads of earlier layers are untouched and keep their facts
            assert forall|k: int| base <= k < lbase
                implies quad3_wf(#[trigger] quads@[k], gs) && quads@[k].face == f
                    && layer_coord(f, quads@[k].x as int, quads@[k].y as int,
                        quads@[k].z as int) < gl + 1 by {
                assert(quads@[k] == at_layer[k]);
                assert(quad3_wf(at_layer[k], gs));
            }
            assert forall|k: int, x: int, y: int, z: int|
                #![trigger covers3(quads@[k], x, y, z)]
                base <= k < lbase && covers3(quads@[k], x, y, z)
                implies 0 <= x < side && 0 <= y < side && 0 <= z < side
                    && face_visible(buffer@, gs, x, y, z, f)
                    && cell_block(buffer@, gs, x, y, z) == quads@[k].block
                    && layer_coord(f, x, y, z)
                        == layer_coord(f, quads@[k].x as int, quads@[k].y as int,
                            quads@[k].z as int) by {
                assert(quads@[k] == at_layer[k]);
                assert(covers3(at_layer[k], x, y, z));
            }
            // every new quad of this layer is well formed, carries this face
            // and this layer, and covers only visible cells of its block
            assert forall|k: int| lbase <= k < quads@.len()
                implies quad3_wf(#[trigger] quads@[k], gs) && quads@[k].face == f
                    && layer_coord(f, quads@[k].x as int, quads@[k].y as int,
                        quads@[k].z as int) == gl by {
                let mq = mqs@[k - lbase];
                assert(quads@[lbase + (k - lbase)] == lift_quad(f, gl, mqs@[k - lbase]));
                assert(quads@[k] == lift_quad(f, gl, mq));
                assert(quad_wf(mq, gs));
            }
            assert forall|k: int, x: int, y: int, z: int|
                #![trigger covers3(quads@[k], x, y, z)]
                lbase <= k < quads@.len() && covers3(quads@[k], x, y, z)
                implies 0 <= x < side && 0 <= y < side && 0 <= z < side
                    && face_visible(buffer@, gs, x, y, z, f)
                    && cell_block(buffer@, gs, x, y, z) == quads@[k].block
                    && layer_coord(f, x, y, z) == gl by {
                let mq = mqs@[k - lbase];
                assert(quads@[lbase + (k - lbase)] == lift_quad(f, gl, mqs@[k - lbase]));
                assert(quads@[k] == lift_quad(f, gl, mq));
                assert(quad_wf(mq, gs));
                let (u2, v2): (int, int) = match f {
                    Face::Up | Face::Down => (x, z),
                    Face::Left | Face::Right => (z, y),
                    Face::Front | Face::Back => (x, y),
                };
                assert(covers(mq, u2, v2));
                assert(mask@[v2 * gs + u2] == mq.block);
                assert(cell_of(f, gl, u2, v2) == (x, y, z));
                assert(mask_spec(buffer@, gs, f, gl, u2, v2) == mq.block);
            }
            // all visible cells of layers up to and including this one are covered
            assert forall|x: int, y: int, z: int|
                #![trigger face_visible(buffer@, gs, x, y, z, f)]
                0 <= x < side && 0 <= y < side && 0 <= z < side
                && layer_coord(f, x, y, z) < gl + 1
                && face_visible(buffer@, gs, x, y, z, f)
                implies exists|k: int|
                    base <= k < quads@.len() && covers3(#[trigger] quads@[k], x, y, z) by {
                if layer_coord(f, x, y, z) < gl {
                    let k0 = choose|k: int|
                        base <= k < at_layer.len() && covers3(#[trigger] at_layer[k], x, y, z);
                    assert(quads@[k0] == at_layer[k0]);
                    assert(covers3(quads@[k0], x, y, z));
                } else {
                    let (u2, v2): (int, int) = match f {
                        Face::Up | Face::Down => (x, z),
                        Face::Left | Face::Right => (z, y),
                        Face::Front | Face::Back => (x, y),
                    };
                    assert(cell_of(f, gl, u2, v2) == (x, y, z));
                    assert(mask@[v2 * gs + u2] == mask_spec(buffer@, gs, f, gl, u2, v2));
                    assert(mask@[v2 * gs + u2] != Block::Air);
                    let j0 = choose|k: int|
                        0 <= k < mqs@.len() && covers(#[trigger] mqs@[k], u2, v2);
                    assert(quad_wf(mqs@[j0], gs));
                    assert(quads@[lbase + j0] == lift_quad(f, gl, mqs@[j0]));
                    assert(covers3(quads@[lbase + j0], x, y, z));
                }
            }
            // disjointness: old pairs kept, new pairs by the merge, and a new
            // quad's layer separates it from every older one
            assert forall|k1: int, k2: int, x: int, y: int, z: int|
                #![trigger covers3(quads@[k1], x, y, z), covers3(quads@[k2], x, y, z)]
                base <= k1 < k2 < quads@.len()
                implies !(covers3(quads@[k1], x, y, z) && covers3(quads@[k2], x, y, z)) by {
                if covers3(quads@[k1], x, y, z) && covers3(quads@[k2], x, y, z) {
                    if k2 < lbase {
                        assert(quads@[k1] == at_layer[k1] && quads@[k2] == at_layer[k2]);
                        assert(!(covers3(at_layer[k1], x, y, z)
                            && covers3(at_layer[k2], x, y, z)));
                    } else if k1 < lbase {
                        assert(quads@[k1] == at_layer[k1]);
                        assert(covers3(at_layer[k1], x, y, z));
                        assert(layer_coord(f, x, y, z)
                            == layer_coord(f, at_layer[k1].x as int, at_layer[k1].y as int,
                                at_layer[k1].z as int));
                        assert(layer_coord(f, x, y, z) == gl);
                    } else {
                        let mq1 = mqs@[k1 - lbase];
                        let mq2 = mqs@[k2 - lbase];
                        assert(quads@[lbase + (k1 - lbase)] == lift_quad(f, gl, mqs@[k1 - lbase]));
                        assert(quads@[lbase + (k2 - lbase)] == lift_quad(f, gl, mqs@[k2 - lbase]));
                        assert(quads@[k1] == lift_quad(f, gl, mq1));
                        assert(quads@[k2] == lift_quad(f, gl, mq2));
                        let (u2, v2): (int, int) = match f {
                            Face::Up | Face::Down => (x, z),
                            Face::Left | Face::Right => (z, y),
                            Face::Front | Face::Back => (x, y),
                        };
                        assert(covers(mq1, u2, v2) && covers(mq2, u2, v2));
                        assert(!(covers(mqs@[k1 - lbase], u2, v2)
                            && covers(mqs@[k2 - lbase], u2, v2)));
                    }
                }
            }
        }
        layer += 1;
    }
}

/// Extracts the merged quads of all six face directions from one padded
/// buffer. Quads of one direction cover each visible face of that direction
/// exactly once.
#[verifier::rlimit(100)]
pub fn extract_faces(buffer: &Vec<Block>, side: usize) -> (r: Vec<Quad>)
    requires
        1 <= side <= 32,
        buffer@.len() == (side + 2) * (side + 2) * (side + 2),
    ensures
        forall|k: int| 0 <= k < r@.len() ==> quad3_wf(#[trigger] r@[k], side as int),
        forall|k: int, x: int, y: int, z: int| #![trigger covers3(r@[k], x, y, z)]
            0 <= k < r@.len() && covers3(r@[k], x, y, z)
            ==> 0 <= x < side && 0 <= y < side && 0 <= z < side
                && face_visible(buffer@, side as int, x, y, z, r@[k].face)
                && cell_block(buffer@, side as int, x, y, z) == r@[k].block,
        forall|x: int, y: int, z: int, f: Face|
            #![trigger face_visible(buffer@, side as int, x, y, z, f)]
            0 <= x < side && 0 <= y < side && 0 <= z < side
            && face_visible(buffer@, side as int, x, y, z, f)
            ==> exists|k: int|
                0 <= k < r@.len() && (#[trigger] r@[k]).face == f && covers3(r@[k], x, y, z),
        forall|k1: int, k2: int, x: int, y: int, z: int|
            #![trigger covers3(r@[k1], x, y, z), covers3(r@[k2], x, y, z)]
            0 <= k1 < k2 < r@.len() && r@[k1].face == r@[k2].face
            ==> !(covers3(r@[k1], x, y, z) && covers3(r@[k2], x, y, z)),
{
    let mut quads: Vec<Quad> = Vec::new();
    extract_face(buffer, side, Face::Up, &mut quads);
    let ghost s1: Seq<Quad> = quads@;
    let ghost n1: int = quads@.len() as int;
    extract_face(buffer, side, Face::Down, &mut quads);
    let ghost s2: Seq<Quad> = quads@;
    let ghost n2: int = quads@.len() as int;
    extract_face(buffer, side, Face::Left, &mut quads);
    let ghost s3: Seq<Quad> = quads@;
    let ghost n3: int = quads@.len() as int;
    extract_face(buffer, side, Face::Right, &mut quads);
    let ghost s4: Seq<Quad> = quads@;
    let ghost n4: int = quads@.len() as int;
    extract_face(buffer, side, Face::Front, &mut quads);
    let ghost s5: Seq<Quad> = quads@;
    let ghost n5: int = quads@.len() as int;
    extract_face(buffer, side, Face::Back, &mut quads);
    let ghost n6: int = quads@.len() as int;
    proof {
        let gs = side as int;
        assert forall|k: int| 0 <= k < n5 implies quads@[k] == s5[k] by {}
        assert forall|k: int| 0 <= k < n4 implies quads@[k] == s4[k] by {
            assert(s5[k] == s4[k]);
        }
        assert forall|k: int| 0 <= k < n3 implies quads@[k] == s3[k] by {
            assert(quads@[k] == s4[k]);
            assert(s4[k] == s3[k]);
        }
        assert forall|k: int| 0 <= k < n2 implies quads@[k] == s2[k] by {
            assert(quads@[k] == s3[k]);
            assert(s3[k] == s2[k]);
        }
        assert forall|k: int| 0 <= k < n1 implies quads@[k] == s1[k] by {
            assert(quads@[k] == s2[k]);
            assert(s2[k] == s1[k]);
        }
        // each quad keeps the well-formedness and face of the pass that made it
        assert forall|k: int| 0 <= k < quads@.len()
            implies quad3_wf(#[trigger] quads@[k], gs)
                && quads@[k].face == spec_pass_face(n1, n2, n3, n4, n5, k) by {
            if k < n1 {
                assert(quads@[k] == s1[k]);
            } else if k < n2 {
                assert(quads@[k] == s2[k]);
            } else if k < n3 {
                assert(quads@[k] == s3[k]);
            } else if k < n4 {
                assert(quads@[k] == s4[k]);
            } else if k < n5 {
                assert(quads@[k] == s5[k]);
            }
        }
        assert forall|k: int, x: int, y: int, z: int| #![trigger covers3(quads@[k], x, y, z)]
            0 <= k < quads@.len() && covers3(quads@[k], x, y, z)
            implies 0 <= x < side && 0 <= y < side && 0 <= z < side
                && face_visible(buffer@, gs, x, y, z, quads@[k].face)
                && cell_block(buffer@, gs, x, y, z) == quads@[k].block by {
            if k < n1 {
                assert(quads@[k] == s1[k]);
                assert(covers3(s1[k], x, y, z));
            } else if k < n2 {
                assert(quads@[k] == s2[k]);
                assert(covers3(s2[k], x, y, z));
            } else if k < n3 {
                assert(quads@[k] == s3[k]);
                assert(covers3(s3[k], x, y, z));
            } else if k < n4 {
                assert(quads@[k] == s4[k]);
                assert(covers3(s4[k], x, y, z));
            } else if k < n5 {
                assert(quads@[k] == s5[k]);
                assert(covers3(s5[k], x, y, z));
            }
        }
        assert forall|x: int, y: int, z: int, f: Face|
            #![trigger face_visible(buffer@, gs, x, y, z, f)]
            0 <= x < side && 0 <= y < side && 0 <= z < side
            && face_visible(buffer@, gs, x, y, z, f)
            implies exists|k: int|
                0 <= k < quads@.len() && (#[trigger] quads@[k]).face == f
                && covers3(quads@[k], x, y, z) by {
            if f == Face::Up {
                let k0 = choose|k: int| 0 <= k < n1 && covers3(#[trigger] s1[k], x, y, z);
                assert(quads@[k0] == s1[k0] && covers3(quads@[k0], x, y, z));
            } else if f == Face::Down {
                let k0 = choose|k: int| n1 <= k < n2 && covers3(#[trigger] s2[k], x, y, z);
                assert(quads@[k0] == s2[k0] && covers3(quads@[k0], x, y, z));
            } else if f == Face::Left {
                let k0 = choose|k: int| n2 <= k < n3 && covers3(#[trigger] s3[k], x, y, z);
                assert(quads@[k0] == s3[k0] && covers3(quads@[k0], x, y, z));
            } else if f == Face::Right {
                let k0 = choose|k: int| n3 <= k < n4 && covers3(#[trigger] s4[k], x, y, z);
                assert(quads@[k0] == s4[k0] && covers3(quads@[k0], x, y, z));
            } else if f == Face::Front {
                let k0 = choose|k: int| n4 <= k < n5 && covers3(#[trigger] s5[k], x, y, z);
                assert(quads@[k0] == s5[k0] && covers3(quads@[k0], x, y, z));
            } else {
                let k0 = choose|k: int| n5 <= k < n6 && covers3(#[trigger] quads@[k], x, y, z);
                assert(covers3(quads@[k0], x, y, z));
            }
        }
        assert forall|k1: int, k2: int, x: int, y: int, z: int|
            #![trigger covers3(quads@[k1], x, y, z), covers3(quads@[k2], x, y, z)]
            0 <= k1 < k2 < quads@.len() && quads@[k1].face == quads@[k2].face
            implies !(covers3(quads@[k1], x, y, z) && covers3(quads@[k2], x, y, z)) by {
            if covers3(quads@[k1], x, y, z) && covers3(quads@[k2], x, y, z) {
                assert(quads@[k1].face == spec_pass_face(n1, n2, n3, n4, n5, k1));
                assert(quads@[k2].face == spec_pass_face(n1, n2, n3, n4, n5, k2));
                if k2 < n1 {
                    assert(quads@[k1] == s1[k1] && quads@[k2] == s1[k2]);
                    assert(covers3(s1[k1], x, y, z) && covers3(s1[k2], x, y, z));
                } else if k2 < n2 {
                    assert(quads@[k1] == s2[k1] && quads@[k2] == s2[k2]);
                    assert(covers3(s2[k1], x, y, z) && covers3(s2[k2], x, y, z));
                } else if k2 < n3 {
                    assert(quads@[k1] == s3[k1] && quads@[k2] == s3[k2]);
                    assert(covers3(s3[k1], x, y, z) && covers3(s3[k2], x, y, z));
                } else if k2 < n4 {
                    assert(quads@[k1] == s4[k1] && quads@[k2] == s4[k2]);
                    assert(covers3(s4[k1], x, y, z) && covers3(s4[k2], x, y, z));
                } else if k2 < n5 {
                    assert(quads@[k1] == s5[k1] && quads@[k2] == s5[k2]);
                    assert(covers3(s5[k1], x, y, z) && covers3(s5[k2], x, y, z));
                } else {
                    assert(covers3(quads@[k1], x, y, z) && covers3(quads@[k2], x, y, z));
                }
            }
        }
    }
    quads
}

/// Which extraction pass an index belongs to, by the recorded boundaries.
spec fn spec_pass_face(n1: int, n2: int, n3: int, n4: int, n5: int, k: int) -> Face {
    if k < n1 {
        Face::Up
    } else if k < n2 {
        Face::Down
    } else if k < n3 {
        Face::Left
    } else if k < n4 {
        Face::Right
    } else if k < n5 {
        Face::Front
    } else {
        Face::Back
    }
}

/// The texture-lookup collaborator: maps a block type and face direction to
/// a texture layer index. Unmapped pairs fall back to layer 0 at emission,
/// counted in the mesh's diagnostic counter.
pub struct TextureMap {
    entries: Vec<(Block, Face, u32)>,
}

/// First-match lookup over the entry list.
pub open spec fn spec_lookup(s: Seq<(Block, Face, u32)>, b: Block, f: Face) -> Option<u32>
    decreases s.len(),
{
    if s.len() == 0 {
        None
    } else if s[0].0 == b && s[0].1 == f {
        Some(s[0].2)
    } else {
        spec_lookup(s.skip(1), b, f)
    }
}

impl TextureMap {
    /// The layer mapped to a block and face, if any.
    pub closed spec fn layer_of(self, b: Block, f: Face) -> Option<u32> {
        spec_lookup(self.entries@, b, f)
    }

    /// An empty map: everything is unmapped.
    pub fn new() -> (r: TextureMap)
        ensures
            forall|b: Block, f: Face| r.layer_of(b, f) is None,
    {
        TextureMap { entries: Vec::new() }
    }

    /// Maps a block and face to a layer, shadowing any earlier entry for the
    /// same pair and leaving every other pair alone.
    pub fn add(&mut self, b: Block, f: Face, layer: u32)
        ensures
            final(self).layer_of(b, f) == Some(layer),
            forall|b2: Block, f2: Face| #![trigger final(self).layer_of(b2, f2)]
                !(b2 == b && f2 == f)
                ==> final(self).layer_of(b2, f2) == old(self).layer_of(b2, f2),
    {
        self.entries.insert(0, (b, f, layer));
        proof {
            assert(self.entries@.skip(1) =~= old(self).entries@);
        }
    }

    /// Looks a block and face up.
    pub fn get(&self, b: Block, f: Face) -> (r: Option<u32>)
        ensures
            r == self.layer_of(b, f),
    {
        proof {
            assert(self.entries@.skip(0) =~= self.entries@);
        }
        let mut i: usize = 0;
        while i < self.entries.len()
            invariant
                i <= self.entries@.len(),
                spec_lookup(self.entries@, b, f)
                    == spec_lookup(self.entries@.skip(i as int), b, f),
            decreases self.entries@.len() - i,
        {
            let e = self.entries[i];
            if e.0 == b && e.1 == f {
                proof {
                    assert(self.entries@.skip(i as int)[0] == e);
                }
                return Some(e.2);
            }
            proof {
                assert(self.entries@.skip(i as int)[0] == self.entries@[i as int]);
                assert(self.entries@.skip(i as int).skip(1)
                    =~= self.entries@.skip(i as int + 1));
            }
            i += 1;
        }
        None
    }
}

/// The layer a quad is drawn with: the mapped one, or 0 when unmapped.
pub open spec fn spec_layer(tm: TextureMap, q: Quad) -> u32 {
    match tm.layer_of(q.block, q.face) {
        Some(l) => l,
        None => 0u32,
    }
}

/// How many quads have no texture-layer mapping.
pub open spec fn count_unmapped(tm: TextureMap, s: Seq<Quad>) -> int
    decreases s.len(),
{
    if s.len() == 0 {
        0
    } else {
        count_unmapped(tm, s.drop_last())
            + (if tm.layer_of(s.last().block, s.last().face) is None { 1int } else { 0int })
    }
}

/// Tangent-axis spans of a quad's four corners: corner `j` is offset by the
/// width span when `j` is odd and by the height span when `j >= 2`.
pub open spec fn spec_du(q: Quad, j: int) -> int {
    if j == 1 || j == 3 { q.w as int } else { 0 }
}

pub open spec fn spec_dv(q: Quad, j: int) -> int {
    if j == 2 || j == 3 { q.h as int } else { 0 }
}

/// World-scaled position of corner `j` of a quad: the quad's rectangle lies
/// on the face's plane, one cell beyond the minimum corner for positive
/// directions.
pub open spec fn quad_corner(q: Quad, lod: int, j: int) -> (int, int, int) {
    let du = spec_du(q, j);
    let dv = spec_dv(q, j);
    match q.face {
        Face::Up => ((q.x + du) * lod, (q.y + 1) * lod, (q.z + dv) * lod),
        Face::Down => ((q.x + du) * lod, q.y * lod, (q.z + dv) * lod),
        Face::Right => ((q.x + 1) * lod, (q.y + dv) * lod, (q.z + du) * lod),
        Face::Left => (q.x * lod, (q.y + dv) * lod, (q.z + du) * lod),
        Face::Back => ((q.x + du) * lod, (q.y + dv) * lod, (q.z + 1) * lod),
        Face::Front => ((q.x + du) * lod, (q.y + dv) * lod, q.z * lod),
    }
}

/// Texture coordinates of corner `j`, scaled by the level of detail.
pub open spec fn spec_uv(q: Quad, lod: int, j: int) -> (int, int) {
    (spec_du(q, j) * lod, spec_dv(q, j) * lod)
}

/// Index pattern of a quad's two triangles over its four shared vertices.
pub open spec fn idx_pat(m: int) -> int {
    if m == 0 { 0 } else if m == 1 { 1 } else if m == 2 { 2 }
    else if m == 3 { 2 } else if m == 4 { 1 } else { 3 }
}

/// A built mesh: the merged quads and the parallel vertex attribute arrays
/// (four shared vertices and six triangle indices per quad), plus the count
/// of quads whose texture lookup fell back to layer 0.
pub struct MeshData {
    pub quads: Vec<Quad>,
    pub positions: Vec<(i32, i32, i32)>,
    pub normals: Vec<(i32, i32, i32)>,
    pub uvs: Vec<(u32, u32)>,
    pub tints: Vec<Tint>,
    pub layers: Vec<u32>,
    pub indices: Vec<usize>,
    pub unmapped: usize,
}

/// The attribute arrays a mesh must carry for its quads.
pub open spec fn emission_ok(md: MeshData, tm: TextureMap, lod: int) -> bool {
    let n = md.quads@.len() as int;
    &&& md.positions@.len() == 4 * n
    &&& md.normals@.len() == 4 * n
    &&& md.uvs@.len() == 4 * n
    &&& md.tints@.len() == 4 * n
    &&& md.layers@.len() == 4 * n
    &&& md.indices@.len() == 6 * n
    &&& forall|k: int, j: int| #![trigger md.positions@[4 * k + j]]
        0 <= k < n && 0 <= j < 4
        ==> {
            let c = quad_corner(md.quads@[k], lod, j);
            md.positions@[4 * k + j].0 == c.0
                && md.positions@[4 * k + j].1 == c.1
                && md.positions@[4 * k + j].2 == c.2
        }
    &&& forall|k: int, j: int| #![trigger md.normals@[4 * k + j]]
        0 <= k < n && 0 <= j < 4
        ==> {
            let o = face_offset(md.quads@[k].face);
            md.normals@[4 * k + j].0 == o.0
                && md.normals@[4 * k + j].1 == o.1
                && md.normals@[4 * k + j].2 == o.2
        }
    &&& forall|k: int, j: int| #![trigger md.uvs@[4 * k + j]]
        0 <= k < n && 0 <= j < 4
        ==> md.uvs@[4 * k + j].0 == spec_uv(md.quads@[k], lod, j).0
            && md.uvs@[4 * k + j].1 == spec_uv(md.quads@[k], lod, j).1
    &&& forall|k: int, j: int| #![trigger md.tints@[4 * k + j]]
        0 <= k < n && 0 <= j < 4
        ==> md.tints@[4 * k + j] == spec_tint(md.quads@[k].block, md.quads@[k].face)
    &&& forall|k: int, j: int| #![trigger md.layers@[4 * k + j]]
        0 <= k < n && 0 <= j < 4
        ==> md.layers@[4 * k + j] == spec_layer(tm, md.quads@[k])
    &&& forall|k: int, m: int| #![trigger md.indices@[6 * k + m]]
        0 <= k < n && 0 <= m < 6
        ==> md.indices@[6 * k + m] == 4 * k + idx_pat(m)
    &&& md.unmapped == count_unmapped(tm, md.quads@)
}

/// Emits the geometry buffers for a list of quads.
#[verifier::loop_isolation(false)]
#[verifier::rlimit(100)]
fn emit_geometry(quads: Vec<Quad>, tm: &TextureMap, side: usize, lod: usize) -> (r: MeshData)
    requires
        1 <= side <= 32,
        valid_lod(lod as int),
        forall|k: int| 0 <= k < quads@.len() ==> quad3_wf(#[trigger] quads@[k], side as int),
    ensures
        r.quads@ == quads@,
        emission_ok(r, *tm, lod as int),
{
    let n = quads.len();
    let mut positions: Vec<(i32, i32, i32)> = Vec::new();
    let mut normals: Vec<(i32, i32, i32)> = Vec::new();
    let mut uvs: Vec<(u32, u32)> = Vec::new();
    let mut tints: Vec<Tint> = Vec::new();
    let mut layers: Vec<u32> = Vec::new();
    let mut indices: Vec<usize> = Vec::new();
    let mut unmapped: usize = 0;
    let mut k: usize = 0;
    while k < n
        invariant
            k <= n,
            n == quads@.len(),
            positions@.len() == 4 * k,
            normals@.len() == 4 * k,
            uvs@.len() == 4 * k,
            tints@.len() == 4 * k,
            layers@.len() == 4 * k,
            indices@.len() == 6 * k,
            unmapped == count_unmapped(*tm, quads@.subrange(0, k as int)),
            unmapped <= k,
            forall|k2: int, j: int| #![trigger positions@[4 * k2 + j]]
                0 <= k2 < k && 0 <= j < 4
                ==> {
                    let c = quad_corner(quads@[k2], lod as int, j);
                    positions@[4 * k2 + j].0 == c.0
                        && positions@[4 * k2 + j].1 == c.1
                        && positions@[4 * k2 + j].2 == c.2
                },
            forall|k2: int, j: int| #![trigger normals@[4 * k2 + j]]
                0 <= k2 < k && 0 <= j < 4
                ==> {
                    let o = face_offset(quads@[k2].face);
                    normals@[4 * k2 + j].0 == o.0
                        && normals@[4 * k2 + j].1 == o.1
                        && normals@[4 * k2 + j].2 == o.2
                },
            forall|k2: int, j: int| #![trigger uvs@[4 * k2 + j]]
                0 <= k2 < k && 0 <= j < 4
                ==> uvs@[4 * k2 + j].0 == spec_uv(quads@[k2], lod as int, j).0
                    && uvs@[4 * k2 + j].1 == spec_uv(quads@[k2], lod as int, j).1,
            forall|k2: int, j: int| #![trigger tints@[4 * k2 + j]]
                0 <= k2 < k && 0 <= j < 4
                ==> tints@[4 * k2 + j] == spec_tint(quads@[k2].block, quads@[k2].face),
            forall|k2: int, j: int| #![trigger layers@[4 * k2 + j]]
                0 <= k2 < k && 0 <= j < 4
                ==> layers@[4 * k2 + j] == spec_layer(*tm, quads@[k2]),
            forall|k2: int, m: int| #![trigger indices@[6 * k2 + m]]
                0 <= k2 < k && 0 <= m < 6
                ==> indices@[6 * k2 + m] == 4 * k2 + idx_pat(m),
        decreases n - k,
    {
        let q = quads[k];
        proof {
            assert(quad3_wf(quads@[k as int], side as int));
            assert(q.x <= 31 && q.y <= 31 && q.z <= 31 && q.w <= 32 && q.h <= 32);
            assert forall|a: int, b2: int| 0 <= a <= 64 && 0 <= b2 <= 32
                implies 0 <= #[trigger] (a * b2) <= 2048 by {
                assert(0 <= a * b2 <= 2048) by (nonlinear_arith)
                    requires 0 <= a <= 64, 0 <= b2 <= 32;
            }
        }
        let lodi = lod as i32;
        let mut j: usize = 0;
        while j < 4
            invariant
                j <= 4,
                positions@.len() == 4 * k + j,
                normals@.len() == 4 * k + j,
                uvs@.len() == 4 * k + j,
                tints@.len() == 4 * k + j,
                layers@.len() == 4 * k + j,
                forall|j2: int| #![trigger positions@[4 * (k as int) + j2]]
                    0 <= j2 < j
                    ==> {
                        let c = quad_corner(quads@[k as int], lod as int, j2);
                        positions@[4 * (k as int) + j2].0 == c.0
                            && positions@[4 * (k as int) + j2].1 == c.1
                            && positions@[4 * (k as int) + j2].2 == c.2
                    },
                forall|j2: int| #![trigger normals@[4 * (k as int) + j2]]
                    0 <= j2 < j
                    ==> {
                        let o = face_offset(quads@[k as int].face);
                        normals@[4 * (k as int) + j2].0 == o.0
                            && normals@[4 * (k as int) + j2].1 == o.1
                            && normals@[4 * (k as int) + j2].2 == o.2
                    },
                forall|j2: int| #![trigger uvs@[4 * (k as int) + j2]]
                    0 <= j2 < j
                    ==> uvs@[4 * (k as int) + j2].0 == spec_uv(quads@[k as int], lod as int, j2).0
                        && uvs@[4 * (k as int) + j2].1
                            == spec_uv(quads@[k as int], lod as int, j2).1,
                forall|j2: int| #![trigger tints@[4 * (k as int) + j2]]
                    0 <= j2 < j
                    ==> tints@[4 * (k as int) + j2]
                        == spec_tint(quads@[k as int].block, quads@[k as int].face),
                forall|j2: int| #![trigger layers@[4 * (k as int) + j2]]
                    0 <= j2 < j
                    ==> layers@[4 * (k as int) + j2] == spec_layer(*tm, quads@[k as int]),
                forall|k2: int, j2: int| #![trigger positions@[4 * k2 + j2]]
                    0 <= k2 < k && 0 <= j2 < 4
                    ==> {
                        let c = quad_corner(quads@[k2], lod as int, j2);
                        positions@[4 * k2 + j2].0 == c.0
                            && positions@[4 * k2 + j2].1 == c.1
                            && positions@[4 * k2 + j2].2 == c.2
                    },
                forall|k2: int, j2: int| #![trigger normals@[4 * k2 + j2]]
                    0 <= k2 < k && 0 <= j2 < 4
                    ==> {
                        let o = face_offset(quads@[k2].face);
                        normals@[4 * k2 + j2].0 == o.0
                            && normals@[4 * k2 + j2].1 == o.1
                            && normals@[4 * k2 + j2].2 == o.2
                    },
                forall|k2: int, j2: int| #![trigger uvs@[4 * k2 + j2]]
                    0 <= k2 < k && 0 <= j2 < 4
                    ==> uvs@[4 * k2 + j2].0 == spec_uv(quads@[k2], lod as int, j2).0
                        && uvs@[4 * k2 + j2].1 == spec_uv(quads@[k2], lod as int, j2).1,
                forall|k2: int, j2: int| #![trigger tints@[4 * k2 + j2]]
                    0 <= k2 < k && 0 <= j2 < 4
                    ==> tints@[4 * k2 + j2] == spec_tint(quads@[k2].block, quads@[k2].face),
                forall|k2: int, j2: int| #![trigger layers@[4 * k2 + j2]]
                    0 <= k2 < k && 0 <= j2 < 4
                    ==> layers@[4 * k2 + j2] == spec_layer(*tm, quads@[k2]),
            decreases 4 - j,
        {
            let du: i32 = if j == 1 || j == 3 { q.w as i32 } else { 0 };
            let dv: i32 = if j == 2 || j == 3 { q.h as i32 } else { 0 };
            let pos: (i32, i32, i32) = match q.face {
                Face::Up => ((q.x as i32 + du) * lodi, (q.y as i32 + 1) * lodi,
                    (q.z as i32 + dv) * lodi),
                Face::Down => ((q.x as i32 + du) * lodi, q.y as i32 * lodi,
                    (q.z as i32 + dv) * lodi),
                Face::Right => ((q.x as i32 + 1) * lodi, (q.y as i32 + dv) * lodi,
                    (q.z as i32 + du) * lodi),
                Face::Left => (q.x as i32 * lodi, (q.y as i32 + dv) * lodi,
                    (q.z as i32 + du) * lodi),
                Face::Back => ((q.x as i32 + du) * lodi, (q.y as i32 + dv) * lodi,
                    (q.z as i32 + 1) * lodi),
                Face::Front => ((q.x as i32 + du) * lodi, (q.y as i32 + dv) * lodi,
                    q.z as i32 * lodi),
            };
            let normal: (i32, i32, i32) = match q.face {
                Face::Left => (-1, 0, 0),
                Face::Right => (1, 0, 0),
                Face::Down => (0, -1, 0),
                Face::Up => (0, 1, 0),
                Face::Front => (0, 0, -1),
                Face::Back => (0, 0, 1),
            };
            let uv: (u32, u32) = (du as u32 * lod as u32, dv as u32 * lod as u32);
            positions.push(pos);
            normals.push(normal);
            uvs.push(uv);
            tints.push(face_tint(q.block, q.face));
            let layer = match tm.get(q.block, q.face) {
                Some(l) => l,
                None => 0,
            };
            layers.push(layer);
            j += 1;
        }
        let cap = positions.len();
        let base = cap - 4;
        proof {
            assert(base == 4 * (k as int));
        }
        indices.push(base);
        indices.push(base + 1);
        indices.push(base + 2);
        indices.push(base + 2);
        indices.push(base + 1);
        indices.push(base + 3);
        if tm.get(q.block, q.face).is_none() {
            unmapped += 1;
        }
        proof {
            assert(quads@.subrange(0, k as int + 1).drop_last()
                =~= quads@.subrange(0, k as int));
            assert(quads@.subrange(0, k as int + 1).last() == quads@[k as int]);
            assert forall|k2: int, m: int| #![trigger indices@[6 * k2 + m]]
                0 <= k2 < k + 1 && 0 <= m < 6
                implies indices@[6 * k2 + m] == 4 * k2 + idx_pat(m) by {
            }
        }
        k += 1;
    }
    proof {
        assert(quads@.subrange(0, n as int) =~= quads@);
    }
    MeshData { quads, positions, normals, uvs, tints, layers, indices, unmapped }
}

/// Visibility of a cell's face stated over the world itself.
pub open spec fn spec_face_visible(
    world: Blocks,
    chunk: ChunkPos,
    lod: int,
    x: int,
    y: int,
    z: int,
    f: Face,
) -> bool {
    let o = face_offset(f);
    &&& spec_padded(world, chunk, lod, x + 1, y + 1, z + 1) != Block::Air
    &&& spec_padded(world, chunk, lod, x + 1 + o.0, y + 1 + o.1, z + 1 + o.2) == Block::Air
}

/// What a finished mesh build guarantees: its quads cover exactly the
/// visible faces of the chunk (each direction's faces exactly once), and the
/// attribute arrays follow the quads.
pub open spec fn mesh_post(
    world: Blocks,
    chunk: ChunkPos,
    tm: TextureMap,
    lod: int,
    md: MeshData,
) -> bool {
    let side = (CHUNK_S1 as int) / lod;
    &&& forall|k: int| 0 <= k < md.quads@.len()
        ==> quad3_wf(#[trigger] md.quads@[k], side)
    &&& forall|k: int, x: int, y: int, z: int| #![trigger covers3(md.quads@[k], x, y, z)]
        0 <= k < md.quads@.len() && covers3(md.quads@[k], x, y, z)
        ==> 0 <= x < side && 0 <= y < side && 0 <= z < side
            && spec_face_visible(world, chunk, lod, x, y, z, md.quads@[k].face)
            && spec_padded(world, chunk, lod, x + 1, y + 1, z + 1) == md.quads@[k].block
    &&& forall|x: int, y: int, z: int, f: Face|
        #![trigger spec_face_visible(world, chunk, lod, x, y, z, f)]
        0 <= x < side && 0 <= y < side && 0 <= z < side
        && spec_face_visible(world, chunk, lod, x, y, z, f)
        ==> exists|k: int|
            0 <= k < md.quads@.len() && (#[trigger] md.quads@[k]).face == f
            && covers3(md.quads@[k], x, y, z)
    &&& forall|k1: int, k2: int, x: int, y: int, z: int|
        #![trigger covers3(md.quads@[k1], x, y, z), covers3(md.quads@[k2], x, y, z)]
        0 <= k1 < k2 < md.quads@.len() && md.quads@[k1].face == md.quads@[k2].face
        ==> !(covers3(md.quads@[k1], x, y, z) && covers3(md.quads@[k2], x, y, z))
    &&& emission_ok(md, tm, lod)
}

/// Builds the mesh of one chunk from the current world contents: padded
/// buffer, face extraction with greedy merging, attribute resolution and
/// geometry emission, at the given level of detail.
#[verifier::rlimit(100)]
pub fn create_mesh(world: &Blocks, chunk: ChunkPos, tm: &TextureMap, lod: usize) -> (r: MeshData)
    requires
        world.wf(),
        chunk_in_bounds(chunk),
        valid_lod(lod as int),
    ensures
        mesh_post(*world, chunk, *tm, lod as int, r),
{
    let side = CHUNK_S1 / lod;
    proof {
        lemma_side_bounds(lod as int);
    }
    let buffer = fill_padded_chunk(world, chunk, lod);
    let quads = extract_faces(&buffer, side);
    proof {
        let gs = side as int;
        let gl = lod as int;
        assert forall|x: int, y: int, z: int, f: Face|
            #![trigger spec_face_visible(*world, chunk, gl, x, y, z, f)]
            0 <= x < gs && 0 <= y < gs && 0 <= z < gs
            implies face_visible(buffer@, gs, x, y, z, f)
                == spec_face_visible(*world, chunk, gl, x, y, z, f)
                && cell_block(buffer@, gs, x, y, z)
                    == spec_padded(*world, chunk, gl, x + 1, y + 1, z + 1) by {
            let o = face_offset(f);
            assert(buffer@[plin(gs, x + 1, y + 1, z + 1)]
                == spec_padded(*world, chunk, gl, x + 1, y + 1, z + 1));
            assert(buffer@[plin(gs, x + 1 + o.0, y + 1 + o.1, z + 1 + o.2)]
                == spec_padded(*world, chunk, gl, x + 1 + o.0, y + 1 + o.1, z + 1 + o.2));
        }
        assert forall|k: int, x: int, y: int, z: int| #![trigger covers3(quads@[k], x, y, z)]
            0 <= k < quads@.len() && covers3(quads@[k], x, y, z)
            implies 0 <= x < gs && 0 <= y < gs && 0 <= z < gs
                && spec_face_visible(*world, chunk, gl, x, y, z, quads@[k].face)
                && spec_padded(*world, chunk, gl, x + 1, y + 1, z + 1)
                    == quads@[k].block by {
            assert(face_visible(buffer@, gs, x, y, z, quads@[k].face));
            assert(spec_face_visible(*world, chunk, gl, x, y, z, quads@[k].face)
                == face_visible(buffer@, gs, x, y, z, quads@[k].face));
        }
        assert forall|x: int, y: int, z: int, f: Face|
            #![trigger spec_face_visible(*world, chunk, gl, x, y, z, f)]
            0 <= x < gs && 0 <= y < gs && 0 <= z < gs
            && spec_face_visible(*world, chunk, gl, x, y, z, f)
            implies exists|k: int|
                0 <= k < quads@.len() && (#[trigger] quads@[k]).face == f
                && covers3(quads@[k], x, y, z) by {
            assert(face_visible(buffer@, gs, x, y, z, f));
        }
    }
    emit_geometry(quads, tm, side, lod)
}

/// Rebuilds a mesh in place from the current world contents.
pub fn update_mesh(
    world: &Blocks,
    chunk: ChunkPos,
    mesh: &mut MeshData,
    tm: &TextureMap,
    lod: usize,
)
    requires
        world.wf(),
        chunk_in_bounds(chunk),
        valid_lod(lod as int),
    ensures
        mesh_post(*world, chunk, *tm, lod as int, *final(mesh)),
{
    *mesh = create_mesh(world, chunk, tm, lod);
}

/// Meshing an entirely empty region yields no quads at all: every quad
/// covers at least its minimum corner, and no face is visible there.
pub proof fn lemma_air_chunk_no_quads(
    world: Blocks,
    chunk: ChunkPos,
    tm: TextureMap,
    lod: int,
    md: MeshData,
)
    requires
        mesh_post(world, chunk, tm, lod, md),
        valid_lod(lod),
        forall|px: int, py: int, pz: int|
            0 <= px < (CHUNK_S1 as int) / lod + 2
            && 0 <= py < (CHUNK_S1 as int) / lod + 2
            && 0 <= pz < (CHUNK_S1 as int) / lod + 2
            ==> spec_padded(world, chunk, lod, px, py, pz) == Block::Air,
    ensures
        md.quads@.len() == 0,
{
    lemma_side_bounds(lod);
    let side = (CHUNK_S1 as int) / lod;
    if md.quads@.len() > 0 {
        let q = md.quads@[0];
        assert(quad3_wf(q, side));
        assert(covers3(q, q.x as int, q.y as int, q.z as int));
        assert(spec_face_visible(world, chunk, lod, q.x as int, q.y as int, q.z as int, q.face));
        assert(spec_padded(world, chunk, lod, q.x + 1, q.y + 1, q.z + 1) == Block::Air);
    }
}

/// A face whose neighbor cell is solid is occluded: no quad of that
/// direction covers it. In particular, the shared face between two solid
/// chunks yields no geometry.
pub proof fn lemma_occluded_face_not_meshed(
    world: Blocks,
    chunk: ChunkPos,
    tm: TextureMap,
    lod: int,
    md: MeshData,
    x: int,
    y: int,
    z: int,
    f: Face,
)
    requires
        mesh_post(world, chunk, tm, lod, md),
        valid_lod(lod),
        0 <= x < (CHUNK_S1 as int) / lod,
        0 <= y < (CHUNK_S1 as int) / lod,
        0 <= z < (CHUNK_S1 as int) / lod,
        ({
            let o = face_offset(f);
            spec_padded(world, chunk, lod, x + 1 + o.0, y + 1 + o.1, z + 1 + o.2) != Block::Air
        }),
    ensures
        forall|k: int| #![trigger md.quads@[k]]
            0 <= k < md.quads@.len() && md.quads@[k].face == f
            ==> !covers3(md.quads@[k], x, y, z),
{
    assert forall|k: int|
        0 <= k < md.quads@.len() && (#[trigger] md.quads@[k]).face == f
        implies !covers3(md.quads@[k], x, y, z) by {
        if covers3(md.quads@[k], x, y, z) {
            assert(spec_face_visible(world, chunk, lod, x, y, z, f));
        }
    }
}

/// Attribute resolution: recovers the block type and face direction of a
/// merged quad by mapping its minimum corner back into the padded buffer.
/// For quads of a sound extraction this agrees exactly with the attributes
/// the quad carries.
pub fn chunked_face_pos(buffer: &Vec<Block>, side: usize, quad: Quad) -> (r: (Block, Face))
    requires
        1 <= side <= 32,
        buffer@.len() == (side + 2) * (side + 2) * (side + 2),
        quad3_wf(quad, side as int),
        forall|x: int, y: int, z: int| #![trigger covers3(quad, x, y, z)]
            covers3(quad, x, y, z)
            ==> 0 <= x < side && 0 <= y < side && 0 <= z < side
                && cell_block(buffer@, side as int, x, y, z) == quad.block,
    ensures
        r == (quad.block, quad.face),
{
    proof {
        assert(covers3(quad, quad.x as int, quad.y as int, quad.z as int));
    }
    let block = read_padded(buffer, side, quad.x + 1, quad.y + 1, quad.z + 1);
    (block, quad.face)
}

} // verus!
