//! Terrain generation: a pure function of the world seed and the column
//! coordinate, so the same inputs always produce bit-identical contents.
//! The generation worker's loop lives with the embedder; the library
//! supplies the deterministic column builder and the step that turns one
//! pending load order into a published column.

use vstd::prelude::*;
use crate::block::Block;
use crate::col::{valid_coled, Col};
use crate::pos::ColPos;
use crate::streaming::LoadOrders;
use crate::world::Blocks;

verus! {

/// Column coordinates the generator accepts: global block coordinates must
/// stay within the hashed terrain's domain.
pub open spec fn gen_bounds(col: ColPos) -> bool {
    -32767 <= col.x <= 32767 && -32767 <= col.z <= 32767
}

/// Deterministic terrain height at a global block coordinate, in `[1, 61]`.
pub open spec fn spec_height(seed: u32, x: int, z: int) -> int {
    1 + ((x + 1048576) * 7919 + (z + 1048576) * 6389 + seed) % 61
}

/// The block terrain generation puts at one cell of a column: bedrock
/// floor, stone up to the surface, a grass block on top, air above.
pub open spec fn spec_terrain_block(seed: u32, col: ColPos, x: int, y: int, z: int) -> Block {
    let h = spec_height(seed, col.x * 32 + x, col.z * 32 + z);
    if y == 0 {
        Block::Bedrock
    } else if y < h - 1 {
        Block::Stone
    } else if y == h - 1 {
        Block::GrassBlock
    } else {
        Block::Air
    }
}

/// Terrain height at a global block coordinate.
pub fn height_at(seed: u32, x: i32, z: i32) -> (h: usize)
    requires
        -1048576 <= x <= 1048576,
        -1048576 <= z <= 1048576,
    ensures
        h == spec_height(seed, x as int, z as int),
        1 <= h <= 61,
{
    let xo = (x + 1048576) as u64;
    let zo = (z + 1048576) as u64;
    let v = (xo * 7919 + zo * 6389 + seed as u64) % 61;
    (v + 1) as usize
}

/// Generates one column of terrain. The result is a pure function of the
/// seed and the coordinate: every cell matches `spec_terrain_block`.
#[verifier::loop_isolation(false)]
#[verifier::rlimit(100)]
pub fn gen_column(seed: u32, col: ColPos) -> (r: Col)
    requires
        gen_bounds(col),
    ensures
        r.wf(),
        forall|x: int, y: int, z: int| #![trigger r.cell(x, y, z)]
            valid_coled(x, y, z) ==> r.cell(x, y, z) == spec_terrain_block(seed, col, x, y, z),
{
    let mut c = Col::new();
    let mut dx: usize = 0;
    while dx < 32
        invariant
            c.wf(),
            dx <= 32,
            forall|x: int, y: int, z: int| #![trigger c.cell(x, y, z)]
                valid_coled(x, y, z)
                ==> c.cell(x, y, z) == (if x < dx {
                    spec_terrain_block(seed, col, x, y, z)
                } else {
                    Block::Air
                }),
        decreases 32 - dx,
    {
        let mut dz: usize = 0;
        while dz < 32
            invariant
                c.wf(),
                dx < 32,
                dz <= 32,
                forall|x: int, y: int, z: int| #![trigger c.cell(x, y, z)]
                    valid_coled(x, y, z)
                    ==> c.cell(x, y, z) == (if x < dx || (x == dx && z < dz) {
                        spec_terrain_block(seed, col, x, y, z)
                    } else {
                        Block::Air
                    }),
            decreases 32 - dz,
        {
            let gx = col.x * 32 + dx as i32;
            let gz = col.z * 32 + dz as i32;
            let h = height_at(seed, gx, gz);
            let mut y: usize = 0;
            while y < h
                invariant
                    c.wf(),
                    dx < 32,
                    dz < 32,
                    y <= h,
                    h == spec_height(seed, col.x * 32 + dx, col.z * 32 + dz),
                    1 <= h <= 61,
                    forall|y2: int| #![trigger c.cell(dx as int, y2, dz as int)]
                        0 <= y2 < y
                        ==> c.cell(dx as int, y2, dz as int)
                            == spec_terrain_block(seed, col, dx as int, y2, dz as int),
                    forall|x: int, y2: int, z: int| #![trigger c.cell(x, y2, z)]
                        valid_coled(x, y2, z) && !(x == dx && z == dz && y2 < y)
                        ==> c.cell(x, y2, z) == (if x < dx || (x == dx && z < dz) {
                            spec_terrain_block(seed, col, x, y2, z)
                        } else {
                            Block::Air
                        }),
                decreases h - y,
            {
                let b = if y == 0 {
                    Block::Bedrock
                } else if y == h - 1 {
                    Block::GrassBlock
                } else {
                    Block::Stone
                };
                c.set((dx, y as i32, dz), b);
                y += 1;
            }
            proof {
                assert forall|x: int, y2: int, z: int| #![trigger c.cell(x, y2, z)]
                    valid_coled(x, y2, z)
                    implies c.cell(x, y2, z) == (if x < dx || (x == dx && z < dz + 1) {
                        spec_terrain_block(seed, col, x, y2, z)
                    } else {
                        Block::Air
                    }) by {
                    if x == dx && z == dz && y2 >= h {
                        assert(c.cell(x, y2, z) == Block::Air);
                        assert(spec_terrain_block(seed, col, x, y2, z) == Block::Air);
                    }
                }
            }
            dz += 1;
        }
        dx += 1;
    }
    c
}

/// Generation is deterministic: two columns generated from the same seed
/// and coordinate hold identical blocks in every cell.
pub proof fn lemma_generation_deterministic(seed: u32, col: ColPos, c1: Col, c2: Col)
    requires
        forall|x: int, y: int, z: int| #![trigger c1.cell(x, y, z)]
            valid_coled(x, y, z) ==> c1.cell(x, y, z) == spec_terrain_block(seed, col, x, y, z),
        forall|x: int, y: int, z: int| #![trigger c2.cell(x, y, z)]
            valid_coled(x, y, z) ==> c2.cell(x, y, z) == spec_terrain_block(seed, col, x, y, z),
    ensures
        forall|x: int, y: int, z: int| #![trigger c1.cell(x, y, z)]
            valid_coled(x, y, z) ==> c1.cell(x, y, z) == c2.cell(x, y, z),
{
    assert forall|x: int, y: int, z: int| valid_coled(x, y, z)
        implies c1.cell(x, y, z) == c2.cell(x, y, z) by {
        assert(c2.cell(x, y, z) == spec_terrain_block(seed, col, x, y, z));
    }
}

/// Takes one pending load order, generates its column, and publishes it to
/// the shared store; every other column is left alone. Returns the
/// coordinate served, or `None` when no load was pending.
pub fn process_load_order(
    world: &mut Blocks,
    orders: &mut LoadOrders,
    seed: u32,
) -> (r: Option<ColPos>)
    requires
        old(world).wf(),
        old(orders).wf(),
        forall|p: ColPos| old(orders).pending_load(p) ==> gen_bounds(p),
    ensures
        final(world).wf(),
        final(orders).wf(),
        r is None ==> (forall|p: ColPos| !old(orders).pending_load(p))
            && *final(world) == *old(world),
        r is Some ==> {
            &&& old(orders).pending_load(r->0)
            &&& final(world).has_col(r->0)
            &&& forall|x: int, y: int, z: int|
                #![trigger final(world).col_at(r->0).cell(x, y, z)]
                valid_coled(x, y, z)
                ==> final(world).col_at(r->0).cell(x, y, z)
                    == spec_terrain_block(seed, r->0, x, y, z)
            &&& forall|p: ColPos| #![trigger final(world).has_col(p)]
                p != r->0 ==> final(world).has_col(p) == old(world).has_col(p)
        },
{
    match orders.pop_load() {
        None => None,
        Some(p) => {
            let c = gen_column(seed, p);
            world.insert_col(p, c);
            Some(p)
        },
    }
}

/// Applies every pending unload order: each such column is evicted from
/// the store (a no-op for a coordinate that was never loaded), every other
/// column stays, and pending loads are untouched.
#[verifier::loop_isolation(false)]
pub fn process_unload_orders(world: &mut Blocks, orders: &mut LoadOrders)
    requires
        old(world).wf(),
        old(orders).wf(),
    ensures
        final(world).wf(),
        final(orders).wf(),
        forall|p: ColPos| !final(orders).pending_unload(p),
        forall|p: ColPos| #![trigger final(orders).pending_load(p)]
            final(orders).pending_load(p) == old(orders).pending_load(p),
        forall|p: ColPos| #![trigger final(world).has_col(p)]
            final(world).has_col(p)
                == (old(world).has_col(p) && !old(orders).pending_unload(p)),
        forall|p: ColPos| #![trigger final(world).col_at(p)]
            final(world).has_col(p) ==> final(world).col_at(p) == old(world).col_at(p),
{
    loop
        invariant
            world.wf(),
            orders.wf(),
            forall|p: ColPos| #![trigger orders.pending_load(p)]
                orders.pending_load(p) == old(orders).pending_load(p),
            forall|p: ColPos| #![trigger orders.pending_unload(p)]
                orders.pending_unload(p) ==> old(orders).pending_unload(p),
            forall|p: ColPos| #![trigger world.has_col(p)]
                world.has_col(p)
                    == (old(world).has_col(p)
                        && !(old(orders).pending_unload(p) && !orders.pending_unload(p))),
            forall|p: ColPos| #![trigger world.col_at(p)]
                world.has_col(p) ==> world.col_at(p) == old(world).col_at(p),
        decreases orders.unload_count(),
    {
        let next = orders.pop_unload();
        match next {
            None => {
                break;
            },
            Some(p) => {
                world.remove_col(p);
            },
        }
    }
}

} // verus!
