//! A chunk: a cubic block of space with edge `CHUNK_S1`, storing one block
//! type per cell in a packed dense array. Every cell always has a defined
//! value; a fresh chunk is all `Air`.

use vstd::prelude::*;
use vstd::arithmetic::div_mod::lemma_fundamental_div_mod_converse;
use crate::block::Block;
use crate::pos::{ChunkedPos, CHUNK_S1, CHUNK_S2, CHUNK_S3};

verus! {

/// Dense index of a local position inside the packed array.
pub open spec fn spec_lin(x: int, y: int, z: int) -> int {
    x * (CHUNK_S2 as int) + z * (CHUNK_S1 as int) + y
}

/// Whether each component of a local position is in `[0, CHUNK_S1)`.
pub open spec fn valid_local(x: int, y: int, z: int) -> bool {
    0 <= x < CHUNK_S1 && 0 <= y < CHUNK_S1 && 0 <= z < CHUNK_S1
}

/// The dense index is injective over valid local positions.
proof fn lemma_lin_inj(x1: int, y1: int, z1: int, x2: int, y2: int, z2: int)
    requires
        valid_local(x1, y1, z1),
        valid_local(x2, y2, z2),
        spec_lin(x1, y1, z1) == spec_lin(x2, y2, z2),
    ensures
        x1 == x2 && y1 == y2 && z1 == z2,
{
    let i = spec_lin(x1, y1, z1);
    assert(i == (x1 * 32 + z1) * 32 + y1);
    assert(i == (x2 * 32 + z2) * 32 + y2);
    lemma_fundamental_div_mod_converse(i, 32, x1 * 32 + z1, y1);
    lemma_fundamental_div_mod_converse(i, 32, x2 * 32 + z2, y2);
    lemma_fundamental_div_mod_converse(x1 * 32 + z1, 32, x1, z1);
    lemma_fundamental_div_mod_converse(x2 * 32 + z2, 32, x2, z2);
}

/// A fixed-size cubic block of voxel cells.
pub struct Chunk {
    blocks: Vec<Block>,
}

impl Chunk {
    /// The storage holds exactly one code per cell.
    pub closed spec fn wf(self) -> bool {
        self.blocks@.len() == CHUNK_S3
    }

    /// The block stored at a valid local position.
    pub closed spec fn cell(self, x: int, y: int, z: int) -> Block {
        self.blocks@[spec_lin(x, y, z)]
    }

    /// A chunk with every cell set to `block`.
    pub fn filled(block: Block) -> (r: Chunk)
        ensures
            r.wf(),
            forall|x: int, y: int, z: int| #![trigger r.cell(x, y, z)]
                valid_local(x, y, z) ==> r.cell(x, y, z) == block,
    {
        let mut blocks: Vec<Block> = Vec::new();
        let mut i: usize = 0;
        while i < CHUNK_S3
            invariant
                i <= CHUNK_S3,
                blocks@.len() == i,
                forall|j: int| 0 <= j < i ==> blocks@[j] == block,
            decreases CHUNK_S3 - i,
        {
            blocks.push(block);
            i += 1;
        }
        proof {
            assert forall|x: int, y: int, z: int| valid_local(x, y, z)
                implies 0 <= spec_lin(x, y, z) < CHUNK_S3 by {
                lemma_lin_in_range(x, y, z);
            }
        }
        Chunk { blocks }
    }

    /// A chunk with every cell `Air`.
    pub fn new() -> (r: Chunk)
        ensures
            r.wf(),
            forall|x: int, y: int, z: int| #![trigger r.cell(x, y, z)]
                valid_local(x, y, z) ==> r.cell(x, y, z) == Block::Air,
    {
        Chunk::filled(Block::Air)
    }

    /// O(1) lookup of a local position.
    pub fn get(&self, pos: ChunkedPos) -> (r: Block)
        requires
            self.wf(),
            valid_local(pos.0 as int, pos.1 as int, pos.2 as int),
        ensures
            r == self.cell(pos.0 as int, pos.1 as int, pos.2 as int),
    {
        proof {
            lemma_lin_in_range(pos.0 as int, pos.1 as int, pos.2 as int);
        }
        self.blocks[pos.0 * CHUNK_S2 + pos.2 * CHUNK_S1 + pos.1]
    }

    /// O(1) overwrite of a local position; every other cell is unchanged.
    pub fn set(&mut self, pos: ChunkedPos, block: Block)
        requires
            old(self).wf(),
            valid_local(pos.0 as int, pos.1 as int, pos.2 as int),
        ensures
            final(self).wf(),
            final(self).cell(pos.0 as int, pos.1 as int, pos.2 as int) == block,
            forall|x: int, y: int, z: int| #![trigger final(self).cell(x, y, z)]
                valid_local(x, y, z) && !(x == pos.0 && y == pos.1 && z == pos.2)
                ==> final(self).cell(x, y, z) == old(self).cell(x, y, z),
    {
        proof {
            lemma_lin_in_range(pos.0 as int, pos.1 as int, pos.2 as int);
        }
        self.blocks[pos.0 * CHUNK_S2 + pos.2 * CHUNK_S1 + pos.1] = block;
        proof {
            assert forall|x: int, y: int, z: int|
                valid_local(x, y, z) && !(x == pos.0 && y == pos.1 && z == pos.2)
                implies final(self).cell(x, y, z) == old(self).cell(x, y, z) by {
                lemma_lin_in_range(x, y, z);
                if spec_lin(x, y, z) == spec_lin(pos.0 as int, pos.1 as int, pos.2 as int) {
                    lemma_lin_inj(x, y, z, pos.0 as int, pos.1 as int, pos.2 as int);
                }
            }
        }
    }

    /// Writes `block` only if the cell currently holds `Air`; reports whether
    /// a write occurred. Used to stop a bottom-up fill at the first
    /// obstruction.
    pub fn set_if_empty(&mut self, pos: ChunkedPos, block: Block) -> (r: bool)
        requires
            old(self).wf(),
            valid_local(pos.0 as int, pos.1 as int, pos.2 as int),
        ensures
            final(self).wf(),
            r == (old(self).cell(pos.0 as int, pos.1 as int, pos.2 as int) == Block::Air),
            r ==> final(self).cell(pos.0 as int, pos.1 as int, pos.2 as int) == block,
            !r ==> *final(self) == *old(self),
            forall|x: int, y: int, z: int| #![trigger final(self).cell(x, y, z)]
                valid_local(x, y, z) && !(x == pos.0 && y == pos.1 && z == pos.2)
                ==> final(self).cell(x, y, z) == old(self).cell(x, y, z),
    {
        if self.get(pos) == Block::Air {
            self.set(pos, block);
            true
        } else {
            false
        }
    }
}

/// The dense index of a valid local position lies inside the array.
proof fn lemma_lin_in_range(x: int, y: int, z: int)
    requires
        valid_local(x, y, z),
    ensures
        0 <= spec_lin(x, y, z) < CHUNK_S3,
{
}

} // verus!
