//! A column: a fixed-length stack of optional chunks spanning the full world
//! height at one horizontal chunk coordinate. A `None` slot is semantically
//! all-`Air`: reads treat missing chunks as `Air` without allocating, writes
//! lazily allocate a chunk before mutating.

use vstd::prelude::*;
use vstd::arithmetic::div_mod::{lemma_fundamental_div_mod, lemma_fundamental_div_mod_converse};
use vstd::std_specs::vec::vec_index_mut;
use crate::block::Block;
use crate::chunk::{valid_local, Chunk};
use crate::pos::{chunked, ChunkedPos2D, ColedPos, CHUNK_S1, MAX_HEIGHT, NB_SLOTS};

verus! {

/// Whether a position is a valid column-local position: horizontal offsets in
/// `[0, CHUNK_S1)` and an absolute height in `[0, MAX_HEIGHT)`.
pub open spec fn valid_coled(x: int, y: int, z: int) -> bool {
    0 <= x < CHUNK_S1 && 0 <= y < MAX_HEIGHT && 0 <= z < CHUNK_S1
}

/// A vertical stack of optional chunks.
pub struct Col {
    chunks: Vec<Option<Chunk>>,
}

impl Col {
    /// One slot per `CHUNK_S1` of world height, each allocated chunk well
    /// formed.
    pub closed spec fn wf(self) -> bool {
        &&& self.chunks@.len() == NB_SLOTS
        &&& forall|q: int|
            0 <= q < NB_SLOTS && self.chunks@[q] is Some ==> self.chunks@[q]->0.wf()
    }

    /// Whether the vertical slot `q` has an allocated chunk.
    pub closed spec fn slot_some(self, q: int) -> bool {
        self.chunks@[q] is Some
    }

    /// The block at a column-local position; `Air` wherever no chunk is
    /// allocated.
    pub closed spec fn cell(self, x: int, y: int, z: int) -> Block {
        match self.chunks@[y / (CHUNK_S1 as int)] {
            None => Block::Air,
            Some(c) => c.cell(x, y % (CHUNK_S1 as int), z),
        }
    }

    /// A column with no allocated chunks: every cell reads as `Air`.
    #[verifier::loop_isolation(false)]
    pub fn new() -> (r: Col)
        ensures
            r.wf(),
            forall|q: int| #![trigger r.slot_some(q)] 0 <= q < NB_SLOTS ==> !r.slot_some(q),
            forall|x: int, y: int, z: int| #![trigger r.cell(x, y, z)]
                valid_coled(x, y, z) ==> r.cell(x, y, z) == Block::Air,
    {
        let mut chunks: Vec<Option<Chunk>> = Vec::new();
        let mut q: usize = 0;
        while q < NB_SLOTS
            invariant
                q <= NB_SLOTS,
                chunks@.len() == q,
                forall|j: int| 0 <= j < q ==> chunks@[j] is None,
            decreases NB_SLOTS - q,
        {
            chunks.push(None);
            q += 1;
        }
        let r = Col { chunks };
        proof {
            assert forall|x: int, y: int, z: int| valid_coled(x, y, z)
                implies r.cell(x, y, z) == Block::Air by {
                lemma_height_decomp(y);
            }
        }
        r
    }

    /// The block at a column-local position.
    pub fn get(&self, pos: ColedPos) -> (r: Block)
        requires
            self.wf(),
            valid_coled(pos.0 as int, pos.1 as int, pos.2 as int),
        ensures
            r == self.cell(pos.0 as int, pos.1 as int, pos.2 as int),
    {
        let (dx, y, dz) = pos;
        let (qy, dy) = chunked(y);
        proof {
            lemma_height_decomp(y as int);
        }
        match &self.chunks[qy as usize] {
            None => Block::Air,
            Some(chunk) => chunk.get((dx, dy, dz)),
        }
    }

    /// Writes a block, lazily allocating the slot's chunk if it is missing;
    /// every other cell, and every other slot's allocation, is unchanged.
    pub fn set(&mut self, pos: ColedPos, block: Block)
        requires
            old(self).wf(),
            valid_coled(pos.0 as int, pos.1 as int, pos.2 as int),
        ensures
            final(self).wf(),
            final(self).cell(pos.0 as int, pos.1 as int, pos.2 as int) == block,
            final(self).slot_some(pos.1 as int / CHUNK_S1 as int),
            forall|x: int, y: int, z: int| #![trigger final(self).cell(x, y, z)]
                valid_coled(x, y, z) && !(x == pos.0 && y == pos.1 && z == pos.2)
                ==> final(self).cell(x, y, z) == old(self).cell(x, y, z),
            forall|q: int| #![trigger final(self).slot_some(q)]
                0 <= q < NB_SLOTS && q != pos.1 as int / CHUNK_S1 as int
                ==> final(self).slot_some(q) == old(self).slot_some(q),
    {
        let (dx, y, dz) = pos;
        let (qy, dy) = chunked(y);
        proof {
            lemma_height_decomp(y as int);
        }
        let ghost prev: Col = *self;
        let slot = vec_index_mut(&mut self.chunks, qy as usize);
        let taken = slot.take();
        let mut chunk = match taken {
            Some(c) => c,
            None => Chunk::new(),
        };
        let ghost fresh: Chunk = chunk;
        chunk.set((dx, dy, dz), block);
        let ghost updated: Chunk = chunk;
        *slot = Some(chunk);
        proof {
            assert(self.chunks@ =~= prev.chunks@.update(qy as int, Some(updated)));
            assert forall|x: int, y: int, z: int|
                valid_coled(x, y, z) && !(x == dx && y == pos.1 && z == dz)
                implies final(self).cell(x, y, z) == old(self).cell(x, y, z) by {
                lemma_height_decomp(y);
                if y / CHUNK_S1 as int == qy as int {
                    if x == dx && z == dz && y % CHUNK_S1 as int == dy as int {
                        lemma_fundamental_div_mod(y, CHUNK_S1 as int);
                        lemma_fundamental_div_mod(pos.1 as int, CHUNK_S1 as int);
                        assert(y == pos.1 as int);
                    } else {
                        assert(updated.cell(x, y % CHUNK_S1 as int, z)
                            == fresh.cell(x, y % CHUNK_S1 as int, z));
                    }
                }
            }
        }
    }

    /// Scans downward for the highest non-`Air` block at a horizontal offset,
    /// returning it with its absolute height; `(Bedrock, 0)` when the whole
    /// column is `Air`.
    #[verifier::loop_isolation(false)]
    pub fn top(&self, pos: ChunkedPos2D) -> (r: (Block, i32))
        requires
            self.wf(),
            pos.0 < CHUNK_S1,
            pos.1 < CHUNK_S1,
        ensures
            0 <= r.1 < MAX_HEIGHT,
            (forall|y: int| 0 <= y < MAX_HEIGHT
                ==> self.cell(pos.0 as int, y, pos.1 as int) == Block::Air)
                ==> r == (Block::Bedrock, 0i32),
            (exists|y: int| 0 <= y < MAX_HEIGHT
                && self.cell(pos.0 as int, y, pos.1 as int) != Block::Air)
                ==> {
                    &&& r.0 == self.cell(pos.0 as int, r.1 as int, pos.1 as int)
                    &&& r.0 != Block::Air
                    &&& forall|y: int| r.1 < y < MAX_HEIGHT
                        ==> self.cell(pos.0 as int, y, pos.1 as int) == Block::Air
                },
    {
        let (x, z) = pos;
        let ghost gx = x as int;
        let ghost gz = z as int;
        let mut cq: usize = NB_SLOTS;
        while cq > 0
            invariant
                self.wf(),
                x < CHUNK_S1,
                z < CHUNK_S1,
                cq <= NB_SLOTS,
                forall|y: int| cq * CHUNK_S1 <= y < MAX_HEIGHT
                    ==> self.cell(gx, y, gz) == Block::Air,
            decreases cq,
        {
            cq -= 1;
            match &self.chunks[cq] {
                None => {
                    proof {
                        assert forall|y: int| cq * CHUNK_S1 <= y < MAX_HEIGHT
                            implies self.cell(gx, y, gz) == Block::Air by {
                            lemma_height_decomp(y);
                        }
                    }
                },
                Some(chunk) => {
                    let mut dy: usize = CHUNK_S1;
                    while dy > 0
                        invariant
                            self.wf(),
                            x < CHUNK_S1,
                            z < CHUNK_S1,
                            cq < NB_SLOTS,
                            dy <= CHUNK_S1,
                            self.chunks@[cq as int] == Some(*chunk),
                            chunk.wf(),
                            forall|y: int| cq * CHUNK_S1 + dy <= y < MAX_HEIGHT
                                ==> self.cell(gx, y, gz) == Block::Air,
                        decreases dy,
                    {
                        dy -= 1;
                        let block = chunk.get((x, dy, z));
                        proof {
                            lemma_slot_decomp(cq as int, dy as int);
                            assert(self.cell(gx, cq * CHUNK_S1 + dy, gz) == block);
                        }
                        if block != Block::Air {
                            return (block, (cq * CHUNK_S1 + dy) as i32);
                        }
                        proof {
                            assert forall|y: int| cq * CHUNK_S1 + dy <= y < MAX_HEIGHT
                                implies self.cell(gx, y, gz) == Block::Air by {
                                if y != cq * CHUNK_S1 + dy {
                                    assert(cq * CHUNK_S1 + dy + 1 <= y);
                                }
                            }
                        }
                    }
                },
            }
        }
        (Block::Bedrock, 0)
    }

    /// Bulk bottom-up initializer: fills every slot below the first allocated
    /// one with chunks of `block`, then, inside that first allocated chunk,
    /// fills each vertical run of `Air` cells from the bottom until the first
    /// obstruction. Never overwrites a non-`Air` cell.
    #[verifier::rlimit(100)]
    pub fn fill_up(&mut self, block: Block)
        requires
            old(self).wf(),
        ensures
            final(self).wf(),
            forall|x: int, y: int, z: int| #![trigger final(self).cell(x, y, z)]
                valid_coled(x, y, z)
                ==> final(self).cell(x, y, z) == spec_fill_cell(*old(self), block, x, y, z),
            forall|q: int| #![trigger final(self).slot_some(q)]
                0 <= q < NB_SLOTS
                ==> final(self).slot_some(q) == (old(self).slot_some(q)
                    || forall|q2: int| 0 <= q2 <= q ==> !old(self).slot_some(q2)),
    {
        let ghost orig: Col = *self;
        let mut qy: usize = 0;
        loop
            invariant
                self.wf(),
                orig.wf(),
                qy <= NB_SLOTS,
                forall|q: int| 0 <= q < qy ==> !orig.slot_some(q),
                forall|q: int| 0 <= q < qy ==> self.slot_some(q),
                forall|q: int| 0 <= q < qy ==> self.chunks@[q] is Some,
                forall|x: int, y: int, z: int| #![trigger self.cell(x, y, z)]
                    valid_coled(x, y, z) && y < qy * CHUNK_S1
                    ==> self.cell(x, y, z) == block,
                forall|q: int| qy <= q < NB_SLOTS ==> self.chunks@[q] == orig.chunks@[q],
            ensures
                qy <= NB_SLOTS,
                forall|q: int| 0 <= q < qy ==> !orig.slot_some(q),
                forall|q: int| 0 <= q < qy ==> self.slot_some(q),
                forall|x: int, y: int, z: int| #![trigger self.cell(x, y, z)]
                    valid_coled(x, y, z) && y < qy * CHUNK_S1
                    ==> self.cell(x, y, z) == block,
                forall|q: int| qy <= q < NB_SLOTS ==> self.chunks@[q] == orig.chunks@[q],
                qy == NB_SLOTS || orig.slot_some(qy as int),
            decreases NB_SLOTS - qy,
        {
            if qy >= NB_SLOTS {
                break;
            }
            if self.chunks[qy].is_some() {
                break;
            }
            let ghost prev: Col = *self;
            let filled = Chunk::filled(block);
            let slot = vec_index_mut(&mut self.chunks, qy);
            *slot = Some(filled);
            proof {
                assert(self.chunks@ =~= prev.chunks@.update(qy as int, Some(filled)));
                assert forall|x: int, y: int, z: int|
                    valid_coled(x, y, z) && y < (qy + 1) * CHUNK_S1
                    implies self.cell(x, y, z) == block by {
                    lemma_height_decomp(y);
                    let q = y / (CHUNK_S1 as int);
                    if q == qy {
                        assert(self.cell(x, y, z) == filled.cell(x, y % CHUNK_S1 as int, z));
                    } else {
                        assert(q < qy);
                        assert(self.cell(x, y, z) == prev.cell(x, y, z));
                    }
                }
            }
            qy += 1;
        }
        if qy < NB_SLOTS {
            let ghost mid: Col = *self;
            let slot = vec_index_mut(&mut self.chunks, qy);
            let mut chunk = slot.take().unwrap();
            let ghost base: Chunk = chunk;
            let mut dx: usize = 0;
            while dx < CHUNK_S1
                invariant
                    base.wf(),
                    chunk.wf(),
                    dx <= CHUNK_S1,
                    forall|x: int, y: int, z: int| #![trigger chunk.cell(x, y, z)]
                        valid_local(x, y, z)
                        ==> chunk.cell(x, y, z) == (if x < dx {
                            spec_chain_cell(base, block, x, y, z)
                        } else {
                            base.cell(x, y, z)
                        }),
                decreases CHUNK_S1 - dx,
            {
                let mut dz: usize = 0;
                while dz < CHUNK_S1
                    invariant
                        base.wf(),
                        chunk.wf(),
                        dx < CHUNK_S1,
                        dz <= CHUNK_S1,
                        forall|x: int, y: int, z: int| #![trigger chunk.cell(x, y, z)]
                            valid_local(x, y, z)
                            ==> chunk.cell(x, y, z) == (if x < dx || (x == dx && z < dz) {
                                spec_chain_cell(base, block, x, y, z)
                            } else {
                                base.cell(x, y, z)
                            }),
                    decreases CHUNK_S1 - dz,
                {
                    let ghost at_call: Chunk = chunk;
                    fill_column(&mut chunk, dx, dz, block);
                    proof {
                        assert forall|y: int| 0 <= y < CHUNK_S1
                            implies at_call.cell(dx as int, y, dz as int)
                                == base.cell(dx as int, y, dz as int) by {}
                        lemma_chain_same(at_call, base, block, dx as int, dz as int);
                        assert forall|y: int| 0 <= y < CHUNK_S1
                            implies chunk.cell(dx as int, y, dz as int)
                                == spec_chain_cell(base, block, dx as int, y, dz as int) by {}
                        lemma_chain_assemble(base, at_call, chunk, block, dx as int, dz as int);
                    }
                    dz += 1;
                }
                dx += 1;
            }
            let ghost done: Chunk = chunk;
            let slot2 = vec_index_mut(&mut self.chunks, qy);
            *slot2 = Some(chunk);
            proof {
                assert(self.chunks@ =~= mid.chunks@.update(qy as int, Some(done)));
                lemma_fill_assemble(orig, mid, *self, base, done, block, qy as int);
            }
        } else {
            proof {
                assert forall|x: int, y: int, z: int| valid_coled(x, y, z)
                    implies final(self).cell(x, y, z) == spec_fill_cell(orig, block, x, y, z) by {
                    lemma_height_decomp(y);
                }
                assert forall|q: int| 0 <= q < NB_SLOTS
                    implies final(self).slot_some(q) == (orig.slot_some(q)
                        || forall|q2: int| 0 <= q2 <= q ==> !orig.slot_some(q2)) by {
                }
            }
        }
    }
}

/// What one bottom-up fill chain leaves at a chunk cell: `block` where the
/// cell and everything below it (in its vertical run) was `Air`, the old
/// value everywhere else.
#[verifier::opaque]
pub open spec fn spec_chain_cell(base: Chunk, block: Block, x: int, y: int, z: int) -> Block {
    if forall|y2: int| 0 <= y2 <= y ==> base.cell(x, y2, z) == Block::Air {
        block
    } else {
        base.cell(x, y, z)
    }
}

/// What `fill_up` leaves at a column cell: `block` for every cell of the
/// slots below the first allocated one, `block` for the `Air` run at the
/// bottom of each vertical run of the first allocated chunk, and the old
/// value everywhere else.
pub open spec fn spec_fill_cell(c: Col, block: Block, x: int, y: int, z: int) -> Block {
    let q = y / (CHUNK_S1 as int);
    if forall|q2: int| 0 <= q2 < q ==> !c.slot_some(q2) {
        if !c.slot_some(q) {
            block
        } else if forall|y2: int| q * CHUNK_S1 <= y2 <= y ==> c.cell(x, y2, z) == Block::Air {
            block
        } else {
            c.cell(x, y, z)
        }
    } else {
        c.cell(x, y, z)
    }
}

/// `fill_up` never changes a cell that already held a non-`Air` block.
pub proof fn lemma_fill_up_preserves_non_air(c: Col, block: Block, x: int, y: int, z: int)
    requires
        c.wf(),
        valid_coled(x, y, z),
        c.cell(x, y, z) != Block::Air,
    ensures
        spec_fill_cell(c, block, x, y, z) == c.cell(x, y, z),
{
    lemma_height_decomp(y);
    lemma_fundamental_div_mod(y, CHUNK_S1 as int);
}

/// Decomposition facts for a height in `[0, MAX_HEIGHT)`.
proof fn lemma_height_decomp(y: int)
    requires
        0 <= y < MAX_HEIGHT,
    ensures
        0 <= y / (CHUNK_S1 as int) < NB_SLOTS,
        0 <= y % (CHUNK_S1 as int) < CHUNK_S1,
        y == (y / (CHUNK_S1 as int)) * (CHUNK_S1 as int) + y % (CHUNK_S1 as int),
{
    lemma_fundamental_div_mod(y, CHUNK_S1 as int);
    vstd::arithmetic::div_mod::lemma_mod_bound(y, CHUNK_S1 as int);
}

/// A (slot, offset) pair decomposes its height uniquely.
proof fn lemma_slot_decomp(q: int, dy: int)
    requires
        0 <= q,
        0 <= dy < CHUNK_S1,
    ensures
        (q * CHUNK_S1 + dy) / (CHUNK_S1 as int) == q,
        (q * CHUNK_S1 + dy) % (CHUNK_S1 as int) == dy,
{
    lemma_fundamental_div_mod_converse(q * CHUNK_S1 + dy, CHUNK_S1 as int, q, dy);
}

/// At the end of one fill chain the whole vertical run matches
/// `spec_chain_cell`: everything below the stop point was `Air` and became
/// `block`, everything above keeps its old value.
proof fn lemma_chain_end(base: Chunk, block: Block, dx: int, dz: int, dy: int)
    requires
        base.wf(),
        0 <= dx < CHUNK_S1,
        0 <= dz < CHUNK_S1,
        0 <= dy <= CHUNK_S1,
        forall|y: int| 0 <= y < dy ==> base.cell(dx, y, dz) == Block::Air,
        dy < CHUNK_S1 ==> base.cell(dx, dy, dz) != Block::Air,
    ensures
        forall|y: int| 0 <= y < dy ==> spec_chain_cell(base, block, dx, y, dz) == block,
        forall|y: int| dy <= y < CHUNK_S1
            ==> spec_chain_cell(base, block, dx, y, dz) == base.cell(dx, y, dz),
{
    reveal(spec_chain_cell);
    assert forall|y: int| dy <= y < CHUNK_S1
        implies spec_chain_cell(base, block, dx, y, dz) == base.cell(dx, y, dz) by {
        if forall|y2: int| 0 <= y2 <= y ==> base.cell(dx, y2, dz) == Block::Air {
            assert(base.cell(dx, dy, dz) == Block::Air);
        }
    }
}

/// One bottom-up fill chain: writes `block` upward from the chunk floor at
/// one horizontal offset until the first non-`Air` cell, leaving every other
/// vertical run untouched.
#[verifier::rlimit(100)]
fn fill_column(chunk: &mut Chunk, dx: usize, dz: usize, block: Block)
    requires
        old(chunk).wf(),
        dx < CHUNK_S1,
        dz < CHUNK_S1,
    ensures
        final(chunk).wf(),
        forall|y: int| #![trigger final(chunk).cell(dx as int, y, dz as int)]
            0 <= y < CHUNK_S1
            ==> final(chunk).cell(dx as int, y, dz as int)
                == spec_chain_cell(*old(chunk), block, dx as int, y, dz as int),
        forall|x: int, y: int, z: int| #![trigger final(chunk).cell(x, y, z)]
            valid_local(x, y, z) && !(x == dx && z == dz)
            ==> final(chunk).cell(x, y, z) == old(chunk).cell(x, y, z),
{
    let ghost base: Chunk = *chunk;
    let mut dy: usize = 0;
    loop
        invariant
            base.wf(),
            chunk.wf(),
            dx < CHUNK_S1,
            dz < CHUNK_S1,
            dy <= CHUNK_S1,
            forall|y: int| 0 <= y < dy ==> base.cell(dx as int, y, dz as int) == Block::Air,
            forall|y: int| #![trigger chunk.cell(dx as int, y, dz as int)]
                0 <= y < dy ==> chunk.cell(dx as int, y, dz as int) == block,
            forall|x: int, y: int, z: int| #![trigger chunk.cell(x, y, z)]
                valid_local(x, y, z) && !(x == dx && z == dz && y < dy)
                ==> chunk.cell(x, y, z) == base.cell(x, y, z),
        ensures
            chunk.wf(),
            forall|y: int| #![trigger chunk.cell(dx as int, y, dz as int)]
                0 <= y < CHUNK_S1
                ==> chunk.cell(dx as int, y, dz as int)
                    == spec_chain_cell(base, block, dx as int, y, dz as int),
            forall|x: int, y: int, z: int| #![trigger chunk.cell(x, y, z)]
                valid_local(x, y, z) && !(x == dx && z == dz)
                ==> chunk.cell(x, y, z) == base.cell(x, y, z),
        decreases CHUNK_S1 - dy,
    {
        if dy >= CHUNK_S1 {
            proof {
                lemma_chain_end(base, block, dx as int, dz as int, dy as int);
                assert forall|y: int| 0 <= y < CHUNK_S1
                    implies chunk.cell(dx as int, y, dz as int)
                        == spec_chain_cell(base, block, dx as int, y, dz as int) by {
                    assert(y < dy);
                    assert(chunk.cell(dx as int, y, dz as int) == block);
                }
            }
            break;
        }
        proof {
            assert(chunk.cell(dx as int, dy as int, dz as int)
                == base.cell(dx as int, dy as int, dz as int));
        }
        let wrote = chunk.set_if_empty((dx, dy, dz), block);
        if !wrote {
            proof {
                assert(base.cell(dx as int, dy as int, dz as int) != Block::Air);
                lemma_chain_end(base, block, dx as int, dz as int, dy as int);
                assert forall|y: int| 0 <= y < CHUNK_S1
                    implies chunk.cell(dx as int, y, dz as int)
                        == spec_chain_cell(base, block, dx as int, y, dz as int) by {
                    if y < dy {
                        assert(chunk.cell(dx as int, y, dz as int) == block);
                    } else {
                        assert(chunk.cell(dx as int, y, dz as int)
                            == base.cell(dx as int, y, dz as int));
                    }
                }
            }
            break;
        }
        dy += 1;
    }
}

/// A fill chain reads only its own vertical run, so chunks that agree on a
/// run agree on the chain's result there.
proof fn lemma_chain_same(c1: Chunk, c2: Chunk, block: Block, x: int, z: int)
    requires
        0 <= x < CHUNK_S1,
        0 <= z < CHUNK_S1,
        forall|y: int| #![trigger c1.cell(x, y, z)]
            0 <= y < CHUNK_S1 ==> c1.cell(x, y, z) == c2.cell(x, y, z),
    ensures
        forall|y: int| #![trigger spec_chain_cell(c1, block, x, y, z)]
            0 <= y < CHUNK_S1
            ==> spec_chain_cell(c1, block, x, y, z) == spec_chain_cell(c2, block, x, y, z),
{
    reveal(spec_chain_cell);
    assert forall|y: int| 0 <= y < CHUNK_S1
        implies spec_chain_cell(c1, block, x, y, z) == spec_chain_cell(c2, block, x, y, z) by {
        assert((forall|y2: int| 0 <= y2 <= y ==> c1.cell(x, y2, z) == Block::Air)
            == (forall|y2: int| 0 <= y2 <= y ==> c2.cell(x, y2, z) == Block::Air)) by {
            if forall|y2: int| 0 <= y2 <= y ==> c1.cell(x, y2, z) == Block::Air {
                assert forall|y2: int| 0 <= y2 <= y
                    implies c2.cell(x, y2, z) == Block::Air by {
                    assert(c1.cell(x, y2, z) == Block::Air);
                }
            } else if forall|y2: int| 0 <= y2 <= y ==> c2.cell(x, y2, z) == Block::Air {
                assert forall|y2: int| 0 <= y2 <= y
                    implies c1.cell(x, y2, z) == Block::Air by {
                    assert(c2.cell(x, y2, z) == Block::Air);
                }
            }
        };
    }
}

/// Extends one finished fill chain to the whole-chunk invariant of the
/// horizontal fill loops.
proof fn lemma_chain_assemble(
    base: Chunk,
    at_call: Chunk,
    done: Chunk,
    block: Block,
    dx: int,
    dz: int,
)
    requires
        base.wf(),
        done.wf(),
        0 <= dx < CHUNK_S1,
        0 <= dz < CHUNK_S1,
        forall|x: int, y: int, z: int| #![trigger at_call.cell(x, y, z)]
            valid_local(x, y, z)
            ==> at_call.cell(x, y, z) == (if x < dx || (x == dx && z < dz) {
                spec_chain_cell(base, block, x, y, z)
            } else {
                base.cell(x, y, z)
            }),
        forall|y: int| #![trigger done.cell(dx, y, dz)]
            0 <= y < CHUNK_S1 ==> done.cell(dx, y, dz) == spec_chain_cell(base, block, dx, y, dz),
        forall|x: int, y: int, z: int| #![trigger done.cell(x, y, z)]
            valid_local(x, y, z) && !(x == dx && z == dz)
            ==> done.cell(x, y, z) == at_call.cell(x, y, z),
    ensures
        forall|x: int, y: int, z: int| #![trigger done.cell(x, y, z)]
            valid_local(x, y, z)
            ==> done.cell(x, y, z) == (if x < dx || (x == dx && z <= dz) {
                spec_chain_cell(base, block, x, y, z)
            } else {
                base.cell(x, y, z)
            }),
{
    assert forall|x: int, y: int, z: int| valid_local(x, y, z)
        implies done.cell(x, y, z) == (if x < dx || (x == dx && z <= dz) {
            spec_chain_cell(base, block, x, y, z)
        } else {
            base.cell(x, y, z)
        }) by {
        if !(x == dx && z == dz) {
            assert(done.cell(x, y, z) == at_call.cell(x, y, z));
        }
    }
}

/// Stitches the two phases of `fill_up` back into the column-level
/// specification.
proof fn lemma_fill_assemble(
    orig: Col,
    mid: Col,
    fin: Col,
    base: Chunk,
    done: Chunk,
    block: Block,
    qy: int,
)
    requires
        orig.wf(),
        mid.wf(),
        0 <= qy < NB_SLOTS,
        base.wf(),
        done.wf(),
        // phase 1 facts
        forall|q: int| 0 <= q < qy ==> !orig.slot_some(q),
        forall|q: int| 0 <= q < qy ==> mid.slot_some(q),
        orig.slot_some(qy),
        forall|x: int, y: int, z: int| #![trigger mid.cell(x, y, z)]
            valid_coled(x, y, z) && y < qy * CHUNK_S1 ==> mid.cell(x, y, z) == block,
        forall|q: int| qy <= q < NB_SLOTS ==> mid.chunks@[q] == orig.chunks@[q],
        mid.chunks@[qy] == Some(base),
        // phase 2 facts
        forall|x: int, y: int, z: int| #![trigger done.cell(x, y, z)]
            valid_local(x, y, z) ==> done.cell(x, y, z) == spec_chain_cell(base, block, x, y, z),
        // final state
        fin.chunks@ == mid.chunks@.update(qy, Some(done)),
    ensures
        fin.wf(),
        forall|x: int, y: int, z: int| #![trigger fin.cell(x, y, z)]
            valid_coled(x, y, z) ==> fin.cell(x, y, z) == spec_fill_cell(orig, block, x, y, z),
        forall|q: int| #![trigger fin.slot_some(q)]
            0 <= q < NB_SLOTS
            ==> fin.slot_some(q) == (orig.slot_some(q)
                || forall|q2: int| 0 <= q2 <= q ==> !orig.slot_some(q2)),
    {
    reveal(spec_chain_cell);
    assert forall|x: int, y: int, z: int| valid_coled(x, y, z)
        implies fin.cell(x, y, z) == spec_fill_cell(orig, block, x, y, z) by {
        lemma_height_decomp(y);
        let q = y / (CHUNK_S1 as int);
        let dy = y % (CHUNK_S1 as int);
        if q < qy {
            assert(fin.cell(x, y, z) == mid.cell(x, y, z));
            assert(fin.cell(x, y, z) == block);
        } else if q == qy {
            assert(fin.cell(x, y, z) == done.cell(x, dy, z));
            // the two "everything below is Air" conditions coincide
            assert((forall|y2: int| 0 <= y2 <= dy ==> base.cell(x, y2, z) == Block::Air)
                == (forall|y2: int| q * CHUNK_S1 <= y2 <= y ==> orig.cell(x, y2, z) == Block::Air)) by {
                if forall|y2: int| 0 <= y2 <= dy ==> base.cell(x, y2, z) == Block::Air {
                    assert forall|y2: int| q * CHUNK_S1 <= y2 <= y
                        implies orig.cell(x, y2, z) == Block::Air by {
                        lemma_height_decomp(y2);
                        assert(y2 / (CHUNK_S1 as int) == q && 0 <= y2 % (CHUNK_S1 as int) <= dy) by {
                            lemma_fundamental_div_mod(y2, CHUNK_S1 as int);
                            lemma_fundamental_div_mod(y, CHUNK_S1 as int);
                            lemma_slot_decomp(q, y2 - q * (CHUNK_S1 as int));
                        };
                        assert(base.cell(x, y2 % (CHUNK_S1 as int), z) == Block::Air);
                    }
                } else {
                    let bad = choose|y2: int|
                        0 <= y2 <= dy && base.cell(x, y2, z) != Block::Air;
                    lemma_slot_decomp(q, bad);
                    assert(orig.cell(x, q * CHUNK_S1 + bad, z) != Block::Air);
                    assert(q * CHUNK_S1 <= q * CHUNK_S1 + bad <= y);
                }
            };
            assert(orig.cell(x, y, z) == base.cell(x, dy, z));
        } else {
            assert(fin.chunks@[q] == orig.chunks@[q]);
            assert(fin.cell(x, y, z) == orig.cell(x, y, z));
            assert(!(forall|q2: int| 0 <= q2 < q ==> !orig.slot_some(q2))) by {
                assert(0 <= qy < q && orig.slot_some(qy));
            };
        }
    }
    assert forall|q: int| 0 <= q < NB_SLOTS
        implies fin.slot_some(q) == (orig.slot_some(q)
            || forall|q2: int| 0 <= q2 <= q ==> !orig.slot_some(q2)) by {
        if q < qy {
            assert(mid.slot_some(q));
            assert(fin.chunks@[q] == mid.chunks@[q]);
            assert(fin.slot_some(q));
            assert(forall|q2: int| 0 <= q2 <= q ==> !orig.slot_some(q2));
        } else if q == qy {
            assert(fin.chunks@[q] == Some(done));
            assert(fin.slot_some(q));
            assert(orig.slot_some(q));
        } else {
            assert(fin.chunks@[q] == orig.chunks@[q]);
            assert(!(forall|q2: int| 0 <= q2 <= q ==> !orig.slot_some(q2))) by {
                assert(0 <= qy <= q && orig.slot_some(qy));
            };
        }
    }
}

} // verus!
