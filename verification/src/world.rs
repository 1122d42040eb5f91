//! World storage: a mapping from column coordinate to `Col`, with the
//! block-level read/write interface. Reads of missing columns degrade to
//! `Air`; writes lazily allocate the column. The store is keyed by the
//! column's coordinate (including its realm) and holds each key at most once.

use vstd::prelude::*;
use vstd::std_specs::vec::vec_index_mut;
use crate::block::Block;
use crate::col::Col;
use crate::pos::{
    chunked, BlockPos, BlockPos2d, ColPos, MAX_HEIGHT, spec_chunk_index, spec_chunk_offset,
};

verus! {

/// The column store: one entry per resident column coordinate.
pub struct Blocks {
    cols: Vec<(ColPos, Col)>,
}

/// Whether a global block position has a representable height.
pub open spec fn valid_block_y(y: int) -> bool {
    0 <= y < MAX_HEIGHT
}

/// Column coordinate that owns a global block position.
pub open spec fn spec_col_of(pos: BlockPos) -> ColPos {
    ColPos {
        realm: pos.realm,
        x: spec_chunk_index(pos.x as int) as i32,
        z: spec_chunk_index(pos.z as int) as i32,
    }
}

impl Blocks {
    /// Keys are unique and every stored column is well formed.
    pub closed spec fn wf(self) -> bool {
        &&& forall|i: int, j: int|
            0 <= i < j < self.cols@.len() ==> self.cols@[i].0 != self.cols@[j].0
        &&& forall|i: int| 0 <= i < self.cols@.len() ==> (#[trigger] self.cols@[i].1).wf()
    }

    /// Whether a column is resident.
    pub closed spec fn has_col(self, pos: ColPos) -> bool {
        exists|i: int| 0 <= i < self.cols@.len() && (#[trigger] self.cols@[i].0) == pos
    }

    /// The resident column at a coordinate.
    pub closed spec fn col_at(self, pos: ColPos) -> Col {
        self.cols@[choose|i: int| 0 <= i < self.cols@.len() && (#[trigger] self.cols@[i].0) == pos].1
    }

    /// The block the world shows at a global position: `Air` wherever no
    /// column is resident.
    pub open spec fn block_at(self, pos: BlockPos) -> Block {
        if valid_block_y(pos.y as int) && self.has_col(spec_col_of(pos)) {
            self.col_at(spec_col_of(pos)).cell(
                spec_chunk_offset(pos.x as int),
                pos.y as int,
                spec_chunk_offset(pos.z as int),
            )
        } else {
            Block::Air
        }
    }

    /// An empty store.
    pub fn new() -> (r: Blocks)
        ensures
            r.wf(),
            forall|p: ColPos| !r.has_col(p),
    {
        Blocks { cols: Vec::new() }
    }

    /// Index of a column in the store, if resident.
    fn find(&self, pos: ColPos) -> (r: Option<usize>)
        requires
            self.wf(),
        ensures
            match r {
                Some(i) => i < self.cols@.len() && self.cols@[i as int].0 == pos
                    && self.has_col(pos),
                None => !self.has_col(pos),
            },
    {
        let mut i: usize = 0;
        while i < self.cols.len()
            invariant
                i <= self.cols@.len(),
                forall|j: int| 0 <= j < i ==> (#[trigger] self.cols@[j].0) != pos,
            decreases self.cols@.len() - i,
        {
            if self.cols[i].0 == pos {
                return Some(i);
            }
            i += 1;
        }
        None
    }

    /// The store's only index holding a resident coordinate is the one
    /// `find` returns.
    proof fn lemma_at_index(self, pos: ColPos, i: int)
        requires
            self.wf(),
            0 <= i < self.cols@.len(),
            self.cols@[i].0 == pos,
        ensures
            self.has_col(pos),
            self.col_at(pos) == self.cols@[i].1,
    {
        let w = choose|j: int| 0 <= j < self.cols@.len() && (#[trigger] self.cols@[j].0) == pos;
        if w != i {
            assert(self.cols@[w].0 != self.cols@[i].0);
        }
    }

    /// Whether a column is resident.
    pub fn contains_col(&self, pos: ColPos) -> (r: bool)
        requires
            self.wf(),
        ensures
            r == self.has_col(pos),
    {
        self.find(pos).is_some()
    }

    /// Read access to a resident column.
    pub fn get_col(&self, pos: ColPos) -> (r: Option<&Col>)
        requires
            self.wf(),
        ensures
            match r {
                Some(c) => self.has_col(pos) && *c == self.col_at(pos),
                None => !self.has_col(pos),
            },
    {
        match self.find(pos) {
            Some(i) => {
                proof {
                    self.lemma_at_index(pos, i as int);
                }
                Some(&self.cols[i].1)
            },
            None => None,
        }
    }

    /// Publishes a column, replacing any column already resident at the
    /// coordinate; every other column is unchanged.
    pub fn insert_col(&mut self, pos: ColPos, col: Col)
        requires
            old(self).wf(),
            col.wf(),
        ensures
            final(self).wf(),
            final(self).has_col(pos),
            final(self).col_at(pos) == col,
            forall|p: ColPos| #![trigger final(self).has_col(p)]
                p != pos ==> final(self).has_col(p) == old(self).has_col(p),
            forall|p: ColPos| #![trigger final(self).col_at(p)]
                p != pos && old(self).has_col(p)
                ==> final(self).col_at(p) == old(self).col_at(p),
    {
        let found = self.find(pos);
        let ghost prev: Blocks = *self;
        match found {
            Some(i) => {
                let entry = vec_index_mut(&mut self.cols, i);
                entry.1 = col;
                proof {
                    assert(self.cols@ =~= prev.cols@.update(i as int,
                        (prev.cols@[i as int].0, col)));
                    assert forall|k: int| 0 <= k < self.cols@.len()
                        implies (#[trigger] self.cols@[k].1).wf() by {
                        if k != i {
                            assert(self.cols@[k] == prev.cols@[k]);
                        }
                    }
                    self.lemma_at_index(pos, i as int);
                    assert forall|p: ColPos| p != pos && prev.has_col(p)
                        implies final(self).has_col(p)
                            && final(self).col_at(p) == prev.col_at(p) by {
                        let j = choose|j: int|
                            0 <= j < prev.cols@.len() && (#[trigger] prev.cols@[j].0) == p;
                        assert(self.cols@[j].0 == p);
                        self.lemma_at_index(p, j);
                        prev.lemma_at_index(p, j);
                    }
                    assert forall|p: ColPos| p != pos && final(self).has_col(p)
                        implies prev.has_col(p) by {
                        let j = choose|j: int|
                            0 <= j < self.cols@.len() && (#[trigger] self.cols@[j].0) == p;
                        assert(prev.cols@[j].0 == p);
                    }
                }
            },
            None => {
                self.cols.push((pos, col));
                proof {
                    assert(self.cols@ =~= prev.cols@.push((pos, col)));
                    let n = prev.cols@.len() as int;
                    assert forall|i: int, j: int| 0 <= i < j < self.cols@.len()
                        implies self.cols@[i].0 != self.cols@[j].0 by {
                        if j == n {
                            assert(self.cols@[i] == prev.cols@[i]);
                            assert(!prev.has_col(pos));
                        }
                    }
                    assert forall|k: int| 0 <= k < self.cols@.len()
                        implies (#[trigger] self.cols@[k].1).wf() by {
                        if k != n {
                            assert(self.cols@[k] == prev.cols@[k]);
                        }
                    }
                    assert(self.cols@[n].0 == pos);
                    self.lemma_at_index(pos, n);
                    assert forall|p: ColPos| p != pos && prev.has_col(p)
                        implies final(self).has_col(p)
                            && final(self).col_at(p) == prev.col_at(p) by {
                        let j = choose|j: int|
                            0 <= j < prev.cols@.len() && (#[trigger] prev.cols@[j].0) == p;
                        assert(self.cols@[j].0 == p);
                        self.lemma_at_index(p, j);
                        prev.lemma_at_index(p, j);
                    }
                    assert forall|p: ColPos| p != pos && final(self).has_col(p)
                        implies prev.has_col(p) by {
                        let j = choose|j: int|
                            0 <= j < self.cols@.len() && (#[trigger] self.cols@[j].0) == p;
                        assert(j != n);
                        assert(prev.cols@[j].0 == p);
                    }
                }
            },
        }
    }

    /// Evicts a column, returning it; a coordinate that was never resident
    /// is a no-op. Every other column is unchanged.
    pub fn remove_col(&mut self, pos: ColPos) -> (r: Option<Col>)
        requires
            old(self).wf(),
        ensures
            final(self).wf(),
            !final(self).has_col(pos),
            r is Some == old(self).has_col(pos),
            r is Some ==> r->0 == old(self).col_at(pos),
            forall|p: ColPos| #![trigger final(self).has_col(p)]
                p != pos ==> final(self).has_col(p) == old(self).has_col(p),
            forall|p: ColPos| #![trigger final(self).col_at(p)]
                p != pos && old(self).has_col(p)
                ==> final(self).col_at(p) == old(self).col_at(p),
    {
        let found = self.find(pos);
        let ghost prev: Blocks = *self;
        match found {
            Some(i) => {
                let entry = self.cols.swap_remove(i);
                proof {
                    let n = self.cols@.len() as int;
                    prev.lemma_at_index(pos, i as int);
                    assert(entry == prev.cols@[i as int]);
                    assert forall|k: int| 0 <= k < n
                        implies #[trigger] self.cols@[k] == (if k == i && k < n {
                            prev.cols@[n]
                        } else {
                            prev.cols@[k]
                        }) && self.cols@[k].0 != pos by {
                        if k == i as int {
                            if i as int != n {
                                assert(self.cols@[k] == prev.cols@[n]);
                                assert(prev.cols@[n].0 != prev.cols@[i as int].0);
                            }
                        } else {
                            assert(self.cols@[k] == prev.cols@[k]);
                            assert(prev.cols@[k].0 != prev.cols@[i as int].0);
                        }
                    }
                    assert forall|a: int, b: int| 0 <= a < b < n
                        implies self.cols@[a].0 != self.cols@[b].0 by {
                        assert(self.cols@[a] == (if a == i { prev.cols@[n] } else { prev.cols@[a] }));
                        assert(self.cols@[b] == (if b == i { prev.cols@[n] } else { prev.cols@[b] }));
                    }
                    assert(!final(self).has_col(pos));
                    assert forall|p: ColPos| p != pos && prev.has_col(p)
                        implies final(self).has_col(p)
                            && final(self).col_at(p) == prev.col_at(p) by {
                        let j = choose|j: int|
                            0 <= j < prev.cols@.len() && (#[trigger] prev.cols@[j].0) == p;
                        let k: int = if j == n { i as int } else { j };
                        assert(k < n) by {
                            if j == n && i as int == n {
                                assert(prev.cols@[j].0 == pos);
                            }
                        };
                        assert(self.cols@[k].0 == p);
                        self.lemma_at_index(p, k);
                        prev.lemma_at_index(p, j);
                        assert(self.cols@[k].1 == prev.cols@[j].1);
                    }
                    assert forall|p: ColPos| p != pos && final(self).has_col(p)
                        implies prev.has_col(p) by {
                        let j = choose|j: int|
                            0 <= j < self.cols@.len() && (#[trigger] self.cols@[j].0) == p;
                        assert(self.cols@[j] == (if j == i { prev.cols@[n] } else { prev.cols@[j] }));
                    }
                }
                Some(entry.1)
            },
            None => None,
        }
    }

    /// The block at a global position; `Air` outside the world height or
    /// where no column is resident.
    pub fn get_block(&self, pos: BlockPos) -> (r: Block)
        requires
            self.wf(),
        ensures
            r == self.block_at(pos),
    {
        if pos.y < 0 || pos.y >= MAX_HEIGHT as i32 {
            return Block::Air;
        }
        let (cx, dx) = chunked(pos.x);
        let (cz, dz) = chunked(pos.z);
        proof {
            crate::pos::lemma_chunk_offset_in_range(pos.x as int);
            crate::pos::lemma_chunk_offset_in_range(pos.z as int);
        }
        match self.get_col(ColPos { realm: pos.realm, x: cx, z: cz }) {
            None => Block::Air,
            Some(col) => col.get((dx, pos.y, dz)),
        }
    }

    /// Writes a block at a global position, lazily creating the column;
    /// every other position of the world is unchanged.
    pub fn set_block(&mut self, pos: BlockPos, block: Block)
        requires
            old(self).wf(),
            valid_block_y(pos.y as int),
        ensures
            final(self).wf(),
            final(self).block_at(pos) == block,
            final(self).has_col(spec_col_of(pos)),
            forall|p: BlockPos| #![trigger final(self).block_at(p)]
                p != pos ==> final(self).block_at(p) == old(self).block_at(p),
            forall|p: ColPos| #![trigger final(self).has_col(p)]
                p != spec_col_of(pos) ==> final(self).has_col(p) == old(self).has_col(p),
    {
        let (cx, dx) = chunked(pos.x);
        let (cz, dz) = chunked(pos.z);
        proof {
            crate::pos::lemma_chunk_offset_in_range(pos.x as int);
            crate::pos::lemma_chunk_offset_in_range(pos.z as int);
        }
        let col_pos = ColPos { realm: pos.realm, x: cx, z: cz };
        let existing = self.remove_col(col_pos);
        let ghost before: Blocks = *old(self);
        let mut col = match existing {
            Some(c) => c,
            None => Col::new(),
        };
        let ghost col_before: Col = col;
        col.set((dx, pos.y, dz), block);
        let ghost col_after: Col = col;
        self.insert_col(col_pos, col);
        proof {
            assert forall|p: BlockPos| p != pos
                implies final(self).block_at(p) == before.block_at(p) by {
                if valid_block_y(p.y as int) {
                    let pc = spec_col_of(p);
                    if pc == col_pos {
                        crate::pos::lemma_chunked_roundtrip(p.x as int);
                        crate::pos::lemma_chunked_roundtrip(p.z as int);
                        crate::pos::lemma_chunked_roundtrip(pos.x as int);
                        crate::pos::lemma_chunked_roundtrip(pos.z as int);
                        crate::pos::lemma_chunk_offset_in_range(p.x as int);
                        crate::pos::lemma_chunk_offset_in_range(p.z as int);
                        assert(!(spec_chunk_offset(p.x as int) == spec_chunk_offset(pos.x as int)
                            && p.y == pos.y
                            && spec_chunk_offset(p.z as int) == spec_chunk_offset(pos.z as int))) by {
                            if spec_chunk_offset(p.x as int) == spec_chunk_offset(pos.x as int)
                                && p.y == pos.y
                                && spec_chunk_offset(p.z as int) == spec_chunk_offset(pos.z as int) {
                                assert(-67108864 <= spec_chunk_index(p.x as int) <= 67108863);
                                assert(-67108864 <= spec_chunk_index(pos.x as int) <= 67108863);
                                assert(-67108864 <= spec_chunk_index(p.z as int) <= 67108863);
                                assert(-67108864 <= spec_chunk_index(pos.z as int) <= 67108863);
                                assert(spec_chunk_index(p.x as int) == cx as int);
                                assert(spec_chunk_index(p.z as int) == cz as int);
                                assert(spec_chunk_index(pos.x as int) == cx as int);
                                assert(spec_chunk_index(pos.z as int) == cz as int);
                                assert(p.x == pos.x && p.z == pos.z && p.realm == pos.realm);
                                assert(p == pos);
                            }
                        };
                        assert(col_after.cell(
                            spec_chunk_offset(p.x as int),
                            p.y as int,
                            spec_chunk_offset(p.z as int),
                        ) == col_before.cell(
                            spec_chunk_offset(p.x as int),
                            p.y as int,
                            spec_chunk_offset(p.z as int),
                        ));
                    }
                }
            }
        }
    }

    /// The highest non-`Air` block of a column together with its height;
    /// `(Bedrock, 0)` for an entirely empty or missing column.
    pub fn top_block(&self, pos: BlockPos2d) -> (r: (Block, i32))
        requires
            self.wf(),
        ensures
            0 <= r.1 < MAX_HEIGHT,
            (forall|y: int| 0 <= y < MAX_HEIGHT
                ==> self.block_at(block_pos_2d_at(pos, y)) == Block::Air)
                ==> r == (Block::Bedrock, 0i32),
            (exists|y: int| 0 <= y < MAX_HEIGHT
                && self.block_at(block_pos_2d_at(pos, y)) != Block::Air)
                ==> {
                    &&& r.0 == self.block_at(block_pos_2d_at(pos, r.1 as int))
                    &&& r.0 != Block::Air
                    &&& forall|y: int| r.1 < y < MAX_HEIGHT
                        ==> self.block_at(block_pos_2d_at(pos, y)) == Block::Air
                },
    {
        let (cx, dx) = chunked(pos.x);
        let (cz, dz) = chunked(pos.z);
        proof {
            crate::pos::lemma_chunk_offset_in_range(pos.x as int);
            crate::pos::lemma_chunk_offset_in_range(pos.z as int);
        }
        match self.get_col(ColPos { realm: pos.realm, x: cx, z: cz }) {
            None => (Block::Bedrock, 0),
            Some(col) => col.top((dx, dz)),
        }
    }
}

/// The global position at height `y` above a horizontal position.
pub open spec fn block_pos_2d_at(pos: BlockPos2d, y: int) -> BlockPos {
    BlockPos { realm: pos.realm, x: pos.x, y: y as i32, z: pos.z }
}

} // verus!
