//! Block types and face directions. `Air` is the universal empty sentinel;
//! the tint table is the small fixed content rule applied per emitted face.

use vstd::prelude::*;

verus! {

/// One voxel's type. Equality is structural and O(1).
#[derive(Clone, Copy, PartialEq, Eq, Structural, Debug)]
pub enum Block {
    Air,
    Bedrock,
    Stone,
    Dirt,
    GrassBlock,
    SequoiaLog,
    SequoiaLeaves,
    SpruceLeaves,
}

/// Direction of a unit cube face.
#[derive(Clone, Copy, PartialEq, Eq, Structural, Debug)]
pub enum Face {
    Left,
    Right,
    Down,
    Up,
    Front,
    Back,
}

/// Vertex tint applied to a face; a content policy, kept symbolic so the
/// renderer can map it to whatever color space it uses.
#[derive(Clone, Copy, PartialEq, Eq, Structural, Debug)]
pub enum Tint {
    White,
    GrassTop,
    Leaves,
}

pub open spec fn spec_is_leaves(b: Block) -> bool {
    b == Block::SequoiaLeaves || b == Block::SpruceLeaves
}

/// The fixed tint rule: grass tops and leaf blocks get distinct tints,
/// everything else is untinted white.
pub open spec fn spec_tint(b: Block, face: Face) -> Tint {
    if b == Block::GrassBlock && face == Face::Up {
        Tint::GrassTop
    } else if spec_is_leaves(b) {
        Tint::Leaves
    } else {
        Tint::White
    }
}

impl Block {
    /// Whether this block is a leaf block.
    pub fn is_leaves(self) -> (r: bool)
        ensures
            r == spec_is_leaves(self),
    {
        self == Block::SequoiaLeaves || self == Block::SpruceLeaves
    }
}

/// Tint of a face, following the fixed rule table.
pub fn face_tint(b: Block, face: Face) -> (r: Tint)
    ensures
        r == spec_tint(b, face),
{
    if b == Block::GrassBlock && face == Face::Up {
        Tint::GrassTop
    } else if b.is_leaves() {
        Tint::Leaves
    } else {
        Tint::White
    }
}

} // verus!
