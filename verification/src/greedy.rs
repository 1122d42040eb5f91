//! Greedy rectangle merging over one face mask. A mask holds, for one layer
//! of the padded buffer and one face direction, the block of every visible
//! face (`Air` marking "no face here"). Merging walks the mask in row-major
//! order and grows each unvisited visible cell into a maximal-width,
//! then maximal-height rectangle of the same block, so that a uniform face
//! collapses into a single quad. The result covers every visible cell
//! exactly once, and covers nothing else.

use vstd::prelude::*;
use vstd::arithmetic::div_mod::lemma_fundamental_div_mod_converse;
use crate::block::Block;

verus! {

/// An axis-aligned rectangle of same-block visible faces within one mask.
#[derive(Clone, Copy, PartialEq, Eq, Structural, Debug)]
pub struct MaskQuad {
    pub u: usize,
    pub v: usize,
    pub w: usize,
    pub h: usize,
    pub block: Block,
}

/// A well-formed quad: non-empty, inside the mask, never `Air`.
pub open spec fn quad_wf(q: MaskQuad, side: int) -> bool {
    &&& 1 <= q.w
    &&& 1 <= q.h
    &&& q.u + q.w <= side
    &&& q.v + q.h <= side
    &&& q.block != Block::Air
}

/// Whether a quad covers the mask cell `(u, v)`.
pub open spec fn covers(q: MaskQuad, u: int, v: int) -> bool {
    q.u <= u < q.u + q.w && q.v <= v < q.v + q.h
}

/// Row-major mask cells decompose uniquely.
proof fn lemma_cell_inj(side: int, u1: int, v1: int, u2: int, v2: int)
    requires
        0 <= u1 < side,
        0 <= u2 < side,
        0 <= v1,
        0 <= v2,
        v1 * side + u1 == v2 * side + u2,
    ensures
        u1 == u2 && v1 == v2,
{
    lemma_fundamental_div_mod_converse(v1 * side + u1, side, v1, u1);
    lemma_fundamental_div_mod_converse(v2 * side + u2, side, v2, u2);
}

/// A mask cell's row-major index lies inside the mask.
proof fn lemma_cell_in_range(side: int, u: int, v: int)
    requires
        0 <= u < side,
        0 <= v < side,
    ensures
        0 <= v * side + u < side * side,
        v * side + u < 1089 || side > 33,
    decreases side,
{
    assert(v * side + u < side * side) by (nonlinear_arith)
        requires 0 <= u < side, 0 <= v < side;
    if side <= 33 {
        assert(side * side <= 1089) by (nonlinear_arith)
            requires 0 < side <= 33;
    }
}

/// Marks every cell of a rectangle as visited, leaving the rest alone.
#[verifier::loop_isolation(false)]
fn mark_rect(visited: &mut Vec<bool>, side: usize, u: usize, v: usize, w: usize, h: usize)
    requires
        1 <= side <= 32,
        old(visited)@.len() == side * side,
        u + w <= side,
        v + h <= side,
    ensures
        final(visited)@.len() == side * side,
        forall|u2: int, v2: int| #![trigger final(visited)@[v2 * side + u2]]
            0 <= u2 < side && 0 <= v2 < side
            ==> final(visited)@[v2 * side + u2] ==
                (old(visited)@[v2 * side + u2]
                    || (u <= u2 < u + w && v <= v2 < v + h)),
{
    let ghost orig: Seq<bool> = visited@;
    let mut dv: usize = 0;
    while dv < h
        invariant
            visited@.len() == side * side,
            dv <= h,
            forall|u2: int, v2: int| #![trigger visited@[v2 * side + u2]]
                0 <= u2 < side && 0 <= v2 < side
                ==> visited@[v2 * side + u2] ==
                    (orig[v2 * side + u2]
                        || (u <= u2 < u + w && v <= v2 < v + dv)),
        decreases h - dv,
    {
        let mut du: usize = 0;
        while du < w
            invariant
                visited@.len() == side * side,
                dv < h,
                du <= w,
                forall|u2: int, v2: int| #![trigger visited@[v2 * side + u2]]
                    0 <= u2 < side && 0 <= v2 < side
                    ==> visited@[v2 * side + u2] ==
                        (orig[v2 * side + u2]
                            || (u <= u2 < u + w && v <= v2 < v + dv)
                            || (u <= u2 < u + du && v2 == v + dv)),
            decreases w - du,
        {
            proof {
                lemma_cell_in_range(side as int, (u + du) as int, (v + dv) as int);
            }
            let ghost before: Seq<bool> = visited@;
            let i = (v + dv) * side + (u + du);
            visited[i] = true;
            proof {
                assert forall|u2: int, v2: int| #![trigger visited@[v2 * side + u2]]
                    0 <= u2 < side && 0 <= v2 < side
                    implies visited@[v2 * side + u2] ==
                        (orig[v2 * side + u2]
                            || (u <= u2 < u + w && v <= v2 < v + dv)
                            || (u <= u2 < u + du + 1 && v2 == v + dv)) by {
                    lemma_cell_in_range(side as int, u2, v2);
                    if v2 * side + u2 == i {
                        lemma_cell_inj(side as int, u2, v2, (u + du) as int, (v + dv) as int);
                    } else {
                        assert(visited@[v2 * side + u2] == before[v2 * side + u2]);
                    }
                }
            }
            du += 1;
        }
        dv += 1;
    }
}

/// Greedy merge of one mask into disjoint rectangles.
///
/// Soundness: every covered cell is a visible face of the quad's block.
/// Completeness: every visible face is covered by some quad.
/// Disjointness: no mask cell is covered by two quads.
#[verifier::loop_isolation(false)]
#[verifier::rlimit(100)]
pub fn merge_mask(mask: &Vec<Block>, side: usize) -> (r: Vec<MaskQuad>)
    requires
        1 <= side <= 32,
        mask@.len() == side * side,
    ensures
        forall|k: int| 0 <= k < r@.len() ==> quad_wf(#[trigger] r@[k], side as int),
        forall|k: int, u: int, v: int| #![trigger covers(r@[k], u, v)]
            0 <= k < r@.len() && covers(r@[k], u, v)
            ==> 0 <= u < side && 0 <= v < side && mask@[v * side + u] == r@[k].block,
        forall|u: int, v: int| #![trigger mask@[v * side + u]]
            0 <= u < side && 0 <= v < side && mask@[v * side + u] != Block::Air
            ==> exists|k: int| 0 <= k < r@.len() && covers(#[trigger] r@[k], u, v),
        forall|k1: int, k2: int, u: int, v: int|
            #![trigger covers(r@[k1], u, v), covers(r@[k2], u, v)]
            0 <= k1 < k2 < r@.len()
            ==> !(covers(r@[k1], u, v) && covers(r@[k2], u, v)),
{
    proof {
        assert(side * side <= 1024) by (nonlinear_arith)
            requires 1 <= side <= 32;
    }
    let area = side * side;
    let mut visited: Vec<bool> = Vec::new();
    let mut i: usize = 0;
    while i < area
        invariant
            area == side * side,
            i <= area,
            visited@.len() == i,
            forall|j: int| 0 <= j < i ==> !visited@[j],
        decreases area - i,
    {
        visited.push(false);
        i += 1;
    }
    proof {
        assert forall|u2: int, v2: int| #![trigger visited@[v2 * side + u2]]
            0 <= u2 < side && 0 <= v2 < side
            implies !visited@[v2 * side + u2] by {
            lemma_cell_in_range(side as int, u2, v2);
        }
    }
    let mut quads: Vec<MaskQuad> = Vec::new();
    let mut v: usize = 0;
    while v < side
        invariant
            v <= side,
            visited@.len() == side * side,
            // every visited cell is a visible face, covered by exactly one quad
            forall|k: int| 0 <= k < quads@.len() ==> quad_wf(#[trigger] quads@[k], side as int),
            forall|k: int, u2: int, v2: int| #![trigger covers(quads@[k], u2, v2)]
                0 <= k < quads@.len() && covers(quads@[k], u2, v2)
                ==> 0 <= u2 < side && 0 <= v2 < side
                    && mask@[v2 * side + u2] == quads@[k].block
                    && visited@[v2 * side + u2],
            forall|u2: int, v2: int| #![trigger visited@[v2 * side + u2]]
                0 <= u2 < side && 0 <= v2 < side && visited@[v2 * side + u2]
                ==> exists|k: int| 0 <= k < quads@.len() && covers(#[trigger] quads@[k], u2, v2),
            forall|k1: int, k2: int, u2: int, v2: int|
                #![trigger covers(quads@[k1], u2, v2), covers(quads@[k2], u2, v2)]
                0 <= k1 < k2 < quads@.len()
                ==> !(covers(quads@[k1], u2, v2) && covers(quads@[k2], u2, v2)),
            // progress: all visible cells of finished rows are visited
            forall|u2: int, v2: int| #![trigger mask@[v2 * side + u2]]
                0 <= u2 < side && 0 <= v2 < v && mask@[v2 * side + u2] != Block::Air
                ==> visited@[v2 * side + u2],
        decreases side - v,
    {
        let mut u: usize = 0;
        while u < side
            invariant
                v < side,
                u <= side,
                visited@.len() == side * side,
                forall|k: int| 0 <= k < quads@.len() ==> quad_wf(#[trigger] quads@[k], side as int),
                forall|k: int, u2: int, v2: int| #![trigger covers(quads@[k], u2, v2)]
                    0 <= k < quads@.len() && covers(quads@[k], u2, v2)
                    ==> 0 <= u2 < side && 0 <= v2 < side
                        && mask@[v2 * side + u2] == quads@[k].block
                        && visited@[v2 * side + u2],
                forall|u2: int, v2: int| #![trigger visited@[v2 * side + u2]]
                    0 <= u2 < side && 0 <= v2 < side && visited@[v2 * side + u2]
                    ==> exists|k: int| 0 <= k < quads@.len() && covers(#[trigger] quads@[k], u2, v2),
                forall|k1: int, k2: int, u2: int, v2: int|
                    #![trigger covers(quads@[k1], u2, v2), covers(quads@[k2], u2, v2)]
                    0 <= k1 < k2 < quads@.len()
                    ==> !(covers(quads@[k1], u2, v2) && covers(quads@[k2], u2, v2)),
                forall|u2: int, v2: int| #![trigger mask@[v2 * side + u2]]
                    0 <= u2 < side
                    && (0 <= v2 < v || (v2 == v && 0 <= u2 < u))
                    && mask@[v2 * side + u2] != Block::Air
                    ==> visited@[v2 * side + u2],
            decreases side - u,
        {
            proof {
                lemma_cell_in_range(side as int, u as int, v as int);
            }
            let i0 = v * side + u;
            if !visited[i0] && mask[i0] != Block::Air {
                let b = mask[i0];
                // grow the rectangle to the right while the block matches
                let mut w: usize = 1;
                loop
                    invariant
                        v < side,
                        u < side,
                        1 <= w,
                        u + w <= side,
                        visited@.len() == side * side,
                        forall|du: int| #![trigger mask@[v * side + u + du]]
                            0 <= du < w
                            ==> mask@[v * side + u + du] == b
                                && !visited@[v * side + u + du],
                    decreases side - (u + w),
                {
                    if u + w >= side {
                        break;
                    }
                    proof {
                        lemma_cell_in_range(side as int, (u + w) as int, v as int);
                    }
                    let iw = v * side + (u + w);
                    if visited[iw] || mask[iw] != b {
                        break;
                    }
                    w += 1;
                }
                // grow the rectangle downward while whole rows match
                let mut h: usize = 1;
                loop
                    invariant
                        v < side,
                        u < side,
                        1 <= w,
                        u + w <= side,
                        1 <= h,
                        v + h <= side,
                        visited@.len() == side * side,
                        forall|du: int, dv: int| #![trigger mask@[(v + dv) * side + u + du]]
                            0 <= du < w && 0 <= dv < h
                            ==> mask@[(v + dv) * side + u + du] == b
                                && !visited@[(v + dv) * side + u + du],
                    decreases side - (v + h),
                {
                    if v + h >= side {
                        break;
                    }
                    let mut du: usize = 0;
                    let mut row_ok: bool = true;
                    while du < w
                        invariant
                            v < side,
                            u < side,
                            v + h < side,
                            du <= w,
                            u + w <= side,
                            visited@.len() == side * side,
                            row_ok ==> forall|du2: int| #![trigger mask@[(v + h) * side + u + du2]]
                                0 <= du2 < du
                                ==> mask@[(v + h) * side + u + du2] == b
                                    && !visited@[(v + h) * side + u + du2],
                        decreases w - du,
                    {
                        proof {
                            lemma_cell_in_range(side as int, (u + du) as int, (v + h) as int);
                        }
                        let ir = (v + h) * side + (u + du);
                        if visited[ir] || mask[ir] != b {
                            row_ok = false;
                            break;
                        }
                        du += 1;
                    }
                    if !row_ok || du < w {
                        break;
                    }
                    h += 1;
                }
                // record the rectangle and mark it visited
                proof {
                    assert forall|u2: int, v2: int| #![trigger mask@[v2 * side + u2]]
                        u <= u2 < u + w && v <= v2 < v + h
                        implies mask@[v2 * side + u2] == b
                            && !visited@[v2 * side + u2] by {
                        let du = u2 - u;
                        let dv = v2 - v;
                        assert(mask@[(v + dv) * side + u + du] == b
                            && !visited@[(v + dv) * side + u + du]);
                    }
                }
                let ghost pre_vis: Seq<bool> = visited@;
                let ghost pre_quads: Seq<MaskQuad> = quads@;
                mark_rect(&mut visited, side, u, v, w, h);
                let q = MaskQuad { u, v, w, h, block: b };
                quads.push(q);
                proof {
                    assert(quads@ == pre_quads.push(q));
                    assert forall|k: int, u2: int, v2: int| #![trigger covers(quads@[k], u2, v2)]
                        0 <= k < quads@.len() && covers(quads@[k], u2, v2)
                        implies 0 <= u2 < side && 0 <= v2 < side
                            && mask@[v2 * side + u2] == quads@[k].block
                            && visited@[v2 * side + u2] by {
                        if k < pre_quads.len() {
                            assert(covers(pre_quads[k], u2, v2));
                            lemma_cell_in_range(side as int, u2, v2);
                        } else {
                            assert(quads@[k] == q);
                            lemma_cell_in_range(side as int, u2, v2);
                            assert(mask@[v2 * side + u2] == b);
                        }
                    }
                    assert forall|u2: int, v2: int| #![trigger visited@[v2 * side + u2]]
                        0 <= u2 < side && 0 <= v2 < side && visited@[v2 * side + u2]
                        implies exists|k: int|
                            0 <= k < quads@.len() && covers(#[trigger] quads@[k], u2, v2) by {
                        if pre_vis[v2 * side + u2] {
                            let k0 = choose|k: int|
                                0 <= k < pre_quads.len() && covers(#[trigger] pre_quads[k], u2, v2);
                            assert(covers(quads@[k0], u2, v2));
                        } else {
                            assert(covers(q, u2, v2));
                            assert(covers(quads@[pre_quads.len() as int], u2, v2));
                        }
                    }
                    assert forall|k1: int, k2: int, u2: int, v2: int|
                        #![trigger covers(quads@[k1], u2, v2), covers(quads@[k2], u2, v2)]
                        0 <= k1 < k2 < quads@.len()
                        implies !(covers(quads@[k1], u2, v2) && covers(quads@[k2], u2, v2)) by {
                        if k2 == pre_quads.len() as int {
                            if covers(quads@[k1], u2, v2) && covers(quads@[k2], u2, v2) {
                                assert(covers(pre_quads[k1], u2, v2));
                                assert(pre_vis[v2 * side + u2]);
                                assert(!pre_vis[v2 * side + u2]);
                            }
                        }
                    }
                }
            }
            u += 1;
        }
        v += 1;
    }
    quads
}

} // verus!
