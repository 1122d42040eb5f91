//! Streaming controller: a `LoadArea` is the set of column coordinates
//! within a render-distance window around an observer; recomputing it after
//! a move yields disjoint batches of load and unload orders. `LoadOrders`
//! keeps the pending batches with at most one order per coordinate and never
//! holds a coordinate as both pending-load and pending-unload: load intent
//! takes precedence.

use vstd::prelude::*;
use crate::pos::ColPos;

verus! {

/// Whether a sequence of column coordinates holds one.
pub open spec fn seq_has(s: Seq<ColPos>, p: ColPos) -> bool {
    exists|i: int| 0 <= i < s.len() && s[i] == p
}

/// No coordinate appears twice.
pub open spec fn distinct(s: Seq<ColPos>) -> bool {
    forall|i: int, j: int| 0 <= i < j < s.len() ==> s[i] != s[j]
}

/// An observer-centered square of resident column coordinates.
pub struct LoadArea {
    pub center: ColPos,
    pub render_distance: u32,
}

/// Whether a column lies in an area: same realm, within the render distance
/// on both axes (Chebyshev metric).
pub open spec fn in_area(a: LoadArea, p: ColPos) -> bool {
    &&& p.realm == a.center.realm
    &&& -(a.render_distance as int) <= p.x - a.center.x <= a.render_distance as int
    &&& -(a.render_distance as int) <= p.z - a.center.z <= a.render_distance as int
}

/// Coordinate bounds under which area enumeration cannot overflow.
pub open spec fn area_bounds(a: LoadArea) -> bool {
    &&& -33554432 <= a.center.x <= 33554432
    &&& -33554432 <= a.center.z <= 33554432
    &&& a.render_distance <= 1024
}

impl LoadArea {
    /// An area around a center.
    pub fn new(center: ColPos, render_distance: u32) -> (r: LoadArea)
        ensures
            r.center == center,
            r.render_distance == render_distance,
    {
        LoadArea { center, render_distance }
    }

    /// Whether a column lies in the area.
    pub fn contains(&self, p: ColPos) -> (r: bool)
        ensures
            r == in_area(*self, p),
    {
        let d = self.render_distance as i64;
        let dx = p.x as i64 - self.center.x as i64;
        let dz = p.z as i64 - self.center.z as i64;
        p.realm == self.center.realm && -d <= dx && dx <= d && -d <= dz && dz <= d
    }

    /// Every column of the area, each exactly once.
    #[verifier::loop_isolation(false)]
    pub fn cols(&self) -> (r: Vec<ColPos>)
        requires
            area_bounds(*self),
        ensures
            forall|p: ColPos| #![trigger seq_has(r@, p)] seq_has(r@, p) == in_area(*self, p),
            distinct(r@),
    {
        let d = self.render_distance as i32;
        let cx = self.center.x;
        let cz = self.center.z;
        let realm = self.center.realm;
        let mut r: Vec<ColPos> = Vec::new();
        let mut dx: i32 = -d;
        while dx <= d
            invariant
                -d <= dx <= d + 1,
                distinct(r@),
                forall|i: int| 0 <= i < r@.len()
                    ==> in_area(*self, #[trigger] r@[i]) && r@[i].x - cx < dx,
                forall|p: ColPos| #![trigger in_area(*self, p)]
                    (in_area(*self, p) && p.x - cx < dx) ==> seq_has(r@, p),
            decreases d + 1 - dx,
        {
            let mut dz: i32 = -d;
            while dz <= d
                invariant
                    -d <= dx <= d,
                    -d <= dz <= d + 1,
                    distinct(r@),
                    forall|i: int| 0 <= i < r@.len()
                        ==> in_area(*self, #[trigger] r@[i])
                            && (r@[i].x - cx < dx || (r@[i].x - cx == dx && r@[i].z - cz < dz)),
                    forall|p: ColPos| #![trigger in_area(*self, p)]
                        (in_area(*self, p)
                            && (p.x - cx < dx || (p.x - cx == dx && p.z - cz < dz)))
                        ==> seq_has(r@, p),
                decreases d + 1 - dz,
            {
                let c = ColPos { realm, x: cx + dx, z: cz + dz };
                let ghost pre: Seq<ColPos> = r@;
                r.push(c);
                proof {
                    assert(r@[pre.len() as int] == c);
                    assert forall|p: ColPos| #![trigger in_area(*self, p)]
                        (in_area(*self, p)
                            && (p.x - cx < dx || (p.x - cx == dx && p.z - cz < dz + 1)))
                        implies seq_has(r@, p) by {
                        if p == c {
                            assert(r@[pre.len() as int] == p);
                        } else {
                            assert(seq_has(pre, p));
                            let i = choose|i: int| 0 <= i < pre.len() && pre[i] == p;
                            assert(r@[i] == p);
                        }
                    }
                }
                dz += 1;
            }
            dx += 1;
        }
        proof {
            assert forall|p: ColPos| seq_has(r@, p) == in_area(*self, p) by {
                if seq_has(r@, p) {
                    let i = choose|i: int| 0 <= i < r@.len() && r@[i] == p;
                    assert(in_area(*self, r@[i]));
                }
            }
        }
        r
    }
}

/// The load and unload batches that moving from one area to another
/// produces: exactly the newly entered columns, and exactly the newly
/// exited ones. The two batches are disjoint by construction.
#[verifier::loop_isolation(false)]
pub fn area_diff(old_area: &LoadArea, new_area: &LoadArea) -> (r: (Vec<ColPos>, Vec<ColPos>))
    requires
        area_bounds(*old_area),
        area_bounds(*new_area),
    ensures
        forall|p: ColPos| #![trigger seq_has(r.0@, p)]
            seq_has(r.0@, p) == (in_area(*new_area, p) && !in_area(*old_area, p)),
        forall|p: ColPos| #![trigger seq_has(r.1@, p)]
            seq_has(r.1@, p) == (in_area(*old_area, p) && !in_area(*new_area, p)),
        distinct(r.0@),
        distinct(r.1@),
{
    let new_cols = new_area.cols();
    let old_cols = old_area.cols();
    let mut to_load: Vec<ColPos> = Vec::new();
    let mut i: usize = 0;
    while i < new_cols.len()
        invariant
            i <= new_cols@.len(),
            distinct(to_load@),
            forall|p: ColPos| #![trigger seq_has(to_load@, p)]
                seq_has(to_load@, p)
                == (seq_has(new_cols@.subrange(0, i as int), p) && !in_area(*old_area, p)),
        decreases new_cols@.len() - i,
    {
        let c = new_cols[i];
        let ghost pre: Seq<ColPos> = to_load@;
        if !old_area.contains(c) {
            proof {
                if seq_has(pre, c) {
                    let j = choose|j: int| 0 <= j < pre.len() && pre[j] == c;
                    assert(seq_has(new_cols@.subrange(0, i as int), c));
                    let j2 = choose|j2: int|
                        0 <= j2 < i && new_cols@.subrange(0, i as int)[j2] == c;
                    assert(new_cols@[j2] == new_cols@[i as int]);
                }
            }
            to_load.push(c);
            proof {
                assert(to_load@[pre.len() as int] == c);
            }
        }
        proof {
            assert forall|p: ColPos| #![trigger seq_has(to_load@, p)]
                seq_has(to_load@, p)
                == (seq_has(new_cols@.subrange(0, i as int + 1), p)
                    && !in_area(*old_area, p)) by {
                assert(seq_has(pre, p)
                    == (seq_has(new_cols@.subrange(0, i as int), p) && !in_area(*old_area, p)));
                lemma_subrange_step(new_cols@, i as int, p);
                if p != c {
                    assert(seq_has(to_load@, p) == seq_has(pre, p)) by {
                        if seq_has(pre, p) {
                            let j = choose|j: int| 0 <= j < pre.len() && pre[j] == p;
                            assert(to_load@[j] == p);
                        } else if seq_has(to_load@, p) {
                            let j = choose|j: int| 0 <= j < to_load@.len() && to_load@[j] == p;
                            assert(j < pre.len());
                        }
                    }
                } else {
                    if !in_area(*old_area, c) {
                        assert(to_load@[to_load@.len() - 1] == c);
                    }
                }
            }
        }
        i += 1;
    }
    let mut to_unload: Vec<ColPos> = Vec::new();
    let mut i2: usize = 0;
    while i2 < old_cols.len()
        invariant
            i2 <= old_cols@.len(),
            distinct(to_unload@),
            forall|p: ColPos| #![trigger seq_has(to_unload@, p)]
                seq_has(to_unload@, p)
                == (seq_has(old_cols@.subrange(0, i2 as int), p) && !in_area(*new_area, p)),
        decreases old_cols@.len() - i2,
    {
        let c = old_cols[i2];
        let ghost pre: Seq<ColPos> = to_unload@;
        if !new_area.contains(c) {
            proof {
                if seq_has(pre, c) {
                    let j = choose|j: int| 0 <= j < pre.len() && pre[j] == c;
                    assert(seq_has(old_cols@.subrange(0, i2 as int), c));
                    let j2 = choose|j2: int|
                        0 <= j2 < i2 && old_cols@.subrange(0, i2 as int)[j2] == c;
                    assert(old_cols@[j2] == old_cols@[i2 as int]);
                }
            }
            to_unload.push(c);
            proof {
                assert(to_unload@[pre.len() as int] == c);
            }
        }
        proof {
            assert forall|p: ColPos| #![trigger seq_has(to_unload@, p)]
                seq_has(to_unload@, p)
                == (seq_has(old_cols@.subrange(0, i2 as int + 1), p)
                    && !in_area(*new_area, p)) by {
                assert(seq_has(pre, p)
                    == (seq_has(old_cols@.subrange(0, i2 as int), p) && !in_area(*new_area, p)));
                lemma_subrange_step(old_cols@, i2 as int, p);
                if p != c {
                    assert(seq_has(to_unload@, p) == seq_has(pre, p)) by {
                        if seq_has(pre, p) {
                            let j = choose|j: int| 0 <= j < pre.len() && pre[j] == p;
                            assert(to_unload@[j] == p);
                        } else if seq_has(to_unload@, p) {
                            let j = choose|j: int|
                                0 <= j < to_unload@.len() && to_unload@[j] == p;
                            assert(j < pre.len());
                        }
                    }
                } else {
                    if !in_area(*new_area, c) {
                        assert(to_unload@[to_unload@.len() - 1] == c);
                    }
                }
            }
        }
        i2 += 1;
    }
    proof {
        assert forall|p: ColPos|
            seq_has(to_load@, p) == (in_area(*new_area, p) && !in_area(*old_area, p)) by {
            assert(new_cols@.subrange(0, new_cols@.len() as int) =~= new_cols@);
            assert(seq_has(new_cols@, p) == in_area(*new_area, p));
        }
        assert forall|p: ColPos|
            seq_has(to_unload@, p) == (in_area(*old_area, p) && !in_area(*new_area, p)) by {
            assert(old_cols@.subrange(0, old_cols@.len() as int) =~= old_cols@);
            assert(seq_has(old_cols@, p) == in_area(*old_area, p));
        }
    }
    (to_load, to_unload)
}

/// One element extends the seen prefix of an enumeration.
proof fn lemma_subrange_step(s: Seq<ColPos>, i: int, p: ColPos)
    requires
        0 <= i < s.len(),
    ensures
        seq_has(s.subrange(0, i + 1), p) == (seq_has(s.subrange(0, i), p) || s[i] == p),
{
    if seq_has(s.subrange(0, i + 1), p) {
        let j = choose|j: int| 0 <= j < i + 1 && (#[trigger] s.subrange(0, i + 1)[j]) == p;
        if j < i {
            assert(s.subrange(0, i)[j] == p);
        }
    }
    if seq_has(s.subrange(0, i), p) {
        let j = choose|j: int| 0 <= j < i && (#[trigger] s.subrange(0, i)[j]) == p;
        assert(s.subrange(0, i + 1)[j] == p);
    }
    if s[i] == p {
        assert(s.subrange(0, i + 1)[i] == p);
    }
}

/// The load and unload batches of one recompute are disjoint: no coordinate
/// is both newly entered and newly exited.
pub proof fn lemma_diff_disjoint(
    old_area: LoadArea,
    new_area: LoadArea,
    loads: Seq<ColPos>,
    unloads: Seq<ColPos>,
)
    requires
        forall|p: ColPos| seq_has(loads, p) == (in_area(new_area, p) && !in_area(old_area, p)),
        forall|p: ColPos| seq_has(unloads, p) == (in_area(old_area, p) && !in_area(new_area, p)),
    ensures
        forall|p: ColPos| !(seq_has(loads, p) && seq_has(unloads, p)),
{
}

/// Recomputing an unchanged area produces no orders at all.
pub proof fn lemma_diff_idempotent(
    area: LoadArea,
    loads: Seq<ColPos>,
    unloads: Seq<ColPos>,
)
    requires
        forall|p: ColPos| seq_has(loads, p) == (in_area(area, p) && !in_area(area, p)),
        forall|p: ColPos| seq_has(unloads, p) == (in_area(area, p) && !in_area(area, p)),
    ensures
        loads.len() == 0,
        unloads.len() == 0,
{
    if loads.len() > 0 {
        assert(seq_has(loads, loads[0]));
    }
    if unloads.len() > 0 {
        assert(seq_has(unloads, unloads[0]));
    }
}

/// Pending load and unload orders: at most one order per coordinate, and
/// never both kinds for the same coordinate.
pub struct LoadOrders {
    to_load: Vec<ColPos>,
    to_unload: Vec<ColPos>,
}

impl LoadOrders {
    /// Both batches are duplicate-free and share no coordinate.
    pub closed spec fn wf(self) -> bool {
        &&& distinct(self.to_load@)
        &&& distinct(self.to_unload@)
        &&& forall|p: ColPos| !(seq_has(self.to_load@, p) && seq_has(self.to_unload@, p))
    }

    /// Whether a coordinate is pending load.
    pub closed spec fn pending_load(self, p: ColPos) -> bool {
        seq_has(self.to_load@, p)
    }

    /// Whether a coordinate is pending unload.
    pub closed spec fn pending_unload(self, p: ColPos) -> bool {
        seq_has(self.to_unload@, p)
    }

    /// How many unload orders are pending.
    pub closed spec fn unload_count(self) -> nat {
        self.to_unload@.len()
    }

    /// No orders pending.
    pub fn new() -> (r: LoadOrders)
        ensures
            r.wf(),
            forall|p: ColPos| !r.pending_load(p) && !r.pending_unload(p),
    {
        LoadOrders { to_load: Vec::new(), to_unload: Vec::new() }
    }

    /// Whether any load order is pending.
    pub fn has_loads(&self) -> (r: bool)
        ensures
            r == exists|p: ColPos| self.pending_load(p),
    {
        proof {
            if self.to_load@.len() > 0 {
                assert(seq_has(self.to_load@, self.to_load@[0]));
                assert(self.pending_load(self.to_load@[0]));
            } else {
                assert forall|p: ColPos| !self.pending_load(p) by {}
            }
        }
        self.to_load.len() > 0
    }

    /// Requests a load: duplicates of an already-pending load are dropped,
    /// and a pending unload for the coordinate is cancelled (load intent
    /// takes precedence).
    pub fn request_load(&mut self, p: ColPos)
        requires
            old(self).wf(),
        ensures
            final(self).wf(),
            final(self).pending_load(p),
            forall|p2: ColPos| #![trigger final(self).pending_load(p2)]
                p2 != p ==> final(self).pending_load(p2) == old(self).pending_load(p2),
            forall|p2: ColPos| #![trigger final(self).pending_unload(p2)]
                final(self).pending_unload(p2) == (old(self).pending_unload(p2) && p2 != p),
    {
        vec_remove_value(&mut self.to_unload, p);
        if !vec_has_value(&self.to_load, p) {
            let ghost pre: Seq<ColPos> = self.to_load@;
            self.to_load.push(p);
            proof {
                assert(self.to_load@[pre.len() as int] == p);
                assert forall|p2: ColPos| p2 != p
                    implies seq_has(self.to_load@, p2) == seq_has(pre, p2) by {
                    lemma_push_has(pre, p, p2);
                }
            }
        }
    }

    /// Requests an unload. A coordinate still pending load is simply
    /// cancelled instead: its column was never published, so there is
    /// nothing to evict. A stale request for a coordinate already pending
    /// unload is dropped.
    pub fn request_unload(&mut self, p: ColPos)
        requires
            old(self).wf(),
        ensures
            final(self).wf(),
            !final(self).pending_load(p),
            final(self).pending_unload(p) == !old(self).pending_load(p),
            forall|p2: ColPos| #![trigger final(self).pending_load(p2)]
                p2 != p ==> final(self).pending_load(p2) == old(self).pending_load(p2),
            forall|p2: ColPos| #![trigger final(self).pending_unload(p2)]
                p2 != p ==> final(self).pending_unload(p2) == old(self).pending_unload(p2),
    {
        if vec_has_value(&self.to_load, p) {
            vec_remove_value(&mut self.to_load, p);
        } else {
            if !vec_has_value(&self.to_unload, p) {
                let ghost pre: Seq<ColPos> = self.to_unload@;
                self.to_unload.push(p);
                proof {
                    assert(self.to_unload@[pre.len() as int] == p);
                    assert forall|p2: ColPos| p2 != p
                        implies seq_has(self.to_unload@, p2) == seq_has(pre, p2) by {
                        lemma_push_has(pre, p, p2);
                    }
                }
            }
        }
    }

    /// Takes one pending load order, if any.
    pub fn pop_load(&mut self) -> (r: Option<ColPos>)
        requires
            old(self).wf(),
        ensures
            final(self).wf(),
            r is None ==> (forall|p: ColPos| !old(self).pending_load(p))
                && (forall|p2: ColPos| #![trigger final(self).pending_load(p2)]
                    final(self).pending_load(p2) == old(self).pending_load(p2)),
            r is Some ==> old(self).pending_load(r->0)
                && !final(self).pending_load(r->0)
                && (forall|p2: ColPos| #![trigger final(self).pending_load(p2)]
                    p2 != r->0 ==> final(self).pending_load(p2) == old(self).pending_load(p2)),
            forall|p2: ColPos| #![trigger final(self).pending_unload(p2)]
                final(self).pending_unload(p2) == old(self).pending_unload(p2),
    {
        let ghost pre: Seq<ColPos> = self.to_load@;
        let r = self.to_load.pop();
        proof {
            if pre.len() == 0 {
                assert forall|p: ColPos| !seq_has(pre, p) by {}
                assert(self.to_load@ =~= pre);
            } else {
                let last = pre[pre.len() - 1];
                assert(seq_has(pre, last));
                assert(self.to_load@ =~= pre.subrange(0, pre.len() - 1));
                assert forall|p2: ColPos| p2 != last
                    implies seq_has(self.to_load@, p2) == seq_has(pre, p2) by {
                    if seq_has(pre, p2) {
                        let j = choose|j: int| 0 <= j < pre.len() && pre[j] == p2;
                        assert(j < pre.len() - 1);
                        assert(self.to_load@[j] == p2);
                    } else if seq_has(self.to_load@, p2) {
                        let j = choose|j: int|
                            0 <= j < self.to_load@.len() && self.to_load@[j] == p2;
                        assert(pre[j] == p2);
                    }
                }
                assert(!seq_has(self.to_load@, last)) by {
                    if seq_has(self.to_load@, last) {
                        let j = choose|j: int|
                            0 <= j < self.to_load@.len() && self.to_load@[j] == last;
                        assert(pre[j] == last && pre[pre.len() - 1] == last);
                    }
                }
            }
        }
        r
    }

    /// Takes one pending unload order, if any.
    pub fn pop_unload(&mut self) -> (r: Option<ColPos>)
        requires
            old(self).wf(),
        ensures
            final(self).wf(),
            r is None ==> (forall|p: ColPos| !old(self).pending_unload(p))
                && (forall|p2: ColPos| #![trigger final(self).pending_unload(p2)]
                    final(self).pending_unload(p2) == old(self).pending_unload(p2)),
            r is None ==> final(self).unload_count() == old(self).unload_count(),
            r is Some ==> final(self).unload_count() == old(self).unload_count() - 1,
            r is Some ==> old(self).pending_unload(r->0)
                && !final(self).pending_unload(r->0)
                && (forall|p2: ColPos| #![trigger final(self).pending_unload(p2)]
                    p2 != r->0
                    ==> final(self).pending_unload(p2) == old(self).pending_unload(p2)),
            forall|p2: ColPos| #![trigger final(self).pending_load(p2)]
                final(self).pending_load(p2) == old(self).pending_load(p2),
    {
        let ghost pre: Seq<ColPos> = self.to_unload@;
        let r = self.to_unload.pop();
        proof {
            if pre.len() == 0 {
                assert forall|p: ColPos| !seq_has(pre, p) by {}
                assert(self.to_unload@ =~= pre);
            } else {
                let last = pre[pre.len() - 1];
                assert(seq_has(pre, last));
                assert(self.to_unload@ =~= pre.subrange(0, pre.len() - 1));
                assert forall|p2: ColPos| p2 != last
                    implies seq_has(self.to_unload@, p2) == seq_has(pre, p2) by {
                    if seq_has(pre, p2) {
                        let j = choose|j: int| 0 <= j < pre.len() && pre[j] == p2;
                        assert(j < pre.len() - 1);
                        assert(self.to_unload@[j] == p2);
                    } else if seq_has(self.to_unload@, p2) {
                        let j = choose|j: int|
                            0 <= j < self.to_unload@.len() && self.to_unload@[j] == p2;
                        assert(pre[j] == p2);
                    }
                }
                assert(!seq_has(self.to_unload@, last)) by {
                    if seq_has(self.to_unload@, last) {
                        let j = choose|j: int|
                            0 <= j < self.to_unload@.len() && self.to_unload@[j] == last;
                        assert(pre[j] == last && pre[pre.len() - 1] == last);
                    }
                }
            }
        }
        r
    }
}

/// Whether a vector holds a coordinate.
#[verifier::loop_isolation(false)]
fn vec_has_value(v: &Vec<ColPos>, p: ColPos) -> (r: bool)
    ensures
        r == seq_has(v@, p),
{
    let mut i: usize = 0;
    while i < v.len()
        invariant
            i <= v@.len(),
            forall|j: int| 0 <= j < i ==> v@[j] != p,
        decreases v@.len() - i,
    {
        if v[i] == p {
            return true;
        }
        i += 1;
    }
    proof {
        if seq_has(v@, p) {
            let j = choose|j: int| 0 <= j < v@.len() && v@[j] == p;
        }
    }
    false
}

/// Removes a coordinate from a duplicate-free vector, if present.
#[verifier::loop_isolation(false)]
fn vec_remove_value(v: &mut Vec<ColPos>, p: ColPos)
    requires
        distinct(old(v)@),
    ensures
        distinct(final(v)@),
        !seq_has(final(v)@, p),
        forall|p2: ColPos| p2 != p ==> seq_has(final(v)@, p2) == seq_has(old(v)@, p2),
{
    let ghost pre: Seq<ColPos> = v@;
    let mut i: usize = 0;
    while i < v.len()
        invariant
            i <= v@.len(),
            v@ == pre,
            distinct(pre),
            forall|j: int| 0 <= j < i ==> pre[j] != p,
        decreases v@.len() - i,
    {
        if v[i] == p {
            let n = v.len();
            let ghost gi: int = i as int;
            v.swap_remove(i);
            proof {
                let after: Seq<ColPos> = v@;
                assert(after =~= pre.update(gi, pre[pre.len() - 1])
                    .subrange(0, pre.len() - 1));
                assert forall|a: int, b: int| 0 <= a < b < after.len()
                    implies after[a] != after[b] by {
                    assert(after[a] == (if a == gi { pre[pre.len() - 1] } else { pre[a] }));
                    assert(after[b] == (if b == gi { pre[pre.len() - 1] } else { pre[b] }));
                }
                assert(!seq_has(after, p)) by {
                    if seq_has(after, p) {
                        let j = choose|j: int| 0 <= j < after.len() && after[j] == p;
                        assert(after[j] == (if j == gi { pre[pre.len() - 1] } else { pre[j] }));
                        if j == gi {
                            assert(pre[pre.len() - 1] == p && pre[gi] == p);
                        } else {
                            assert(pre[j] == p && pre[gi] == p);
                        }
                    }
                };
                assert forall|p2: ColPos| p2 != p
                    implies seq_has(after, p2) == seq_has(pre, p2) by {
                    if seq_has(pre, p2) {
                        let j = choose|j: int| 0 <= j < pre.len() && pre[j] == p2;
                        if j == pre.len() - 1 {
                            if j != gi {
                                assert(after[gi] == p2);
                            }
                        } else {
                            assert(after[j] == (if j == gi { pre[pre.len() - 1] } else { pre[j] }));
                            if j == gi {
                                assert(pre[gi] == p);
                            } else {
                                assert(after[j] == p2);
                            }
                        }
                    } else if seq_has(after, p2) {
                        let j = choose|j: int| 0 <= j < after.len() && after[j] == p2;
                        assert(after[j] == (if j == gi { pre[pre.len() - 1] } else { pre[j] }));
                    }
                }
            }
            return;
        }
        i += 1;
    }
    proof {
        if seq_has(v@, p) {
            let j = choose|j: int| 0 <= j < v@.len() && v@[j] == p;
        }
    }
}

/// Pushing one coordinate leaves membership of every other one alone.
proof fn lemma_push_has(s: Seq<ColPos>, p: ColPos, p2: ColPos)
    requires
        p2 != p,
    ensures
        seq_has(s.push(p), p2) == seq_has(s, p2),
{
    if seq_has(s, p2) {
        let j = choose|j: int| 0 <= j < s.len() && s[j] == p2;
        assert(s.push(p)[j] == p2);
    } else if seq_has(s.push(p), p2) {
        let j = choose|j: int| 0 <= j < s.push(p).len() && s.push(p)[j] == p2;
        assert(j < s.len());
    }
}

/// Moves an observer's area to a new center and turns the recompute's diff
/// into orders: every newly entered column becomes a pending load, and every
/// newly exited one a pending unload unless its load was still pending (then
/// the load is cancelled instead). Recomputing with an unchanged center
/// changes nothing.
#[verifier::loop_isolation(false)]
pub fn update_load_area(area: &mut LoadArea, orders: &mut LoadOrders, new_center: ColPos)
    requires
        area_bounds(*old(area)),
        area_bounds(LoadArea { center: new_center, render_distance: old(area).render_distance }),
        old(orders).wf(),
    ensures
        final(orders).wf(),
        final(area).center == new_center,
        final(area).render_distance == old(area).render_distance,
        old(area).center == new_center ==> *final(orders) == *old(orders),
        forall|p: ColPos| #![trigger final(orders).pending_load(p)]
            in_area(*final(area), p) && !in_area(*old(area), p)
            ==> final(orders).pending_load(p),
        forall|p: ColPos| #![trigger final(orders).pending_unload(p)]
            in_area(*old(area), p) && !in_area(*final(area), p)
            ==> final(orders).pending_unload(p) || old(orders).pending_load(p),
{
    if area.center == new_center {
        return;
    }
    let old_copy = LoadArea { center: area.center, render_distance: area.render_distance };
    area.center = new_center;
    let (to_load, to_unload) = area_diff(&old_copy, area);
    let mut i: usize = 0;
    while i < to_load.len()
        invariant
            orders.wf(),
            i <= to_load@.len(),
            forall|p: ColPos| #![trigger orders.pending_load(p)]
                seq_has(to_load@.subrange(0, i as int), p) ==> orders.pending_load(p),
            forall|p: ColPos| #![trigger orders.pending_load(p)]
                orders.pending_load(p)
                ==> seq_has(to_load@, p) || old(orders).pending_load(p),
        decreases to_load@.len() - i,
    {
        let c = to_load[i];
        proof {
            assert(to_load@[i as int] == c);
        }
        orders.request_load(c);
        proof {
            assert forall|p: ColPos| seq_has(to_load@.subrange(0, i as int + 1), p)
                implies orders.pending_load(p) by {
                lemma_subrange_step(to_load@, i as int, p);
            }
        }
        i += 1;
    }
    proof {
        assert(to_load@.subrange(0, to_load@.len() as int) =~= to_load@);
    }
    let mut i2: usize = 0;
    while i2 < to_unload.len()
        invariant
            orders.wf(),
            i2 <= to_unload@.len(),
            forall|p: ColPos| #![trigger orders.pending_load(p)]
                seq_has(to_load@, p) ==> orders.pending_load(p),
            forall|p: ColPos| #![trigger orders.pending_unload(p)]
                seq_has(to_unload@.subrange(0, i2 as int), p)
                ==> orders.pending_unload(p) || old(orders).pending_load(p),
            forall|p: ColPos| #![trigger orders.pending_load(p)]
                orders.pending_load(p)
                ==> seq_has(to_load@, p) || old(orders).pending_load(p),
        decreases to_unload@.len() - i2,
    {
        let c = to_unload[i2];
        proof {
            assert(to_unload@[i2 as int] == c);
            assert(seq_has(to_unload@, c));
            assert(!seq_has(to_load@, c));
        }
        let ghost had_load: bool = orders.pending_load(c);
        orders.request_unload(c);
        proof {
            assert forall|p: ColPos| seq_has(to_unload@.subrange(0, i2 as int + 1), p)
                implies orders.pending_unload(p) || old(orders).pending_load(p) by {
                lemma_subrange_step(to_unload@, i2 as int, p);
                if p == c {
                    if !old(orders).pending_load(c) {
                        assert(!had_load);
                        assert(orders.pending_unload(c));
                    }
                }
            }
        }
        i2 += 1;
    }
    proof {
        assert(to_load@.subrange(0, to_load@.len() as int) =~= to_load@);
        assert(to_unload@.subrange(0, to_unload@.len() as int) =~= to_unload@);
    }
}

/// Applies a render-distance change: the area keeps its center, and the
/// recompute's diff becomes orders exactly as for a move. Shrinking the
/// window enqueues unloads for the dropped ring, growing it enqueues loads
/// for the added ring.
#[verifier::loop_isolation(false)]
pub fn on_render_distance_change(
    area: &mut LoadArea,
    orders: &mut LoadOrders,
    new_distance: u32,
)
    requires
        area_bounds(*old(area)),
        new_distance <= 1024,
        old(orders).wf(),
    ensures
        final(orders).wf(),
        final(area).center == old(area).center,
        final(area).render_distance == new_distance,
        forall|p: ColPos| #![trigger final(orders).pending_load(p)]
            in_area(*final(area), p) && !in_area(*old(area), p)
            ==> final(orders).pending_load(p),
        forall|p: ColPos| #![trigger final(orders).pending_unload(p)]
            in_area(*old(area), p) && !in_area(*final(area), p)
            ==> final(orders).pending_unload(p) || old(orders).pending_load(p),
{
    let old_copy = LoadArea { center: area.center, render_distance: area.render_distance };
    area.render_distance = new_distance;
    let (to_load, to_unload) = area_diff(&old_copy, area);
    let mut i: usize = 0;
    while i < to_load.len()
        invariant
            orders.wf(),
            i <= to_load@.len(),
            forall|p: ColPos| #![trigger orders.pending_load(p)]
                seq_has(to_load@.subrange(0, i as int), p) ==> orders.pending_load(p),
            forall|p: ColPos| #![trigger orders.pending_load(p)]
                orders.pending_load(p)
                ==> seq_has(to_load@, p) || old(orders).pending_load(p),
        decreases to_load@.len() - i,
    {
        let c = to_load[i];
        proof {
            assert(to_load@[i as int] == c);
        }
        orders.request_load(c);
        proof {
            assert forall|p: ColPos| seq_has(to_load@.subrange(0, i as int + 1), p)
                implies orders.pending_load(p) by {
                lemma_subrange_step(to_load@, i as int, p);
            }
        }
        i += 1;
    }
    proof {
        assert(to_load@.subrange(0, to_load@.len() as int) =~= to_load@);
    }
    let mut i2: usize = 0;
    while i2 < to_unload.len()
        invariant
            orders.wf(),
            i2 <= to_unload@.len(),
            forall|p: ColPos| #![trigger orders.pending_load(p)]
                seq_has(to_load@, p) ==> orders.pending_load(p),
            forall|p: ColPos| #![trigger orders.pending_unload(p)]
                seq_has(to_unload@.subrange(0, i2 as int), p)
                ==> orders.pending_unload(p) || old(orders).pending_load(p),
            forall|p: ColPos| #![trigger orders.pending_load(p)]
                orders.pending_load(p)
                ==> seq_has(to_load@, p) || old(orders).pending_load(p),
        decreases to_unload@.len() - i2,
    {
        let c = to_unload[i2];
        proof {
            assert(to_unload@[i2 as int] == c);
            assert(seq_has(to_unload@, c));
            assert(!seq_has(to_load@, c));
        }
        orders.request_unload(c);
        proof {
            assert forall|p: ColPos| seq_has(to_unload@.subrange(0, i2 as int + 1), p)
                implies orders.pending_unload(p) || old(orders).pending_load(p) by {
                lemma_subrange_step(to_unload@, i2 as int, p);
            }
        }
        i2 += 1;
    }
    proof {
        assert(to_unload@.subrange(0, to_unload@.len() as int) =~= to_unload@);
    }
}

} // verus!
