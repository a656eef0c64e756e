//! Arcs that close into full circles, and the glued points that follow a
//! dragged arc.

use vstd::prelude::*;
use crate::arena::Slot;
use crate::constraints::{Constraint, ConstraintKind};
use crate::document::{Document, PointPos, Segment, SegmentKind};
use crate::editor::Editor;
use crate::ids::{PointId, SegmentId};

verus! {

/// `c` glues the two endpoints of `s` together.
pub open spec fn closes(c: Constraint, s: Segment) -> bool {
    &&& c.kind == ConstraintKind::Coincident
    &&& (c.a == s.start && c.b == s.end) || (c.a == s.end && c.b == s.start)
}

/// A live segment whose endpoints some coincident constraint glues.
pub open spec fn closed_circle(doc: Document, sid: SegmentId) -> bool {
    match doc.sg(sid) {
        Some(s) => exists|i: int| 0 <= i < doc.constraints@.len() && closes(#[trigger] doc.constraints@[i], s),
        None => false,
    }
}

/// Whether the arc is a full circle: its start and end share a coincident
/// constraint. A stale id is not.
pub fn is_complete(doc: &Document, sid: SegmentId) -> (r: bool)
    ensures
        r == closed_circle(*doc, sid),
{
    let seg = match doc.segment(sid) {
        Some(s) => s,
        None => return false,
    };
    let mut i: usize = 0;
    while i < doc.constraints.len()
        invariant
            i <= doc.constraints@.len(),
            doc.sg(sid) == Some(seg),
            forall|j: int| 0 <= j < i ==> !closes(#[trigger] doc.constraints@[j], seg),
        decreases doc.constraints@.len() - i,
    {
        let c = doc.constraints[i];
        if c.kind == ConstraintKind::Coincident && ((c.a == seg.start && c.b == seg.end) || (c.a == seg.end
            && c.b == seg.start)) {
            assert(closes(doc.constraints@[i as int], seg));
            return true;
        }
        i = i + 1;
    }
    false
}

// ---- joints that follow a dragged arc ----

/// `p` defines a live arc (as its start, end or control point) one of
/// whose defining points was dragged.
pub open spec fn on_dragged_arc(doc: Document, dragged: Seq<PointId>, p: PointId) -> bool {
    exists|sid: SegmentId| #[trigger] arc_defs(doc, sid, dragged, p)
}

/// `sid` is a live arc with a control point, one of start, end and control
/// is in `dragged`, and `p` is one of them.
pub open spec fn arc_defs(doc: Document, sid: SegmentId, dragged: Seq<PointId>, p: PointId) -> bool {
    match doc.sg(sid) {
        Some(s) => match s.ctrl {
            Some(c) => {
                &&& s.kind == SegmentKind::Arc
                &&& dragged.contains(s.start) || dragged.contains(s.end) || dragged.contains(c)
                &&& p == s.start || p == s.end || p == c
            },
            None => false,
        },
        None => false,
    }
}

/// What the id resolves to among `slots`.
pub open spec fn slot_value(slots: Seq<Slot<PointPos>>, id: PointId) -> Option<PointPos> {
    if (id.idx as int) < slots.len() && slots[id.idx as int].generation == id.generation {
        slots[id.idx as int].value
    } else {
        None
    }
}

/// One constraint's effect: a plain coincident constraint with a point on
/// a dragged arc moves its other point onto that point, when both are live.
pub open spec fn joint_step(doc: Document, dragged: Seq<PointId>, slots: Seq<Slot<PointPos>>, c: Constraint) -> Seq<Slot<PointPos>> {
    if c.kind == ConstraintKind::Coincident && c.point_on_segment is None {
        let arc_point = if on_dragged_arc(doc, dragged, c.a) {
            Some(c.a)
        } else if on_dragged_arc(doc, dragged, c.b) {
            Some(c.b)
        } else {
            None
        };
        match arc_point {
            Some(ap) => {
                let other = if ap == c.a { c.b } else { c.a };
                match slot_value(slots, ap) {
                    Some(pos) => if slot_value(slots, other) is Some {
                        slots.update(other.idx as int, Slot { generation: other.generation, value: Some(pos) })
                    } else {
                        slots
                    },
                    None => slots,
                }
            },
            None => slots,
        }
    } else {
        slots
    }
}

/// The point slots after the constraints `cs`, in order, have each taken
/// their step.
pub open spec fn joints_applied(doc: Document, dragged: Seq<PointId>, cs: Seq<Constraint>) -> Seq<Slot<PointPos>>
    decreases cs.len(),
{
    if cs.len() == 0 {
        doc.points.slots@
    } else {
        joint_step(doc, dragged, joints_applied(doc, dragged, cs.drop_last()), cs.last())
    }
}

fn slice_has(v: &[PointId], p: PointId) -> (r: bool)
    ensures
        r == v@.contains(p),
{
    let mut i: usize = 0;
    while i < v.len()
        invariant
            i <= v@.len(),
            forall|j: int| 0 <= j < i ==> v@[j] != p,
        decreases v@.len() - i,
    {
        if v[i] == p {
            return true;
        }
        i = i + 1;
    }
    false
}

/// `p` is one of the three points of `t`.
pub open spec fn arc_has(t: (PointId, PointId, PointId), p: PointId) -> bool {
    t.0 == p || t.1 == p || t.2 == p
}

/// Whether `p` is one of the listed arcs' defining points.
fn arcs_hold(arcs: &Vec<(PointId, PointId, PointId)>, p: PointId) -> (r: bool)
    ensures
        r == exists|j: int| 0 <= j < arcs@.len() && #[trigger] arc_has(arcs@[j], p),
{
    let mut i: usize = 0;
    while i < arcs.len()
        invariant
            i <= arcs@.len(),
            forall|j: int| 0 <= j < i ==> !#[trigger] arc_has(arcs@[j], p),
        decreases arcs@.len() - i,
    {
        let t = arcs[i];
        if t.0 == p || t.1 == p || t.2 == p {
            assert(arc_has(arcs@[i as int], p));
            return true;
        }
        i = i + 1;
    }
    false
}

impl Editor {
    /// After a drag, pulls each point glued (by a plain coincident
    /// constraint) to a point of a dragged arc onto that arc point, going
    /// through the constraints in order.
    pub fn enforce_arc_coincident_joints(&mut self, dragged: &[PointId])
        requires
            old(self).wf(),
        ensures
            final(self).doc.points.slots@ == joints_applied(old(self).doc, dragged@, old(self).doc.constraints@),
            final(self).doc.points.free@ == old(self).doc.points.free@,
            final(self).doc.segments == old(self).doc.segments,
            final(self).doc.fills == old(self).doc.fills,
            final(self).doc.paths == old(self).doc.paths,
            final(self).doc.layers == old(self).doc.layers,
            final(self).doc.same_records(&old(self).doc),
            Editor::doc_only(*old(self), *final(self)),
            final(self).wf(),
    {
        let ghost d0 = self.doc;
        let segs = self.doc.all_segments();
        let mut arcs: Vec<(PointId, PointId, PointId)> = Vec::new();
        let mut j: usize = 0;
        while j < segs.len()
            invariant
                j <= segs@.len(),
                self.doc == d0,
                forall|k: int| 0 <= k < segs@.len() ==> d0.sg((#[trigger] segs@[k]).0) == Some(segs@[k].1),
                forall|p: PointId| (exists|a: int| 0 <= a < arcs@.len() && #[trigger] arc_has(arcs@[a], p))
                    ==> on_dragged_arc(d0, dragged@, p),
                forall|k: int, p: PointId| 0 <= k < j && #[trigger] arc_defs(d0, segs@[k].0, dragged@, p)
                    ==> exists|a: int| 0 <= a < arcs@.len() && #[trigger] arc_has(arcs@[a], p),
            decreases segs@.len() - j,
        {
            let (sid, s) = segs[j];
            if s.kind == SegmentKind::Arc {
                if let Some(ctrl) = s.ctrl {
                    if slice_has(dragged, s.start) || slice_has(dragged, s.end) || slice_has(dragged, ctrl) {
                        let ghost before = arcs@;
                        arcs.push((s.start, s.end, ctrl));
                        proof {
                            let n = before.len() as int;
                            assert(arcs@[n] == (s.start, s.end, ctrl));
                            assert forall|p: PointId| (exists|a: int| 0 <= a < arcs@.len() && #[trigger] arc_has(arcs@[a], p))
                                implies on_dragged_arc(d0, dragged@, p) by {
                                let a = choose|a: int| 0 <= a < arcs@.len() && #[trigger] arc_has(arcs@[a], p);
                                if a < n {
                                    assert(before[a] == arcs@[a]);
                                } else {
                                    assert(arc_defs(d0, sid, dragged@, p));
                                }
                            }
                            assert forall|k: int, p: PointId| 0 <= k < j + 1 && #[trigger] arc_defs(d0, segs@[k].0, dragged@, p)
                                implies exists|a: int| 0 <= a < arcs@.len() && #[trigger] arc_has(arcs@[a], p) by {
                                if k < j {
                                    let a = choose|a: int| 0 <= a < before.len() && #[trigger] arc_has(before[a], p);
                                    assert(arcs@[a] == before[a]);
                                } else {
                                    assert(arc_has(arcs@[n], p));
                                }
                            }
                        }
                    }
                }
            }
            j = j + 1;
        }
        proof {
            assert forall|p: PointId| on_dragged_arc(d0, dragged@, p)
                implies exists|a: int| 0 <= a < arcs@.len() && #[trigger] arc_has(arcs@[a], p) by {
                let sid = choose|sid: SegmentId| #[trigger] arc_defs(d0, sid, dragged@, p);
                assert(d0.sg(sid) is Some);
                let k = choose|k: int| 0 <= k < segs@.len() && (#[trigger] segs@[k]).0 == sid;
                assert(arc_defs(d0, segs@[k].0, dragged@, p));
            }
        }
        if arcs.len() == 0 {
            proof {
                lemma_no_arcs_no_moves(d0, dragged@, d0.constraints@);
            }
            return;
        }
        let mut k: usize = 0;
        while k < self.doc.constraints.len()
            invariant
                k <= d0.constraints@.len(),
                self.doc.points.slots@ == joints_applied(d0, dragged@, d0.constraints@.take(k as int)),
                self.doc.points.free@ == d0.points.free@,
                self.doc.segments == d0.segments,
                self.doc.fills == d0.fills,
                self.doc.paths == d0.paths,
                self.doc.layers == d0.layers,
                self.doc.same_records(&d0),
                Editor::doc_only(*old(self), *self),
                old(self).doc == d0,
                old(self).wf(),
                self.wf(),
                forall|p: PointId| on_dragged_arc(d0, dragged@, p)
                    <==> exists|a: int| 0 <= a < arcs@.len() && #[trigger] arc_has(arcs@[a], p),
            decreases d0.constraints@.len() - k,
        {
            proof {
                assert(d0.constraints@.take(k + 1).drop_last() =~= d0.constraints@.take(k as int));
            }
            let c = self.doc.constraints[k];
            if c.kind == ConstraintKind::Coincident && c.point_on_segment.is_none() {
                let arc_point = if arcs_hold(&arcs, c.a) {
                    Some(c.a)
                } else if arcs_hold(&arcs, c.b) {
                    Some(c.b)
                } else {
                    None
                };
                if let Some(ap) = arc_point {
                    let other = if ap == c.a { c.b } else { c.a };
                    if let Some(pos) = self.doc.point(ap) {
                        if self.doc.point(other).is_some() {
                            self.doc.move_point(other, pos);
                        }
                    }
                }
            }
            k = k + 1;
        }
        proof {
            assert(d0.constraints@.take(k as int) =~= d0.constraints@);
        }
    }
}

proof fn lemma_no_arcs_no_moves(doc: Document, dragged: Seq<PointId>, cs: Seq<Constraint>)
    requires
        forall|p: PointId| !on_dragged_arc(doc, dragged, p),
    ensures
        joints_applied(doc, dragged, cs) == doc.points.slots@,
    decreases cs.len(),
{
    if cs.len() > 0 {
        lemma_no_arcs_no_moves(doc, dragged, cs.drop_last());
    }
}

} // verus!
