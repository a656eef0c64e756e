//! The constraint tools' clicks: each click adds the element under the
//! cursor to the pending picks, and once the picks suffice the step names
//! the constraint to make. Finding the element, and whatever needs
//! coordinates (which axis a line is closer to, where a point lands on an
//! edge, the solve), stay with the caller.

use vstd::prelude::*;
use crate::constraints::{DimTarget, Dimension, Constraint, ElementRef};
use crate::document::{Document, SegmentKind};
use crate::editor::{contains_element, Editor};
use crate::ids::{PointId, SegmentId};

verus! {

/// The constraint tools.
#[derive(Clone, Copy, Debug, PartialEq, Eq, Structural)]
pub enum ConstraintTool {
    HorizontalVertical,
    Coincident,
    Tangent,
    Parallel,
    Perpendicular,
}

/// What the tool has picked so far: elements in click order, and (for the
/// coincident tool) the point nearest the cursor on each new pick.
pub struct ConstraintPicks {
    pub picks: Vec<ElementRef>,
    pub points: Vec<PointId>,
}

/// What a click asks of the caller.
#[derive(Clone, Copy, Debug, PartialEq, Eq, Structural)]
pub enum PickStep {
    /// Nothing to make yet.
    Pending,
    /// Make the line horizontal or vertical through its two ends, by
    /// whichever span is shorter.
    Level { seg: SegmentId, start: PointId, end: PointId },
    /// Put the first picked point on the edge, at the cursor's projection.
    OnEdge { point: PointId, edge: SegmentId },
    /// Make the two picked points coincident.
    Join { a: PointId, b: PointId },
    /// Two picks that name no pair of points: they are dropped.
    Dropped,
    /// Two picks without a leading line: look for a curve-to-curve
    /// tangent; when one is found, make it, select the picks and clear
    /// them.
    CurvePair,
    /// Turn `moving` parallel (or perpendicular) to `foundation` and
    /// record the relation.
    Orient { foundation: SegmentId, moving: SegmentId },
}

/// The first segment among the picks.
pub open spec fn first_segment(s: Seq<ElementRef>) -> Option<SegmentId>
    decreases s.len(),
{
    if s.len() == 0 {
        None
    } else {
        match first_segment(s.drop_last()) {
            Some(sid) => Some(sid),
            None => match s.last() {
                ElementRef::Segment(sid) => Some(sid),
                _ => None,
            },
        }
    }
}

/// Whether segment `sid` is a live straight line of `doc`.
pub open spec fn is_line(doc: Document, sid: SegmentId) -> bool {
    doc.sg(sid) matches Some(s) && s.kind == SegmentKind::Line
}

/// Whether segment `sid` is live and both its ends are.
pub open spec fn ends_live(doc: Document, sid: SegmentId) -> bool {
    doc.sg(sid) matches Some(s) && doc.pt(s.start) is Some && doc.pt(s.end) is Some
}

pub open spec fn touches(pid: PointId) -> spec_fn(Constraint) -> bool {
    |c: Constraint| c.a == pid || c.b == pid
}

/// Whether dimension `d` holds point `pid` in place.
pub open spec fn dim_pins(d: Dimension, pid: PointId) -> bool {
    match d.target {
        DimTarget::Points { a, b, .. } => a == pid || b == pid,
        DimTarget::PointLine { p, .. } => p == pid,
        _ => false,
    }
}

/// A point is anchored when at least two constraints name it or a
/// dimension holds it.
pub open spec fn anchored(doc: Document, pid: PointId) -> bool {
    ||| doc.constraints@.filter(touches(pid)).len() >= 2
    ||| exists|i: int| 0 <= i < doc.dimensions@.len() && dim_pins(#[trigger] doc.dimensions@[i], pid)
}

/// The picks after clicking `hit`: it joins them unless already there.
pub open spec fn picks_after(picks: Seq<ElementRef>, hit: ElementRef) -> Seq<ElementRef> {
    if picks.contains(hit) { picks } else { picks.push(hit) }
}

/// The picked points after clicking `hit` with `near` the point of it
/// nearest the cursor: only the coincident tool records one, on a new pick.
pub open spec fn points_after(tool: ConstraintTool, picks: Seq<ElementRef>, points: Seq<PointId>, hit: ElementRef, near: Option<PointId>) -> Seq<PointId> {
    if !picks.contains(hit) && tool == ConstraintTool::Coincident && near is Some {
        points.push(near.unwrap())
    } else {
        points
    }
}

/// What the picks `p` and picked points `q` (after the click on `hit`) make.
pub open spec fn pick_step(doc: Document, tool: ConstraintTool, hit: ElementRef, p: Seq<ElementRef>, q: Seq<PointId>) -> PickStep {
    match tool {
        ConstraintTool::HorizontalVertical => match hit {
            ElementRef::Segment(sid) => if is_line(doc, sid) && ends_live(doc, sid) {
                PickStep::Level { seg: sid, start: doc.sg(sid).unwrap().start, end: doc.sg(sid).unwrap().end }
            } else {
                PickStep::Pending
            },
            _ => PickStep::Pending,
        },
        ConstraintTool::Coincident => {
            if p.len() == 2 && q.len() >= 1 && hit is Segment && is_line(doc, hit->Segment_0) {
                if ends_live(doc, hit->Segment_0) {
                    PickStep::OnEdge { point: q[0], edge: hit->Segment_0 }
                } else {
                    PickStep::Pending
                }
            } else if p.len() >= 2 {
                if q.len() == 2 {
                    PickStep::Join { a: q[0], b: q[1] }
                } else {
                    PickStep::Dropped
                }
            } else {
                PickStep::Pending
            }
        },
        ConstraintTool::Tangent => {
            let line_first = first_segment(p) matches Some(sid) && is_line(doc, sid);
            if !line_first && p.len() == 2 {
                PickStep::CurvePair
            } else {
                PickStep::Pending
            }
        },
        _ => {
            if p.len() == 2 && p[0] is Segment && p[1] is Segment && doc.sg(p[0]->Segment_0) is Some
                && doc.sg(p[1]->Segment_0) is Some {
                let first = p[0]->Segment_0;
                let second = p[1]->Segment_0;
                let b = doc.sg(second).unwrap();
                if anchored(doc, b.start) && anchored(doc, b.end) {
                    PickStep::Orient { foundation: second, moving: first }
                } else {
                    PickStep::Orient { foundation: first, moving: second }
                }
            } else {
                PickStep::Pending
            }
        },
    }
}

/// Whether `step` ends the pick sequence (the picks are cleared).
pub open spec fn clears_picks(step: PickStep) -> bool {
    step is Level || step is OnEdge || step is Join || step is Dropped || step is Orient
}

/// Whether `step` also clears the picked points.
pub open spec fn clears_points(step: PickStep) -> bool {
    step is OnEdge || step is Join || step is Dropped
}

/// The selection after the click: the picks when they grew or were used
/// up as a set, the leveled line alone, else as it was.
pub open spec fn selection_after_pick(sel: Seq<ElementRef>, picks: Seq<ElementRef>, hit: ElementRef, step: PickStep) -> Seq<ElementRef> {
    match step {
        PickStep::Level { seg, .. } => seq![ElementRef::Segment(seg)],
        PickStep::Join { .. } | PickStep::Dropped | PickStep::Orient { .. } => picks_after(picks, hit),
        _ => if picks.contains(hit) { sel } else { picks_after(picks, hit) },
    }
}

/// Whether the constraints naming `pid` number at least two, or a
/// dimension holds it.
pub fn is_anchored(doc: &Document, pid: PointId) -> (r: bool)
    ensures
        r == anchored(*doc, pid),
{
    let ghost pred = touches(pid);
    let mut count: usize = 0;
    let mut i: usize = 0;
    while i < doc.constraints.len()
        invariant
            i <= doc.constraints@.len(),
            pred == touches(pid),
            count == doc.constraints@.take(i as int).filter(pred).len(),
            count <= i,
        decreases doc.constraints@.len() - i,
    {
        proof {
            assert(doc.constraints@.take(i as int + 1) == doc.constraints@.take(i as int).push(doc.constraints@[i as int]));
            doc.constraints@.take(i as int).lemma_filter_push(doc.constraints@[i as int], pred);
        }
        let c = doc.constraints[i];
        if c.a == pid || c.b == pid {
            count = count + 1;
        }
        i = i + 1;
    }
    proof {
        assert(doc.constraints@.take(i as int) == doc.constraints@);
    }
    if count >= 2 {
        return true;
    }
    let mut j: usize = 0;
    while j < doc.dimensions.len()
        invariant
            j <= doc.dimensions@.len(),
            forall|k: int| 0 <= k < j ==> !dim_pins(#[trigger] doc.dimensions@[k], pid),
        decreases doc.dimensions@.len() - j,
    {
        let d = doc.dimensions[j];
        let pins = match d.target {
            DimTarget::Points { a, b, .. } => a == pid || b == pid,
            DimTarget::PointLine { p, .. } => p == pid,
            _ => false,
        };
        if pins {
            return true;
        }
        j = j + 1;
    }
    false
}

/// The first segment among `s`.
pub fn find_first_segment(s: &Vec<ElementRef>) -> (r: Option<SegmentId>)
    ensures
        r == first_segment(s@),
{
    let mut r: Option<SegmentId> = None;
    let mut i: usize = 0;
    while i < s.len()
        invariant
            i <= s@.len(),
            r == first_segment(s@.take(i as int)),
        decreases s@.len() - i,
    {
        proof {
            assert(s@.take(i as int + 1).drop_last() == s@.take(i as int));
        }
        if r.is_none() {
            if let ElementRef::Segment(sid) = s[i] {
                r = Some(sid);
            }
        }
        i = i + 1;
    }
    proof {
        assert(s@.take(i as int) == s@);
    }
    r
}

impl Editor {
    /// A click of constraint tool `tool` on `hit` (the element under the
    /// cursor, already narrowed to what the tool accepts), `near` being the
    /// point of `hit` nearest the cursor. Updates the picks and the
    /// selection and says what to make; the document is left to the caller.
    pub fn constraint_pick(&mut self, state: &mut ConstraintPicks, tool: ConstraintTool, hit: ElementRef, near: Option<PointId>) -> (r: PickStep)
        ensures
            r == pick_step(old(self).doc, tool, hit, picks_after(old(state).picks@, hit),
                points_after(tool, old(state).picks@, old(state).points@, hit, near)),
            final(state).picks@ == (if clears_picks(r) { Seq::empty() } else { picks_after(old(state).picks@, hit) }),
            final(state).points@ == (if clears_points(r) {
                Seq::empty()
            } else {
                points_after(tool, old(state).picks@, old(state).points@, hit, near)
            }),
            final(self).selection@ == selection_after_pick(old(self).selection@, old(state).picks@, hit, r),
            final(self).doc == old(self).doc,
            final(self).selected_constraints == old(self).selected_constraints,
            final(self).undo_stack == old(self).undo_stack,
            final(self).redo_stack == old(self).redo_stack,
            final(self).gesture_snapshot == old(self).gesture_snapshot,
            final(self).hovered_constraint == old(self).hovered_constraint,
            final(self).arc_center_reveal == old(self).arc_center_reveal,
            final(self).next_layer_id == old(self).next_layer_id,
            final(self).show_grid == old(self).show_grid,
            final(self).snap_to_grid == old(self).snap_to_grid,
            final(self).snap_to_objects == old(self).snap_to_objects,
            final(self).doc_gen == old(self).doc_gen,
    {
        if !contains_element(&state.picks, hit) {
            state.picks.push(hit);
            self.selection = state.picks.clone();
            if tool == ConstraintTool::Coincident {
                if let Some(point) = near {
                    state.points.push(point);
                }
            }
        }
        let step = match tool {
            ConstraintTool::HorizontalVertical => match hit {
                ElementRef::Segment(sid) => match self.doc.segment(sid) {
                    Some(seg) => {
                        if seg.kind == SegmentKind::Line && self.doc.point(seg.start).is_some()
                            && self.doc.point(seg.end).is_some() {
                            PickStep::Level { seg: sid, start: seg.start, end: seg.end }
                        } else {
                            PickStep::Pending
                        }
                    },
                    None => PickStep::Pending,
                },
                _ => PickStep::Pending,
            },
            ConstraintTool::Coincident => {
                let edge: Option<SegmentId> = match hit {
                    ElementRef::Segment(sid) => match self.doc.segment(sid) {
                        Some(seg) => if seg.kind == SegmentKind::Line { Some(sid) } else { None },
                        None => None,
                    },
                    _ => None,
                };
                if state.picks.len() == 2 && state.points.len() >= 1 && edge.is_some() {
                    let sid = edge.unwrap();
                    let seg = self.doc.segment(sid).unwrap();
                    if self.doc.point(seg.start).is_some() && self.doc.point(seg.end).is_some() {
                        PickStep::OnEdge { point: state.points[0], edge: sid }
                    } else {
                        PickStep::Pending
                    }
                } else if state.picks.len() >= 2 {
                    if state.points.len() == 2 {
                        PickStep::Join { a: state.points[0], b: state.points[1] }
                    } else {
                        PickStep::Dropped
                    }
                } else {
                    PickStep::Pending
                }
            },
            ConstraintTool::Tangent => {
                let line_first = match find_first_segment(&state.picks) {
                    Some(sid) => match self.doc.segment(sid) {
                        Some(seg) => seg.kind == SegmentKind::Line,
                        None => false,
                    },
                    None => false,
                };
                if !line_first && state.picks.len() == 2 {
                    PickStep::CurvePair
                } else {
                    PickStep::Pending
                }
            },
            _ => {
                if state.picks.len() == 2 {
                    match (state.picks[0], state.picks[1]) {
                        (ElementRef::Segment(first), ElementRef::Segment(second)) => {
                            match (self.doc.segment(first), self.doc.segment(second)) {
                                (Some(_), Some(b)) => {
                                    if is_anchored(&self.doc, b.start) && is_anchored(&self.doc, b.end) {
                                        PickStep::Orient { foundation: second, moving: first }
                                    } else {
                                        PickStep::Orient { foundation: first, moving: second }
                                    }
                                },
                                _ => PickStep::Pending,
                            }
                        },
                        _ => PickStep::Pending,
                    }
                } else {
                    PickStep::Pending
                }
            },
        };
        match step {
            PickStep::Level { seg, .. } => {
                state.picks.clear();
                self.selection = vec![ElementRef::Segment(seg)];
            },
            PickStep::OnEdge { .. } => {
                state.picks.clear();
                state.points.clear();
            },
            PickStep::Join { .. } | PickStep::Dropped => {
                self.selection = state.picks.clone();
                state.picks.clear();
                state.points.clear();
            },
            PickStep::Orient { .. } => {
                self.selection = state.picks.clone();
                state.picks.clear();
            },
            _ => {},
        }
        step
    }
}

/// With the parallel or perpendicular tool and two live lines picked, the
/// second line is the foundation (and the first turns) exactly when both
/// ends of the second are anchored; if either end is free, the first line
/// is the foundation and the second turns.
pub proof fn law_orientation_foundation(doc: Document, tool: ConstraintTool, hit: ElementRef, x: SegmentId, y: SegmentId, q: Seq<PointId>)
    requires
        tool == ConstraintTool::Parallel || tool == ConstraintTool::Perpendicular,
        x != y,
        doc.sg(x) is Some,
        doc.sg(y) is Some,
    ensures
        ({
            let r = pick_step(doc, tool, hit, seq![ElementRef::Segment(x), ElementRef::Segment(y)], q);
            let ys = doc.sg(y).unwrap();
            &&& r is Orient
            &&& (r->foundation == y && r->moving == x) || (r->foundation == x && r->moving == y)
            &&& (r->foundation == y) == (anchored(doc, ys.start) && anchored(doc, ys.end))
        }),
{
    let p = seq![ElementRef::Segment(x), ElementRef::Segment(y)];
    assert(p[0] == ElementRef::Segment(x) && p[1] == ElementRef::Segment(y));
}

/// The parallel and perpendicular tools make nothing until exactly two
/// live lines are picked.
pub proof fn law_orientation_needs_two_lines(doc: Document, tool: ConstraintTool, hit: ElementRef, p: Seq<ElementRef>, q: Seq<PointId>)
    requires
        tool == ConstraintTool::Parallel || tool == ConstraintTool::Perpendicular,
        p.len() != 2 || !(p[0] is Segment) || !(p[1] is Segment),
    ensures
        pick_step(doc, tool, hit, p, q) == PickStep::Pending,
{
}

/// A point that no constraint names and no dimension holds is free.
pub proof fn law_unheld_point_is_free(doc: Document, pid: PointId)
    requires
        forall|k: int| 0 <= k < doc.constraints@.len() ==> (#[trigger] doc.constraints@[k]).a != pid && doc.constraints@[k].b != pid,
        forall|k: int| 0 <= k < doc.dimensions@.len() ==> match (#[trigger] doc.dimensions@[k]).target {
            DimTarget::Points { a, b, .. } => a != pid && b != pid,
            DimTarget::PointLine { p, .. } => p != pid,
            _ => true,
        },
    ensures
        !anchored(doc, pid),
{
    lemma_filter_none(doc.constraints@, touches(pid));
}

/// A point named by a single constraint and held by no dimension is free.
pub proof fn law_once_constrained_point_is_free(doc: Document, pid: PointId, i: int)
    requires
        0 <= i < doc.constraints@.len(),
        forall|k: int| 0 <= k < doc.constraints@.len() && k != i ==> (#[trigger] doc.constraints@[k]).a != pid
            && doc.constraints@[k].b != pid,
        forall|k: int| 0 <= k < doc.dimensions@.len() ==> match (#[trigger] doc.dimensions@[k]).target {
            DimTarget::Points { a, b, .. } => a != pid && b != pid,
            DimTarget::PointLine { p, .. } => p != pid,
            _ => true,
        },
    ensures
        !anchored(doc, pid),
{
    lemma_filter_one(doc.constraints@, touches(pid), i);
}

/// A point named by two constraints, or held by a point-pair or
/// point-to-line dimension, is anchored.
pub proof fn law_held_point_is_anchored(doc: Document, pid: PointId)
    ensures
        (exists|i: int, j: int| 0 <= i < j < doc.constraints@.len()
            && ((#[trigger] doc.constraints@[i]).a == pid || doc.constraints@[i].b == pid)
            && ((#[trigger] doc.constraints@[j]).a == pid || doc.constraints@[j].b == pid)) ==> anchored(doc, pid),
        (exists|k: int| 0 <= k < doc.dimensions@.len() && match (#[trigger] doc.dimensions@[k]).target {
            DimTarget::Points { a, b, .. } => a == pid || b == pid,
            DimTarget::PointLine { p, .. } => p == pid,
            _ => false,
        }) ==> anchored(doc, pid),
{
    if exists|i: int, j: int| 0 <= i < j < doc.constraints@.len()
        && ((#[trigger] doc.constraints@[i]).a == pid || doc.constraints@[i].b == pid)
        && ((#[trigger] doc.constraints@[j]).a == pid || doc.constraints@[j].b == pid) {
        let (i, j) = choose|i: int, j: int| 0 <= i < j < doc.constraints@.len()
            && ((#[trigger] doc.constraints@[i]).a == pid || doc.constraints@[i].b == pid)
            && ((#[trigger] doc.constraints@[j]).a == pid || doc.constraints@[j].b == pid);
        lemma_filter_two(doc.constraints@, touches(pid), i, j);
    }
    if exists|k: int| 0 <= k < doc.dimensions@.len() && match (#[trigger] doc.dimensions@[k]).target {
        DimTarget::Points { a, b, .. } => a == pid || b == pid,
        DimTarget::PointLine { p, .. } => p == pid,
        _ => false,
    } {
        let k = choose|k: int| 0 <= k < doc.dimensions@.len() && match (#[trigger] doc.dimensions@[k]).target {
            DimTarget::Points { a, b, .. } => a == pid || b == pid,
            DimTarget::PointLine { p, .. } => p == pid,
            _ => false,
        };
        assert(dim_pins(doc.dimensions@[k], pid));
    }
}

/// The level tool takes a live straight line with live ends at once,
/// through its two ends, and nothing else.
pub proof fn law_level_takes_a_line(doc: Document, hit: ElementRef, p: Seq<ElementRef>, q: Seq<PointId>)
    ensures
        ({
            let r = pick_step(doc, ConstraintTool::HorizontalVertical, hit, p, q);
            &&& r is Level <==> (hit is Segment && doc.sg(hit->Segment_0) is Some
                && doc.sg(hit->Segment_0).unwrap().kind == SegmentKind::Line
                && doc.pt(doc.sg(hit->Segment_0).unwrap().start) is Some
                && doc.pt(doc.sg(hit->Segment_0).unwrap().end) is Some)
            &&& r is Level ==> r->Level_seg == hit->Segment_0 && r->Level_start == doc.sg(hit->Segment_0).unwrap().start
                && r->Level_end == doc.sg(hit->Segment_0).unwrap().end
            &&& !(r is Level) ==> r == PickStep::Pending
        }),
{
}

/// The coincident tool: a point then a live straight edge with live ends
/// puts the first picked point on that edge; otherwise, once two elements
/// are picked, two picked points are joined and anything else is dropped;
/// with fewer picks it waits.
pub proof fn law_coincident_picks(doc: Document, hit: ElementRef, p: Seq<ElementRef>, q: Seq<PointId>)
    ensures
        ({
            let r = pick_step(doc, ConstraintTool::Coincident, hit, p, q);
            let edge = hit is Segment && doc.sg(hit->Segment_0) is Some
                && doc.sg(hit->Segment_0).unwrap().kind == SegmentKind::Line;
            &&& p.len() < 2 ==> r == PickStep::Pending
            &&& p.len() == 2 && q.len() >= 1 && edge && doc.pt(doc.sg(hit->Segment_0).unwrap().start) is Some
                && doc.pt(doc.sg(hit->Segment_0).unwrap().end) is Some
                ==> r == PickStep::OnEdge { point: q[0], edge: hit->Segment_0 }
            &&& p.len() >= 2 && !(p.len() == 2 && q.len() >= 1 && edge) && q.len() == 2
                ==> r == PickStep::Join { a: q[0], b: q[1] }
            &&& p.len() >= 2 && !(p.len() == 2 && q.len() >= 1 && edge) && q.len() != 2 ==> r == PickStep::Dropped
        }),
{
}

/// A click adds the clicked element to the picks once: the picks after
/// it hold it, and grow by one exactly when it was new.
pub proof fn law_picks_grow_once(picks: Seq<ElementRef>, hit: ElementRef)
    ensures
        picks_after(picks, hit).contains(hit),
        picks_after(picks, hit).len() == picks.len() + (if picks.contains(hit) { 0int } else { 1int }),
        forall|k: int| 0 <= k < picks.len() ==> picks_after(picks, hit)[k] == picks[k],
{
    if !picks.contains(hit) {
        assert(picks.push(hit)[picks.len() as int] == hit);
    }
}

/// What a click leaves behind. Leveling a line clears the picks (the
/// picked points stay) and selects the line alone; putting a point on an
/// edge, joining or dropping clears the picks and the picked points;
/// orienting clears the picks. A join, drop or orientation selects the
/// picks as they stood after the click; a pending click selects them when
/// the click added something, and keeps the picks and picked points.
pub proof fn law_pick_leaves(
    tool: ConstraintTool,
    hit: ElementRef,
    near: Option<PointId>,
    picks0: Seq<ElementRef>,
    points0: Seq<PointId>,
    sel0: Seq<ElementRef>,
    r: PickStep,
    picks1: Seq<ElementRef>,
    points1: Seq<PointId>,
    sel1: Seq<ElementRef>,
)
    requires
        picks1 == (if clears_picks(r) { Seq::empty() } else { picks_after(picks0, hit) }),
        points1 == (if clears_points(r) { Seq::empty() } else { points_after(tool, picks0, points0, hit, near) }),
        sel1 == selection_after_pick(sel0, picks0, hit, r),
    ensures
        r is Level ==> picks1.len() == 0 && sel1 == seq![ElementRef::Segment(r->Level_seg)]
            && points1 == points_after(tool, picks0, points0, hit, near),
        r is OnEdge ==> picks1.len() == 0 && points1.len() == 0,
        r is Join || r is Dropped ==> picks1.len() == 0 && points1.len() == 0 && sel1 == picks_after(picks0, hit),
        r is Orient ==> picks1.len() == 0 && sel1 == picks_after(picks0, hit),
        r is Pending ==> picks1 == picks_after(picks0, hit) && points1 == points_after(tool, picks0, points0, hit, near),
        (r is Pending || r is CurvePair || r is OnEdge) && !picks0.contains(hit) ==> sel1 == picks0.push(hit),
        (r is Pending || r is CurvePair || r is OnEdge) && picks0.contains(hit) ==> sel1 == sel0,
        tool == ConstraintTool::Coincident && !picks0.contains(hit) && near is Some && !clears_points(r)
            ==> points1 == points0.push(near.unwrap()),
        tool != ConstraintTool::Coincident && !clears_points(r) ==> points1 == points0,
{
}

/// No position satisfying `pred` leaves the filter empty.
proof fn lemma_filter_none<A>(s: Seq<A>, pred: spec_fn(A) -> bool)
    requires
        forall|k: int| 0 <= k < s.len() ==> !pred(#[trigger] s[k]),
    ensures
        s.filter(pred).len() == 0,
    decreases s.len(),
{
    if s.len() > 0 {
        let t = s.drop_last();
        assert(s == t.push(s.last()));
        t.lemma_filter_push(s.last(), pred);
        assert(!pred(s[s.len() - 1]));
        assert forall|k: int| 0 <= k < t.len() implies !pred(#[trigger] t[k]) by {
            assert(t[k] == s[k]);
        }
        lemma_filter_none(t, pred);
    }
}

/// Only position `i` possibly satisfying `pred` leaves at most one entry
/// in the filter.
proof fn lemma_filter_one<A>(s: Seq<A>, pred: spec_fn(A) -> bool, i: int)
    requires
        0 <= i < s.len(),
        forall|k: int| 0 <= k < s.len() && k != i ==> !pred(#[trigger] s[k]),
    ensures
        s.filter(pred).len() <= 1,
    decreases s.len(),
{
    let t = s.drop_last();
    assert(s == t.push(s.last()));
    t.lemma_filter_push(s.last(), pred);
    if i == s.len() - 1 {
        assert forall|k: int| 0 <= k < t.len() implies !pred(#[trigger] t[k]) by {
            assert(t[k] == s[k]);
        }
        lemma_filter_none(t, pred);
    } else {
        assert(!pred(s[s.len() - 1]));
        assert forall|k: int| 0 <= k < t.len() && k != i implies !pred(#[trigger] t[k]) by {
            assert(t[k] == s[k]);
        }
        lemma_filter_one(t, pred, i);
    }
}

/// Two positions satisfying `pred` leave at least two entries in the
/// filter.
proof fn lemma_filter_two<A>(s: Seq<A>, pred: spec_fn(A) -> bool, i: int, j: int)
    requires
        0 <= i < j < s.len(),
        pred(s[i]),
        pred(s[j]),
    ensures
        s.filter(pred).len() >= 2,
    decreases s.len(),
{
    let t = s.drop_last();
    assert(s == t.push(s.last()));
    t.lemma_filter_push(s.last(), pred);
    assert(t[i] == s[i]);
    if j == s.len() - 1 {
        t.lemma_filter_contains(pred, i);
    } else {
        assert(t[j] == s[j]);
        lemma_filter_two(t, pred, i, j);
    }
}

} // verus!
