//! Object creation: every shape is plain points, segments, constraints and
//! fills, appended to a layer. Positions arrive already clamped to the
//! document range; the arc's center position arrives computed.

use vstd::prelude::*;
use crate::arena::Arena;
use crate::constraints::{Constraint, ConstraintKind, ElementRef};
use crate::document::{first_layer, lemma_first_layer_bounds, Document, Fill, Layer, PointPos, Segment, SegmentKind};
use crate::editor::Editor;
use crate::ids::{FillId, PointId, SegmentId, NONE_IDX};

verus! {

/// Bit pattern of the 1.0 px stroke the line and bezier tools draw with.
pub const TOOL_STROKE_BITS: u64 = 0x3ff0_0000_0000_0000u64;

pub open spec fn point_ids(s: Seq<PointId>) -> Seq<(u32, u32)> {
    s.map_values(|p: PointId| (p.idx, p.generation))
}

pub open spec fn segment_ids(s: Seq<SegmentId>) -> Seq<(u32, u32)> {
    s.map_values(|g: SegmentId| (g.idx, g.generation))
}

/// `steps` are the arenas a run of insertions of `vals` under `ids` passes
/// through.
pub open spec fn insert_chain<T>(steps: Seq<Arena<T>>, ids: Seq<(u32, u32)>, vals: Seq<T>) -> bool {
    &&& steps.len() == ids.len() + 1
    &&& vals.len() == ids.len()
    &&& forall|k: int| 0 <= k < ids.len() ==> Arena::inserted(steps[k], #[trigger] steps[k + 1], ids[k], vals[k])
}

/// `b` is `a` after inserting `vals` in order, under the ids `ids`.
pub open spec fn chain_from<T>(a: Arena<T>, b: Arena<T>, ids: Seq<(u32, u32)>, vals: Seq<T>) -> bool {
    exists|steps: Seq<Arena<T>>| #[trigger] insert_chain(steps, ids, vals) && steps[0] == a && steps.last() == b
}

/// `cs` with `c` appended unless already present.
pub open spec fn with_constraint(cs: Seq<Constraint>, c: Constraint) -> Seq<Constraint> {
    if cs.contains(c) { cs } else { cs.push(c) }
}

pub open spec fn plain(kind: ConstraintKind, a: PointId, b: PointId) -> Constraint {
    Constraint { kind, a, b, tangent_segments: None, point_on_segment: None }
}

pub open spec fn line_seg(start: PointId, end: PointId, kind: SegmentKind, stroke: u64) -> Segment {
    Segment { start, end, kind, stroke_width_bits: stroke, ctrl: None, center: None, handle_out: None, handle_in: None }
}

/// Layers `b` are `a` with `els` appended to the first layer with id `id`
/// (unchanged when there is none).
pub open spec fn layers_pushed(a: Seq<Layer>, b: Seq<Layer>, id: u64, els: Seq<ElementRef>) -> bool {
    if first_layer(a, id) < 0 {
        b == a
    } else {
        let i = first_layer(a, id);
        &&& b.len() == a.len()
        &&& forall|j: int| 0 <= j < a.len() && j != i ==> #[trigger] b[j] == a[j]
        &&& b[i].id == a[i].id
        &&& b[i].name == a[i].name
        &&& b[i].elements@ == a[i].elements@ + els
    }
}

proof fn lemma_first_layer_ids(a: Seq<Layer>, b: Seq<Layer>, id: u64)
    requires
        a.len() == b.len(),
        forall|j: int| 0 <= j < a.len() ==> (#[trigger] a[j]).id == b[j].id,
    ensures
        first_layer(a, id) == first_layer(b, id),
    decreases a.len(),
{
    if a.len() > 0 {
        lemma_first_layer_ids(a.drop_last(), b.drop_last(), id);
    }
}

impl Document {
    /// Stores the positions in order; returns their ids.
    pub fn add_points(&mut self, vals: &Vec<PointPos>) -> (r: Vec<PointId>)
        requires
            old(self).wf(),
            old(self).points.slots@.len() + vals@.len() <= NONE_IDX,
        ensures
            final(self).wf(),
            r@.len() == vals@.len(),
            chain_from(old(self).points, final(self).points, point_ids(r@), vals@),
            final(self).segments == old(self).segments,
            final(self).fills == old(self).fills,
            final(self).paths == old(self).paths,
            final(self).layers == old(self).layers,
            final(self).same_records(old(self)),
            old(self).points.free_vacant() ==> {
                &&& final(self).points.free_vacant()
                &&& forall|k: int| 0 <= k < r@.len() ==> final(self).pt(#[trigger] r@[k]) == Some(vals@[k])
                    && !old(self).points.is_live(r@[k].idx as int)
                &&& forall|j: int, k: int| 0 <= j < k < r@.len() ==> (#[trigger] r@[j]).idx != (#[trigger] r@[k]).idx
                &&& forall|i: u32, g: u32| #[trigger] old(self).points.lookup(i, g) is Some
                    ==> final(self).points.lookup(i, g) == old(self).points.lookup(i, g)
            },
    {
        let ghost a = self.points;
        let ghost mut steps: Seq<Arena<PointPos>> = seq![self.points];
        let mut out: Vec<PointId> = Vec::new();
        let mut i: usize = 0;
        while i < vals.len()
            invariant
                i <= vals@.len(),
                out@.len() == i,
                self.wf(),
                self.points.slots@.len() <= a.slots@.len() + i,
                a.slots@.len() + vals@.len() <= NONE_IDX,
                a == old(self).points,
                steps[0] == a,
                steps.last() == self.points,
                insert_chain(steps, point_ids(out@), vals@.take(i as int)),
                self.segments == old(self).segments,
                self.fills == old(self).fills,
                self.paths == old(self).paths,
                self.layers == old(self).layers,
                self.same_records(old(self)),
                a.free_vacant() ==> {
                    &&& self.points.free_vacant()
                    &&& forall|k: int| 0 <= k < i ==> self.pt(#[trigger] out@[k]) == Some(vals@[k])
                        && !a.is_live(out@[k].idx as int) && self.points.is_live(out@[k].idx as int)
                    &&& forall|j: int, k: int| 0 <= j < k < i ==> (#[trigger] out@[j]).idx != (#[trigger] out@[k]).idx
                    &&& forall|x: u32, g: u32| #[trigger] a.lookup(x, g) is Some ==> self.points.lookup(x, g) == a.lookup(x, g)
                    &&& forall|x: int| #[trigger] a.is_live(x) ==> self.points.is_live(x)
                },
            decreases vals@.len() - i,
        {
            let ghost before = self.points;
            let ghost prev = out@;
            let id = self.add_point(vals[i]);
            out.push(id);
            proof {
                let ghost new_steps = steps.push(self.points);
                assert(point_ids(out@) =~= point_ids(prev).push((id.idx, id.generation)));
                assert(vals@.take(i as int + 1) =~= vals@.take(i as int).push(vals@[i as int]));
                assert forall|k: int| 0 <= k < i + 1 implies Arena::inserted(new_steps[k], #[trigger] new_steps[k + 1],
                    point_ids(out@)[k], vals@.take(i as int + 1)[k]) by {
                    if k < i {
                        assert(new_steps[k] == steps[k]);
                        assert(new_steps[k + 1] == steps[k + 1]);
                    }
                }
                steps = new_steps;
                if a.free_vacant() {
                    Arena::lemma_inserted_facts(before, self.points, (id.idx, id.generation), vals@[i as int]);
                    assert forall|k: int| 0 <= k < i + 1 implies self.pt(#[trigger] out@[k]) == Some(vals@[k])
                        && !a.is_live(out@[k].idx as int) && self.points.is_live(out@[k].idx as int) by {
                        if k < i {
                            assert(out@[k] == prev[k]);
                            assert(before.lookup(prev[k].idx, prev[k].generation) is Some);
                        }
                    }
                    assert forall|j: int, k: int| 0 <= j < k < i + 1 implies (#[trigger] out@[j]).idx != (#[trigger] out@[k]).idx by {
                        if k == i {
                            assert(before.is_live(prev[j].idx as int));
                        } else {
                            assert(out@[j] == prev[j] && out@[k] == prev[k]);
                        }
                    }
                }
            }
            i = i + 1;
        }
        proof {
            assert(vals@.take(i as int) =~= vals@);
        }
        out
    }

    /// Stores the segments in order; returns their ids.
    pub fn add_segments(&mut self, vals: &Vec<Segment>) -> (r: Vec<SegmentId>)
        requires
            old(self).wf(),
            old(self).segments.slots@.len() + vals@.len() <= NONE_IDX,
        ensures
            final(self).wf(),
            r@.len() == vals@.len(),
            chain_from(old(self).segments, final(self).segments, segment_ids(r@), vals@),
            final(self).points == old(self).points,
            final(self).fills == old(self).fills,
            final(self).paths == old(self).paths,
            final(self).layers == old(self).layers,
            final(self).same_records(old(self)),
            old(self).segments.free_vacant() ==> {
                &&& final(self).segments.free_vacant()
                &&& forall|k: int| 0 <= k < r@.len() ==> final(self).sg(#[trigger] r@[k]) == Some(vals@[k])
                    && !old(self).segments.is_live(r@[k].idx as int)
                &&& forall|j: int, k: int| 0 <= j < k < r@.len() ==> (#[trigger] r@[j]).idx != (#[trigger] r@[k]).idx
                &&& forall|i: u32, g: u32| #[trigger] old(self).segments.lookup(i, g) is Some
                    ==> final(self).segments.lookup(i, g) == old(self).segments.lookup(i, g)
            },
    {
        let ghost a = self.segments;
        let ghost mut steps: Seq<Arena<Segment>> = seq![self.segments];
        let mut out: Vec<SegmentId> = Vec::new();
        let mut i: usize = 0;
        while i < vals.len()
            invariant
                i <= vals@.len(),
                out@.len() == i,
                self.wf(),
                self.segments.slots@.len() <= a.slots@.len() + i,
                a.slots@.len() + vals@.len() <= NONE_IDX,
                a == old(self).segments,
                steps[0] == a,
                steps.last() == self.segments,
                insert_chain(steps, segment_ids(out@), vals@.take(i as int)),
                self.points == old(self).points,
                self.fills == old(self).fills,
                self.paths == old(self).paths,
                self.layers == old(self).layers,
                self.same_records(old(self)),
                a.free_vacant() ==> {
                    &&& self.segments.free_vacant()
                    &&& forall|k: int| 0 <= k < i ==> self.sg(#[trigger] out@[k]) == Some(vals@[k])
                        && !a.is_live(out@[k].idx as int) && self.segments.is_live(out@[k].idx as int)
                    &&& forall|j: int, k: int| 0 <= j < k < i ==> (#[trigger] out@[j]).idx != (#[trigger] out@[k]).idx
                    &&& forall|x: u32, g: u32| #[trigger] a.lookup(x, g) is Some ==> self.segments.lookup(x, g) == a.lookup(x, g)
                    &&& forall|x: int| #[trigger] a.is_live(x) ==> self.segments.is_live(x)
                },
            decreases vals@.len() - i,
        {
            let ghost before = self.segments;
            let ghost prev = out@;
            let id = self.insert_segment(vals[i]);
            out.push(id);
            proof {
                let ghost new_steps = steps.push(self.segments);
                assert(segment_ids(out@) =~= segment_ids(prev).push((id.idx, id.generation)));
                assert(vals@.take(i as int + 1) =~= vals@.take(i as int).push(vals@[i as int]));
                assert forall|k: int| 0 <= k < i + 1 implies Arena::inserted(new_steps[k], #[trigger] new_steps[k + 1],
                    segment_ids(out@)[k], vals@.take(i as int + 1)[k]) by {
                    if k < i {
                        assert(new_steps[k] == steps[k]);
                        assert(new_steps[k + 1] == steps[k + 1]);
                    }
                }
                steps = new_steps;
                if a.free_vacant() {
                    Arena::lemma_inserted_facts(before, self.segments, (id.idx, id.generation), vals@[i as int]);
                    assert forall|k: int| 0 <= k < i + 1 implies self.sg(#[trigger] out@[k]) == Some(vals@[k])
                        && !a.is_live(out@[k].idx as int) && self.segments.is_live(out@[k].idx as int) by {
                        if k < i {
                            assert(out@[k] == prev[k]);
                            assert(before.lookup(prev[k].idx, prev[k].generation) is Some);
                        }
                    }
                    assert forall|j: int, k: int| 0 <= j < k < i + 1 implies (#[trigger] out@[j]).idx != (#[trigger] out@[k]).idx by {
                        if k == i {
                            assert(before.is_live(prev[j].idx as int));
                        } else {
                            assert(out@[j] == prev[j] && out@[k] == prev[k]);
                        }
                    }
                }
            }
            i = i + 1;
        }
        proof {
            assert(vals@.take(i as int) =~= vals@);
        }
        out
    }

    /// Appends `els` in order to the first layer with id `layer_id`.
    pub fn push_all_to_layer(&mut self, layer_id: u64, els: &Vec<ElementRef>)
        ensures
            layers_pushed(old(self).layers@, final(self).layers@, layer_id, els@),
            final(self).same_geometry(old(self)),
            final(self).same_records(old(self)),
    {
        let mut i: usize = 0;
        proof {
            lemma_first_layer_bounds(self.layers@, layer_id);
            if first_layer(self.layers@, layer_id) >= 0 {
                assert(self.layers@[first_layer(self.layers@, layer_id)].elements@ + els@.take(0)
                    =~= self.layers@[first_layer(self.layers@, layer_id)].elements@);
            }
        }
        while i < els.len()
            invariant
                i <= els@.len(),
                layers_pushed(old(self).layers@, self.layers@, layer_id, els@.take(i as int)),
                self.same_geometry(old(self)),
                self.same_records(old(self)),
            decreases els@.len() - i,
        {
            let ghost before = self.layers@;
            proof {
                lemma_first_layer_bounds(old(self).layers@, layer_id);
                if first_layer(old(self).layers@, layer_id) >= 0 {
                    assert forall|j: int| 0 <= j < before.len() implies (#[trigger] before[j]).id == old(self).layers@[j].id by {}
                    lemma_first_layer_ids(before, old(self).layers@, layer_id);
                }
            }
            self.push_to_layer(layer_id, els[i]);
            proof {
                assert(els@.take(i as int + 1) =~= els@.take(i as int).push(els@[i as int]));
                if first_layer(old(self).layers@, layer_id) >= 0 {
                    let f = first_layer(old(self).layers@, layer_id);
                    assert(self.layers@[f].elements@ =~= old(self).layers@[f].elements@ + els@.take(i as int + 1));
                }
            }
            i = i + 1;
        }
        proof {
            assert(els@.take(i as int) =~= els@);
        }
    }
}

/// The four corners of a rectangle from two opposite corners: `a`, then
/// the corner sharing `a`'s row, then `c`, then the corner sharing `a`'s
/// column.
pub open spec fn rect_corners(a: PointPos, c: PointPos) -> Seq<PointPos> {
    seq![a, PointPos { x_bits: c.x_bits, y_bits: a.y_bits }, c, PointPos { x_bits: a.x_bits, y_bits: c.y_bits }]
}

/// The four edges of a rectangle over its corners, chained.
pub open spec fn rect_edges(p: Seq<PointId>) -> Seq<Segment> {
    seq![
        line_seg(p[0], p[1], SegmentKind::Line, 0),
        line_seg(p[1], p[2], SegmentKind::Line, 0),
        line_seg(p[2], p[3], SegmentKind::Line, 0),
        line_seg(p[3], p[0], SegmentKind::Line, 0),
    ]
}

/// The horizontal top and bottom and vertical left and right edges.
pub open spec fn rect_constraints(cs: Seq<Constraint>, p: Seq<PointId>) -> Seq<Constraint> {
    with_constraint(
        with_constraint(
            with_constraint(with_constraint(cs, plain(ConstraintKind::Horizontal, p[0], p[1])), plain(ConstraintKind::Horizontal, p[3], p[2])),
            plain(ConstraintKind::Vertical, p[0], p[3]),
        ),
        plain(ConstraintKind::Vertical, p[1], p[2]),
    )
}

/// An arc over points `[start, end, ctrl, center]`.
pub open spec fn arc_seg(p: Seq<PointId>) -> Segment {
    Segment {
        start: p[0],
        end: p[1],
        kind: SegmentKind::Arc,
        stroke_width_bits: 0,
        ctrl: Some(p[2]),
        center: Some(p[3]),
        handle_out: None,
        handle_in: None,
    }
}

/// A 1 px bezier over points `[start, handle out, handle in, end]`.
pub open spec fn bezier_seg(p: Seq<PointId>) -> Segment {
    Segment {
        start: p[0],
        end: p[3],
        kind: SegmentKind::Bezier,
        stroke_width_bits: TOOL_STROKE_BITS,
        ctrl: None,
        center: None,
        handle_out: Some(p[1]),
        handle_in: Some(p[2]),
    }
}

pub open spec fn rect_elements(p: Seq<PointId>, s: Seq<SegmentId>, f: FillId) -> Seq<ElementRef> {
    seq![
        ElementRef::Point(p[0]),
        ElementRef::Point(p[1]),
        ElementRef::Point(p[2]),
        ElementRef::Point(p[3]),
        ElementRef::Segment(s[0]),
        ElementRef::Segment(s[1]),
        ElementRef::Segment(s[2]),
        ElementRef::Segment(s[3]),
        ElementRef::Fill(f),
    ]
}

impl Editor {
    /// `b` is `a` with only its document changed.
    pub open spec fn doc_only(a: Editor, b: Editor) -> bool {
        &&& b.selection == a.selection
        &&& b.selected_constraints == a.selected_constraints
        &&& b.hovered_constraint == a.hovered_constraint
        &&& b.arc_center_reveal == a.arc_center_reveal
        &&& b.undo_stack == a.undo_stack
        &&& b.redo_stack == a.redo_stack
        &&& b.gesture_snapshot == a.gesture_snapshot
        &&& b.next_layer_id == a.next_layer_id
        &&& b.show_grid == a.show_grid
        &&& b.snap_to_grid == a.snap_to_grid
        &&& b.snap_to_objects == a.snap_to_objects
        &&& b.doc_gen == a.doc_gen
    }

    /// `b` is `a` after adding the points `pvals` (ids `p`) and then the
    /// segments `svals` (ids `s`), with `els` appended to layer `layer`
    /// and nothing else changed in the document but the constraints.
    pub open spec fn shapes_added(
        a: Editor,
        b: Editor,
        layer: u64,
        pvals: Seq<PointPos>,
        p: Seq<PointId>,
        svals: Seq<Segment>,
        s: Seq<SegmentId>,
        els: Seq<ElementRef>,
    ) -> bool {
        &&& p.len() == pvals.len()
        &&& s.len() == svals.len()
        &&& chain_from(a.doc.points, b.doc.points, point_ids(p), pvals)
        &&& chain_from(a.doc.segments, b.doc.segments, segment_ids(s), svals)
        &&& layers_pushed(a.doc.layers@, b.doc.layers@, layer, els)
        &&& b.doc.paths == a.doc.paths
        &&& b.doc.settings == a.doc.settings
        &&& b.doc.dimensions == a.doc.dimensions
        &&& Editor::doc_only(a, b)
        &&& a.doc.points.free_vacant() ==> forall|k: int| 0 <= k < p.len() ==>
            b.doc.pt(#[trigger] p[k]) == Some(pvals[k]) && !a.doc.points.is_live(p[k].idx as int)
        &&& a.doc.points.free_vacant() ==> forall|j: int, k: int| 0 <= j < k < p.len() ==> (#[trigger] p[j]).idx != (#[trigger] p[k]).idx
        &&& a.doc.segments.free_vacant() ==> forall|k: int| 0 <= k < s.len() ==>
            b.doc.sg(#[trigger] s[k]) == Some(svals[k]) && !a.doc.segments.is_live(s[k].idx as int)
    }

    /// `b` is `a` after emitting two points at `pa` and `pb` (ids `p`) and
    /// one segment `r` of `kind` and stroke `stroke` between them.
    pub open spec fn segment_emitted(a: Editor, b: Editor, layer: u64, pa: PointPos, pb: PointPos, kind: SegmentKind,
        stroke: u64, r: SegmentId, p: Seq<PointId>) -> bool {
        Editor::shapes_added(a, b, layer, seq![pa, pb], p, seq![line_seg(p[0], p[1], kind, stroke)], seq![r],
            seq![ElementRef::Point(p[0]), ElementRef::Point(p[1]), ElementRef::Segment(r)])
    }

    /// `b` is `a` after emitting four points at `q0..q3` (ids `p`) and the
    /// curve segment `seg` over them, stored as `r`.
    pub open spec fn curve_emitted(a: Editor, b: Editor, layer: u64, q0: PointPos, q1: PointPos, q2: PointPos,
        q3: PointPos, seg: Segment, r: SegmentId, p: Seq<PointId>) -> bool {
        Editor::shapes_added(a, b, layer, seq![q0, q1, q2, q3], p, seq![seg], seq![r],
            seq![ElementRef::Point(p[0]), ElementRef::Point(p[1]), ElementRef::Point(p[2]), ElementRef::Point(p[3]), ElementRef::Segment(r)])
    }

    /// Emits a rectangle: four points, four chained segments, horizontal
    /// and vertical constraints and a fill over the loop, all appended to
    /// layer `layer_id`. Returns the fill. There is no rectangle object.
    pub fn create_rectangle(&mut self, layer_id: u64, a: PointPos, c: PointPos) -> (r: FillId)
        requires
            old(self).wf(),
            old(self).doc.points.slots@.len() + 4 <= NONE_IDX,
            old(self).doc.segments.slots@.len() + 4 <= NONE_IDX,
            old(self).doc.fills.has_room(),
        ensures
            final(self).wf(),
            exists|p: Seq<PointId>, s: Seq<SegmentId>| {
                &&& #[trigger] Editor::shapes_added(*old(self), *final(self), layer_id, rect_corners(a, c), p, rect_edges(p), s,
                    rect_elements(p, s, r))
                &&& Arena::inserted(old(self).doc.fills, final(self).doc.fills, (r.idx, r.generation),
                    final(self).doc.fills.slots@[r.idx as int].value.unwrap())
                &&& final(self).doc.fl(r) matches Some(f) && f.segments@ == s
                &&& final(self).doc.constraints@ == rect_constraints(old(self).doc.constraints@, p)
            },
    {
        let ghost e = *self;
        let mut corners: Vec<PointPos> = Vec::new();
        corners.push(a);
        corners.push(PointPos { x_bits: c.x_bits, y_bits: a.y_bits });
        corners.push(c);
        corners.push(PointPos { x_bits: a.x_bits, y_bits: c.y_bits });
        proof {
            assert(corners@ =~= rect_corners(a, c));
        }
        let p = self.doc.add_points(&corners);
        let (tl, tr, br, bl) = (p[0], p[1], p[2], p[3]);
        let mut edges: Vec<Segment> = Vec::new();
        edges.push(Segment { start: tl, end: tr, kind: SegmentKind::Line, stroke_width_bits: 0, ctrl: None, center: None, handle_out: None, handle_in: None });
        edges.push(Segment { start: tr, end: br, kind: SegmentKind::Line, stroke_width_bits: 0, ctrl: None, center: None, handle_out: None, handle_in: None });
        edges.push(Segment { start: br, end: bl, kind: SegmentKind::Line, stroke_width_bits: 0, ctrl: None, center: None, handle_out: None, handle_in: None });
        edges.push(Segment { start: bl, end: tl, kind: SegmentKind::Line, stroke_width_bits: 0, ctrl: None, center: None, handle_out: None, handle_in: None });
        proof {
            assert(edges@ =~= rect_edges(p@));
        }
        let s = self.doc.add_segments(&edges);
        let ghost before_constraints = self.doc;
        self.doc.add_constraint(ConstraintKind::Horizontal, tl, tr);
        self.doc.add_constraint(ConstraintKind::Horizontal, bl, br);
        self.doc.add_constraint(ConstraintKind::Vertical, tl, bl);
        self.doc.add_constraint(ConstraintKind::Vertical, tr, br);
        let mut loop_segs: Vec<SegmentId> = Vec::new();
        loop_segs.push(s[0]);
        loop_segs.push(s[1]);
        loop_segs.push(s[2]);
        loop_segs.push(s[3]);
        proof {
            assert(loop_segs@ =~= s@);
        }
        let ghost before_fill = self.doc;
        let fill = self.doc.add_fill(loop_segs);
        let mut els: Vec<ElementRef> = Vec::new();
        els.push(ElementRef::Point(tl));
        els.push(ElementRef::Point(tr));
        els.push(ElementRef::Point(br));
        els.push(ElementRef::Point(bl));
        els.push(ElementRef::Segment(s[0]));
        els.push(ElementRef::Segment(s[1]));
        els.push(ElementRef::Segment(s[2]));
        els.push(ElementRef::Segment(s[3]));
        els.push(ElementRef::Fill(fill));
        proof {
            assert(els@ =~= rect_elements(p@, s@, fill));
        }
        self.doc.push_all_to_layer(layer_id, &els);
        proof {
            assert(Editor::shapes_added(e, *self, layer_id, rect_corners(a, c), p@, rect_edges(p@), s@, rect_elements(p@, s@, fill)));
        }
        fill
    }
    /// Emits a ruler: two points and one ruler segment between them, both
    /// appended to layer `layer_id`. No constraints, no fill.
    pub fn create_ruler(&mut self, layer_id: u64, a: PointPos, b: PointPos) -> (r: SegmentId)
        requires
            old(self).wf(),
            old(self).doc.points.slots@.len() + 2 <= NONE_IDX,
            old(self).doc.segments.has_room(),
        ensures
            final(self).wf(),
            exists|p: Seq<PointId>| #[trigger] Editor::segment_emitted(*old(self), *final(self), layer_id, a, b, SegmentKind::Ruler, 0, r, p),
            final(self).doc.fills == old(self).doc.fills,
            final(self).doc.constraints == old(self).doc.constraints,
    {
        self.emit_segment(layer_id, a, b, SegmentKind::Ruler, 0)
    }

    /// Emits a standalone line: two points and one segment stroked at
    /// 1 px, appended to layer `layer_id`. No constraints, no fill.
    pub fn create_line(&mut self, layer_id: u64, a: PointPos, b: PointPos) -> (r: SegmentId)
        requires
            old(self).wf(),
            old(self).doc.points.slots@.len() + 2 <= NONE_IDX,
            old(self).doc.segments.has_room(),
        ensures
            final(self).wf(),
            exists|p: Seq<PointId>| #[trigger] Editor::segment_emitted(*old(self), *final(self), layer_id, a, b, SegmentKind::Line, TOOL_STROKE_BITS, r, p),
            final(self).doc.fills == old(self).doc.fills,
            final(self).doc.constraints == old(self).doc.constraints,
    {
        self.emit_segment(layer_id, a, b, SegmentKind::Line, TOOL_STROKE_BITS)
    }

    fn emit_segment(&mut self, layer_id: u64, a: PointPos, b: PointPos, kind: SegmentKind, stroke: u64) -> (r: SegmentId)
        requires
            old(self).wf(),
            old(self).doc.points.slots@.len() + 2 <= NONE_IDX,
            old(self).doc.segments.has_room(),
        ensures
            final(self).wf(),
            exists|p: Seq<PointId>| #[trigger] Editor::segment_emitted(*old(self), *final(self), layer_id, a, b, kind, stroke, r, p),
            final(self).doc.fills == old(self).doc.fills,
            final(self).doc.constraints == old(self).doc.constraints,
    {
        let ghost e = *self;
        let mut pv: Vec<PointPos> = Vec::new();
        pv.push(a);
        pv.push(b);
        let p = self.doc.add_points(&pv);
        let mut sv: Vec<Segment> = Vec::new();
        sv.push(Segment { start: p[0], end: p[1], kind, stroke_width_bits: stroke, ctrl: None, center: None, handle_out: None, handle_in: None });
        let s = self.doc.add_segments(&sv);
        let seg = s[0];
        let mut els: Vec<ElementRef> = Vec::new();
        els.push(ElementRef::Point(p[0]));
        els.push(ElementRef::Point(p[1]));
        els.push(ElementRef::Segment(seg));
        self.doc.push_all_to_layer(layer_id, &els);
        proof {
            assert(pv@ =~= seq![a, b]);
            assert(sv@ =~= seq![line_seg(p@[0], p@[1], kind, stroke)]);
            assert(s@ =~= seq![seg]);
            assert(els@ =~= seq![ElementRef::Point(p@[0]), ElementRef::Point(p@[1]), ElementRef::Segment(seg)]);
            assert(Editor::shapes_added(e, *self, layer_id, seq![a, b], p@, seq![line_seg(p@[0], p@[1], kind, stroke)],
                seq![seg], seq![ElementRef::Point(p@[0]), ElementRef::Point(p@[1]), ElementRef::Segment(seg)]));
            assert(Editor::segment_emitted(e, *self, layer_id, a, b, kind, stroke, seg, p@));
        }
        seg
    }

    /// Emits a circular arc: the end points `a` and `b`, the on-arc control
    /// point `c` and the center point at `center`, plus the arc segment,
    /// appended to layer `layer_id`. No constraints, no fill.
    pub fn create_arc(&mut self, layer_id: u64, a: PointPos, b: PointPos, c: PointPos, center: PointPos) -> (r: SegmentId)
        requires
            old(self).wf(),
            old(self).doc.points.slots@.len() + 4 <= NONE_IDX,
            old(self).doc.segments.has_room(),
        ensures
            final(self).wf(),
            exists|p: Seq<PointId>| #[trigger] Editor::curve_emitted(*old(self), *final(self), layer_id, a, b, c, center, arc_seg(p), r, p),
            final(self).doc.fills == old(self).doc.fills,
            final(self).doc.constraints == old(self).doc.constraints,
    {
        let ghost e = *self;
        let mut pv: Vec<PointPos> = Vec::new();
        pv.push(a);
        pv.push(b);
        pv.push(c);
        pv.push(center);
        let p = self.doc.add_points(&pv);
        let mut sv: Vec<Segment> = Vec::new();
        sv.push(Segment {
            start: p[0],
            end: p[1],
            kind: SegmentKind::Arc,
            stroke_width_bits: 0,
            ctrl: Some(p[2]),
            center: Some(p[3]),
            handle_out: None,
            handle_in: None,
        });
        let s = self.doc.add_segments(&sv);
        let seg = s[0];
        let mut els: Vec<ElementRef> = Vec::new();
        els.push(ElementRef::Point(p[0]));
        els.push(ElementRef::Point(p[1]));
        els.push(ElementRef::Point(p[2]));
        els.push(ElementRef::Point(p[3]));
        els.push(ElementRef::Segment(seg));
        self.doc.push_all_to_layer(layer_id, &els);
        proof {
            let ev = seq![ElementRef::Point(p@[0]), ElementRef::Point(p@[1]), ElementRef::Point(p@[2]), ElementRef::Point(p@[3]), ElementRef::Segment(seg)];
            assert(pv@ =~= seq![a, b, c, center]);
            assert(sv@ =~= seq![arc_seg(p@)]);
            assert(s@ =~= seq![seg]);
            assert(els@ =~= ev);
            assert(Editor::shapes_added(e, *self, layer_id, seq![a, b, c, center], p@, seq![arc_seg(p@)], seq![seg], ev));
            assert(Editor::curve_emitted(e, *self, layer_id, a, b, c, center, arc_seg(p@), seg, p@));
        }
        seg
    }

    /// Emits a standalone cubic bezier: end points `p0` and `p1`, handles
    /// `c1` (leaving `p0`) and `c2` (arriving at `p1`), and the segment
    /// stroked at 1 px, appended to layer `layer_id`.
    pub fn create_bezier(&mut self, layer_id: u64, p0: PointPos, c1: PointPos, c2: PointPos, p1: PointPos) -> (r: SegmentId)
        requires
            old(self).wf(),
            old(self).doc.points.slots@.len() + 4 <= NONE_IDX,
            old(self).doc.segments.has_room(),
        ensures
            final(self).wf(),
            exists|p: Seq<PointId>| #[trigger] Editor::curve_emitted(*old(self), *final(self), layer_id, p0, c1, c2, p1, bezier_seg(p), r, p),
            final(self).doc.fills == old(self).doc.fills,
            final(self).doc.constraints == old(self).doc.constraints,
    {
        let ghost e = *self;
        let mut pv: Vec<PointPos> = Vec::new();
        pv.push(p0);
        pv.push(c1);
        pv.push(c2);
        pv.push(p1);
        let p = self.doc.add_points(&pv);
        let mut sv: Vec<Segment> = Vec::new();
        sv.push(Segment {
            start: p[0],
            end: p[3],
            kind: SegmentKind::Bezier,
            stroke_width_bits: TOOL_STROKE_BITS,
            ctrl: None,
            center: None,
            handle_out: Some(p[1]),
            handle_in: Some(p[2]),
        });
        let s = self.doc.add_segments(&sv);
        let seg = s[0];
        let mut els: Vec<ElementRef> = Vec::new();
        els.push(ElementRef::Point(p[0]));
        els.push(ElementRef::Point(p[1]));
        els.push(ElementRef::Point(p[2]));
        els.push(ElementRef::Point(p[3]));
        els.push(ElementRef::Segment(seg));
        self.doc.push_all_to_layer(layer_id, &els);
        proof {
            let ev = seq![ElementRef::Point(p@[0]), ElementRef::Point(p@[1]), ElementRef::Point(p@[2]), ElementRef::Point(p@[3]), ElementRef::Segment(seg)];
            assert(pv@ =~= seq![p0, c1, c2, p1]);
            assert(sv@ =~= seq![bezier_seg(p@)]);
            assert(s@ =~= seq![seg]);
            assert(els@ =~= ev);
            assert(Editor::shapes_added(e, *self, layer_id, seq![p0, c1, c2, p1], p@, seq![bezier_seg(p@)], seq![seg], ev));
            assert(Editor::curve_emitted(e, *self, layer_id, p0, c1, c2, p1, bezier_seg(p@), seg, p@));
        }
        seg
    }
}

} // verus!
