//! Deleting an element from the editor: the document cascade plus the
//! cleanup that keeps deleted shapes from leaving stray corners and
//! measurements behind.

use vstd::prelude::*;
use crate::arena::Arena;
use crate::constraints::{Constraint, DimTarget, Dimension, ElementRef};
use crate::document::{
    all_slots, constraints_keeping, contains_point, dim_mentions, dims_keeping, fill_touched, layers_detached,
    opt_seq, outside, paths_spliced, seg_uses_at, without, Document,
};
use crate::editor::{doc_ok, Editor};
use crate::history::element_live;
use crate::ids::{FillId, PathId, PointId, SegmentId};

verus! {

/// Whether a dimension measures segment `s`.
pub open spec fn measures(d: Dimension, s: SegmentId) -> bool {
    match d.target {
        DimTarget::PointLine { line, .. } => line == s,
        DimTarget::Radius { seg } => seg == s,
        DimTarget::Lines { a, b } => a == s || b == s,
        DimTarget::Angle { a, b } => a == s || b == s,
        DimTarget::Points { .. } => false,
    }
}

pub open spec fn not_measuring(s: SegmentId) -> spec_fn(Dimension) -> bool {
    |d: Dimension| !measures(d, s)
}

/// Whether a live segment starts or ends at `p`.
pub open spec fn has_segment_end(d: Document, p: PointId) -> bool {
    exists|i: int| #[trigger] d.segments.is_live(i)
        && (d.segments.slots@[i].value.unwrap().start == p || d.segments.slots@[i].value.unwrap().end == p)
}

/// Whether a segment endpoint, a constraint or a point dimension still
/// holds `p`.
pub open spec fn still_used(d: Document, p: PointId) -> bool {
    ||| has_segment_end(d, p)
    ||| exists|k: int| 0 <= k < d.constraints@.len() && ((#[trigger] d.constraints@[k]).a == p || d.constraints@[k].b == p)
    ||| exists|k: int| 0 <= k < d.dimensions@.len() && dim_mentions(#[trigger] d.dimensions@[k], p)
}

/// A live point that no segment starts or ends at.
pub open spec fn segless(d: Document, p: PointId) -> bool {
    d.pt(p) is Some && !has_segment_end(d, p)
}

/// Keeps a dimension unless it is a point-pair dimension between two
/// segment-less points of `d`.
pub open spec fn keeps_length(d: Document) -> spec_fn(Dimension) -> bool {
    |dim: Dimension| match dim.target {
        DimTarget::Points { a, b, .. } => !(segless(d, a) && segless(d, b)),
        _ => true,
    }
}

/// Keeps a constraint unless both its points are in `pts`.
pub open spec fn not_inside(pts: Seq<PointId>) -> spec_fn(Constraint) -> bool {
    |c: Constraint| !(pts.contains(c.a) && pts.contains(c.b))
}

/// The points a deleted segment may leave behind: endpoints, then arc
/// control and center.
pub open spec fn seg_ends(d: Document, s: SegmentId) -> Seq<PointId> {
    match d.sg(s) {
        Some(seg) => seq![seg.start, seg.end] + opt_seq(seg.ctrl) + opt_seq(seg.center),
        None => seq![],
    }
}

/// The loop of fill `f`, empty when it does not resolve.
pub open spec fn fill_segs(d: Document, f: FillId) -> Seq<SegmentId> {
    match d.fl(f) {
        Some(fill) => fill.segments@,
        None => seq![],
    }
}

impl Document {
    /// `b` is `a` after `remove_point(id)`.
    pub open spec fn point_removed(a: Document, b: Document, id: PointId) -> bool {
        &&& doc_ok(b)
        &&& Arena::removed(a.points, b.points, id.idx, id.generation)
        &&& Arena::vacated_where(a.segments, b.segments, seg_uses_at(a.segments, id))
        &&& Arena::vacated_where(a.fills, b.fills, fill_touched(a.fills, a.segments_using(id)))
        &&& paths_spliced(a.paths, b.paths, a.segments_using(id), b, all_slots())
        &&& layers_detached(a.layers@, b.layers@, a.cascade_gone(a.segments_using(id)).union(set![ElementRef::Point(id)]))
        &&& b.constraints@ == a.constraints@.filter(constraints_keeping(id))
        &&& b.dimensions@ == a.dimensions@.filter(dims_keeping(id))
        &&& b.settings == a.settings
    }

    /// `b` is `a` after `remove_segment(id)`.
    pub open spec fn segment_removed(a: Document, b: Document, id: SegmentId) -> bool {
        &&& doc_ok(b)
        &&& Arena::removed(a.segments, b.segments, id.idx, id.generation)
        &&& Arena::vacated_where(a.fills, b.fills, fill_touched(a.fills, set![id]))
        &&& paths_spliced(a.paths, b.paths, set![id], a, all_slots())
        &&& layers_detached(a.layers@, b.layers@, a.cascade_gone(set![id]))
        &&& b.points == a.points
        &&& b.same_records(&a)
    }

    /// `b` is `a` after `remove_fill(id)`.
    pub open spec fn fill_removed(a: Document, b: Document, id: FillId) -> bool {
        &&& doc_ok(b)
        &&& Arena::removed(a.fills, b.fills, id.idx, id.generation)
        &&& layers_detached(a.layers@, b.layers@, set![ElementRef::Fill(id)])
        &&& b.points == a.points
        &&& b.segments == a.segments
        &&& b.paths == a.paths
        &&& b.same_records(&a)
    }

    /// `b` is `a` after `remove_path(id)`.
    pub open spec fn path_removed(a: Document, b: Document, id: PathId) -> bool {
        &&& doc_ok(b)
        &&& Arena::removed(a.paths, b.paths, id.idx, id.generation)
        &&& layers_detached(a.layers@, b.layers@, set![ElementRef::Path(id)])
        &&& b.points == a.points
        &&& b.segments == a.segments
        &&& b.fills == a.fills
        &&& b.same_records(&a)
    }

    /// `b` is `a` with only its dimensions changed, to `dims`.
    pub open spec fn dims_now(a: Document, b: Document, dims: Seq<Dimension>) -> bool {
        &&& b.dimensions@ == dims
        &&& b.same_geometry(&a)
        &&& b.layers == a.layers
        &&& b.settings == a.settings
        &&& b.constraints == a.constraints
    }

    /// `b` is `a` after the cleanup of end point `p`: removed when nothing
    /// holds it any more, else untouched.
    pub open spec fn end_swept(a: Document, b: Document, p: PointId) -> bool {
        if still_used(a, p) {
            b == a
        } else {
            Document::point_removed(a, b, p)
        }
    }

    /// `t` is the sequence of documents deleting segment `s` from `a`
    /// goes through, ending in `b`: dimensions measuring `s` go, the
    /// segment is removed, each end point that nothing holds is removed in
    /// turn, and finally point-pair dimensions between two segment-less
    /// points go.
    pub open spec fn segment_trace(a: Document, b: Document, s: SegmentId, t: Seq<Document>) -> bool {
        let ends = seg_ends(a, s);
        &&& t.len() == ends.len() + 2
        &&& Document::dims_now(a, t[0], a.dimensions@.filter(not_measuring(s)))
        &&& Document::segment_removed(t[0], t[1], s)
        &&& forall|k: int| 0 <= k < ends.len() ==> Document::end_swept(t[k + 1], #[trigger] t[k + 2], ends[k])
        &&& Document::dims_now(t.last(), b, t.last().dimensions@.filter(keeps_length(t.last())))
    }
}

impl Editor {
    /// `b` is `a` with only the document and the selection possibly changed.
    pub open spec fn keeps_session(a: Editor, b: Editor) -> bool {
        &&& b.selected_constraints == a.selected_constraints
        &&& b.hovered_constraint == a.hovered_constraint
        &&& b.arc_center_reveal == a.arc_center_reveal
        &&& b.undo_stack == a.undo_stack
        &&& b.redo_stack == a.redo_stack
        &&& b.gesture_snapshot == a.gesture_snapshot
        &&& b.next_layer_id == a.next_layer_id
        &&& b.show_grid == a.show_grid
        &&& b.snap_to_grid == a.snap_to_grid
        &&& b.snap_to_objects == a.snap_to_objects
        &&& b.doc_gen == a.doc_gen
    }

    /// `b` is `a` after deleting segment `s`.
    pub open spec fn segment_deleted(a: Editor, b: Editor, s: SegmentId) -> bool {
        &&& exists|t: Seq<Document>| #[trigger] Document::segment_trace(a.doc, b.doc, s, t)
        &&& b.selection@ == without(a.selection@, ElementRef::Segment(s))
        &&& Editor::keeps_session(a, b)
    }

    /// `t` is the sequence of sessions deleting fill `f` from `a` goes
    /// through, ending in `b`: the fill is removed, constraints between two
    /// of its corners go, then each of its segments is deleted in turn.
    pub open spec fn fill_trace(a: Editor, b: Editor, f: FillId, t: Seq<Editor>) -> bool {
        let segs = fill_segs(a.doc, f);
        let pts = a.doc.element_points_spec(ElementRef::Fill(f));
        &&& t.len() == segs.len() + 2
        &&& Document::fill_removed(a.doc, t[0].doc, f)
        &&& t[0].selection == a.selection
        &&& Editor::keeps_session(a, t[0])
        &&& t[1].doc.constraints@ == t[0].doc.constraints@.filter(not_inside(pts))
        &&& t[1].doc.same_geometry(&t[0].doc)
        &&& t[1].doc.layers == t[0].doc.layers
        &&& t[1].doc.settings == t[0].doc.settings
        &&& t[1].doc.dimensions == t[0].doc.dimensions
        &&& t[1].selection == t[0].selection
        &&& Editor::keeps_session(t[0], t[1])
        &&& forall|k: int| 0 <= k < segs.len() ==> Editor::segment_deleted(t[k + 1], #[trigger] t[k + 2], segs[k])
        &&& b.doc == t.last().doc
        &&& b.selection@ == without(t.last().selection@, ElementRef::Fill(f))
        &&& Editor::keeps_session(t.last(), b)
    }

    /// `b` is `a` after `delete_element(el)`.
    pub open spec fn element_deleted(a: Editor, b: Editor, el: ElementRef) -> bool {
        match el {
            ElementRef::Point(p) => {
                &&& Document::point_removed(a.doc, b.doc, p)
                &&& b.selection@ == without(a.selection@, el)
                &&& Editor::keeps_session(a, b)
            },
            ElementRef::Segment(s) => Editor::segment_deleted(a, b, s),
            ElementRef::Fill(f) => exists|t: Seq<Editor>| #[trigger] Editor::fill_trace(a, b, f, t),
            ElementRef::Path(q) => {
                &&& Document::path_removed(a.doc, b.doc, q)
                &&& b.selection@ == without(a.selection@, el)
                &&& Editor::keeps_session(a, b)
            },
        }
    }
}

impl Document {
    /// Whether every live element can still be removed (its slot
    /// generation can be bumped).
    pub fn generations_ok(&self) -> (r: bool)
        ensures
            r == self.live_gens_ok(),
    {
        self.points.all_bumpable() && self.segments.all_bumpable() && self.fills.all_bumpable()
            && self.paths.all_bumpable()
    }

    /// Whether a live segment starts or ends at `p`.
    fn segment_end_at(&self, p: PointId) -> (r: bool)
        ensures
            r == has_segment_end(*self, p),
    {
        let mut i: usize = 0;
        while i < self.segments.slots.len()
            invariant
                i <= self.segments.slots@.len(),
                forall|j: int| 0 <= j < i && #[trigger] self.segments.is_live(j) ==>
                    self.segments.slots@[j].value.unwrap().start != p && self.segments.slots@[j].value.unwrap().end != p,
            decreases self.segments.slots@.len() - i,
        {
            match &self.segments.slots[i].value {
                Some(seg) => {
                    if seg.start == p || seg.end == p {
                        proof {
                            assert(self.segments.is_live(i as int));
                        }
                        return true;
                    }
                },
                None => {},
            }
            i = i + 1;
        }
        false
    }

    /// Whether a segment endpoint, a constraint or a point dimension still
    /// holds `p`.
    fn point_still_used(&self, p: PointId) -> (r: bool)
        ensures
            r == still_used(*self, p),
    {
        if self.segment_end_at(p) {
            return true;
        }
        let mut k: usize = 0;
        while k < self.constraints.len()
            invariant
                k <= self.constraints@.len(),
                forall|j: int| 0 <= j < k ==> (#[trigger] self.constraints@[j]).a != p && self.constraints@[j].b != p,
            decreases self.constraints@.len() - k,
        {
            if self.constraints[k].a == p || self.constraints[k].b == p {
                proof {
                    assert(self.constraints@[k as int].a == p || self.constraints@[k as int].b == p);
                }
                return true;
            }
            k = k + 1;
        }
        let mut k: usize = 0;
        while k < self.dimensions.len()
            invariant
                k <= self.dimensions@.len(),
                forall|j: int| 0 <= j < k ==> !dim_mentions(#[trigger] self.dimensions@[j], p),
            decreases self.dimensions@.len() - k,
        {
            let hit = match self.dimensions[k].target {
                DimTarget::Points { a, b, .. } => a == p || b == p,
                DimTarget::PointLine { p: q, .. } => q == p,
                _ => false,
            };
            if hit {
                proof {
                    assert(dim_mentions(self.dimensions@[k as int], p));
                }
                return true;
            }
            k = k + 1;
        }
        false
    }

    /// Drops the dimensions that measure segment `s`.
    fn drop_dims_measuring(&mut self, s: SegmentId)
        ensures
            Document::dims_now(*old(self), *final(self), old(self).dimensions@.filter(not_measuring(s))),
    {
        let ghost pred = not_measuring(s);
        let mut kept: Vec<Dimension> = Vec::new();
        let mut i: usize = 0;
        while i < self.dimensions.len()
            invariant
                i <= self.dimensions@.len(),
                pred == not_measuring(s),
                kept@ == self.dimensions@.take(i as int).filter(pred),
            decreases self.dimensions@.len() - i,
        {
            proof {
                assert(self.dimensions@.take(i as int + 1) == self.dimensions@.take(i as int).push(self.dimensions@[i as int]));
                self.dimensions@.take(i as int).lemma_filter_push(self.dimensions@[i as int], pred);
            }
            let d = self.dimensions[i];
            let hit = match d.target {
                DimTarget::PointLine { line, .. } => line == s,
                DimTarget::Radius { seg } => seg == s,
                DimTarget::Lines { a, b } => a == s || b == s,
                DimTarget::Angle { a, b } => a == s || b == s,
                DimTarget::Points { .. } => false,
            };
            if !hit {
                kept.push(d);
            }
            i = i + 1;
        }
        proof {
            assert(self.dimensions@.take(i as int) == self.dimensions@);
        }
        self.dimensions = kept;
    }

    /// Drops the point-pair dimensions whose two points both lost every
    /// segment.
    fn drop_orphan_length_dims(&mut self)
        ensures
            Document::dims_now(*old(self), *final(self), old(self).dimensions@.filter(keeps_length(*old(self)))),
    {
        let ghost d0 = *self;
        let ghost pred = keeps_length(d0);
        let mut kept: Vec<Dimension> = Vec::new();
        let mut i: usize = 0;
        while i < self.dimensions.len()
            invariant
                i <= self.dimensions@.len(),
                pred == keeps_length(d0),
                d0 == *self,
                kept@ == self.dimensions@.take(i as int).filter(pred),
            decreases self.dimensions@.len() - i,
        {
            proof {
                assert(self.dimensions@.take(i as int + 1) == self.dimensions@.take(i as int).push(self.dimensions@[i as int]));
                self.dimensions@.take(i as int).lemma_filter_push(self.dimensions@[i as int], pred);
            }
            let d = self.dimensions[i];
            let keep = match d.target {
                DimTarget::Points { a, b, .. } => {
                    let sa = self.point(a).is_some() && !self.segment_end_at(a);
                    let sb = self.point(b).is_some() && !self.segment_end_at(b);
                    !(sa && sb)
                },
                _ => true,
            };
            if keep {
                kept.push(d);
            }
            i = i + 1;
        }
        proof {
            assert(self.dimensions@.take(i as int) == self.dimensions@);
        }
        self.dimensions = kept;
    }

    /// Drops the constraints with both points in `pts`.
    fn drop_constraints_inside(&mut self, pts: &Vec<PointId>)
        ensures
            final(self).constraints@ == old(self).constraints@.filter(not_inside(pts@)),
            final(self).same_geometry(old(self)),
            final(self).layers == old(self).layers,
            final(self).settings == old(self).settings,
            final(self).dimensions == old(self).dimensions,
    {
        let ghost pred = not_inside(pts@);
        let mut kept: Vec<Constraint> = Vec::new();
        let mut i: usize = 0;
        while i < self.constraints.len()
            invariant
                i <= self.constraints@.len(),
                pred == not_inside(pts@),
                kept@ == self.constraints@.take(i as int).filter(pred),
            decreases self.constraints@.len() - i,
        {
            proof {
                assert(self.constraints@.take(i as int + 1) == self.constraints@.take(i as int).push(self.constraints@[i as int]));
                self.constraints@.take(i as int).lemma_filter_push(self.constraints@[i as int], pred);
            }
            let c = self.constraints[i];
            if !(contains_point(pts, c.a) && contains_point(pts, c.b)) {
                kept.push(c);
            }
            i = i + 1;
        }
        proof {
            assert(self.constraints@.take(i as int) == self.constraints@);
        }
        self.constraints = kept;
    }
}

/// An item of a filtered sequence is an item of the sequence.
pub proof fn lemma_filter_member<A>(s: Seq<A>, p: spec_fn(A) -> bool, j: int)
    requires
        0 <= j < s.filter(p).len(),
    ensures
        s.contains(s.filter(p)[j]),
{
    assert(s.filter(p).contains(s.filter(p)[j]));
    s.lemma_filter_contains_rev(p, s.filter(p)[j]);
}

pub proof fn lemma_without_drops(s: Seq<ElementRef>, el: ElementRef)
    ensures
        !without(s, el).contains(el),
{
    broadcast use vstd::seq_lib::group_filter_ensures;
    if without(s, el).contains(el) {
        let k = choose|k: int| 0 <= k < without(s, el).len() && without(s, el)[k] == el;
        assert(outside(set![el])(without(s, el)[k]));
    }
}

/// Removes every occurrence of `el` from `v`.
pub fn retain_other(v: &mut Vec<ElementRef>, el: ElementRef)
    ensures
        final(v)@ == without(old(v)@, el),
{
    let ghost pred = outside(set![el]);
    let mut kept: Vec<ElementRef> = Vec::new();
    let mut i: usize = 0;
    while i < v.len()
        invariant
            i <= v@.len(),
            pred == outside(set![el]),
            kept@ == v@.take(i as int).filter(pred),
        decreases v@.len() - i,
    {
        proof {
            assert(v@.take(i as int + 1) == v@.take(i as int).push(v@[i as int]));
            v@.take(i as int).lemma_filter_push(v@[i as int], pred);
        }
        let e = v[i];
        assert(pred(e) == (e != el));
        if e != el {
            kept.push(e);
        }
        i = i + 1;
    }
    proof {
        assert(v@.take(i as int) == v@);
    }
    *v = kept;
}

impl Editor {
    /// Deletes segment `s`, then removes its end points that nothing holds
    /// any more and the point-pair dimensions left between segment-less
    /// points.
    fn delete_segment(&mut self, s: SegmentId)
        requires
            old(self).wf(),
            old(self).doc.live_gens_ok(),
        ensures
            final(self).wf(),
            final(self).doc.live_gens_ok(),
            Editor::segment_deleted(*old(self), *final(self), s),
            final(self).doc.sg(s) is None,
            forall|i: int| #[trigger] final(self).doc.segments.is_live(i) ==> old(self).doc.segments.is_live(i)
                && final(self).doc.segments.slots@[i] == old(self).doc.segments.slots@[i],
            forall|i: int| #[trigger] final(self).doc.fills.is_live(i) ==> old(self).doc.fills.is_live(i)
                && final(self).doc.fills.slots@[i] == old(self).doc.fills.slots@[i],
            forall|k: int| 0 <= k < final(self).doc.dimensions@.len() ==> !measures(#[trigger] final(self).doc.dimensions@[k], s),
            !final(self).selection@.contains(ElementRef::Segment(s)),
    {
        broadcast use vstd::seq_lib::group_filter_ensures;
        let ghost a = self.doc;
        let ghost e = *self;
        self.doc.drop_dims_measuring(s);
        let ends: Vec<PointId> = match self.doc.segment(s) {
            Some(seg) => {
                let mut v: Vec<PointId> = Vec::new();
                v.push(seg.start);
                v.push(seg.end);
                match seg.ctrl {
                    Some(c) => v.push(c),
                    None => {},
                }
                match seg.center {
                    Some(c) => v.push(c),
                    None => {},
                }
                v
            },
            None => Vec::new(),
        };
        proof {
            assert(ends@ =~= seg_ends(a, s));
        }
        let ghost d0 = self.doc;
        proof {
            assert forall|j: int| 0 <= j < d0.dimensions@.len() implies !measures(#[trigger] d0.dimensions@[j], s) by {
                assert(not_measuring(s)(d0.dimensions@[j]));
            }
        }
        self.doc.remove_segment(s);
        proof {
            assert forall|i: int| #[trigger] self.doc.segments.is_live(i) implies e.doc.segments.is_live(i) by {
                assert(self.doc.segments.slots@[i] == d0.segments.slots@[i]);
            }
            assert forall|i: int| #[trigger] self.doc.fills.is_live(i) implies e.doc.fills.is_live(i) by {
                assert(self.doc.fills.slots@[i] == d0.fills.slots@[i]);
            }
        }
        let ghost mut t: Seq<Document> = seq![d0, self.doc];
        let mut k: usize = 0;
        while k < ends.len()
            invariant
                k <= ends@.len(),
                ends@ == seg_ends(a, s),
                t.len() == k + 2,
                t[0] == d0,
                Document::dims_now(a, d0, a.dimensions@.filter(not_measuring(s))),
                Document::segment_removed(t[0], t[1], s),
                forall|j: int| 0 <= j < k ==> Document::end_swept(t[j + 1], #[trigger] t[j + 2], ends@[j]),
                t.last() == self.doc,
                doc_ok(self.doc),
                self.doc.live_gens_ok(),
                self.selection == e.selection,
                Editor::keeps_session(e, *self),
                e.wf(),
                self.doc.sg(s) is None,
                forall|i: int| #[trigger] self.doc.segments.is_live(i) ==> e.doc.segments.is_live(i)
                    && self.doc.segments.slots@[i] == e.doc.segments.slots@[i],
                forall|i: int| #[trigger] self.doc.fills.is_live(i) ==> e.doc.fills.is_live(i)
                    && self.doc.fills.slots@[i] == e.doc.fills.slots@[i],
                forall|j: int| 0 <= j < self.doc.dimensions@.len() ==> !measures(#[trigger] self.doc.dimensions@[j], s),
            decreases ends@.len() - k,
        {
            let pid = ends[k];
            let ghost before = self.doc;
            if !self.doc.point_still_used(pid) {
                self.doc.remove_point(pid);
                proof {
                    assert forall|i: int| #[trigger] self.doc.segments.is_live(i) implies before.segments.is_live(i) by {
                        assert(self.doc.segments.slots@[i] == before.segments.slots@[i]);
                    }
                    assert forall|i: int| #[trigger] self.doc.fills.is_live(i) implies before.fills.is_live(i) by {
                        assert(self.doc.fills.slots@[i] == before.fills.slots@[i]);
                    }
                    assert(self.doc.sg(s) is None);
                    assert forall|j: int| 0 <= j < self.doc.dimensions@.len() implies !measures(#[trigger] self.doc.dimensions@[j], s) by {
                        lemma_filter_member(before.dimensions@, dims_keeping(pid), j);
                    }
                }
            }
            proof {
                assert(Document::end_swept(before, self.doc, pid));
                t = t.push(self.doc);
            }
            k = k + 1;
        }
        let ghost last = self.doc;
        self.doc.drop_orphan_length_dims();
        proof {
            assert forall|j: int| 0 <= j < self.doc.dimensions@.len() implies !measures(#[trigger] self.doc.dimensions@[j], s) by {
                lemma_filter_member(last.dimensions@, keeps_length(last), j);
            }
        }
        proof {
            assert(Document::segment_trace(a, self.doc, s, t));
        }
        retain_other(&mut self.selection, ElementRef::Segment(s));
        proof {
            assert(Document::segment_trace(e.doc, self.doc, s, t));
            assert(Editor::keeps_session(e, *self));
            lemma_without_drops(e.selection@, ElementRef::Segment(s));
        }
    }

    /// Deletes an element and takes it out of the selection. A point takes
    /// its dependents with it (see `Document::remove_point`); a segment
    /// also takes the dimensions measuring it and the end points nothing
    /// else holds; a fill takes its loop, the constraints between its
    /// corners and then each of its segments; a path is removed alone.
    pub fn delete_element(&mut self, el: ElementRef)
        requires
            old(self).wf(),
            old(self).doc.live_gens_ok(),
        ensures
            final(self).wf(),
            final(self).doc.live_gens_ok(),
            Editor::element_deleted(*old(self), *final(self), el),
            // the element is gone and no longer selected
            !element_live(final(self).doc, el),
            !final(self).selection@.contains(el),
            // nothing keeps measuring a deleted segment
            el matches ElementRef::Segment(s) ==> forall|k: int| 0 <= k < final(self).doc.dimensions@.len()
                ==> !measures(#[trigger] final(self).doc.dimensions@[k], s),
            el matches ElementRef::Segment(s) ==> forall|k: int| 0 <= k < final(self).doc.dimensions@.len()
                ==> target_spares((#[trigger] final(self).doc.dimensions@[k]).target, s),
            // a deleted fill takes its whole loop with it
            el matches ElementRef::Fill(f) ==> forall|j: int| 0 <= j < fill_segs(old(self).doc, f).len()
                ==> final(self).doc.sg(#[trigger] fill_segs(old(self).doc, f)[j]) is None,
    {
        match el {
            ElementRef::Point(p) => {
                self.doc.remove_point(p);
                retain_other(&mut self.selection, el);
                proof {
                    lemma_without_drops(old(self).selection@, el);
                }
            },
            ElementRef::Segment(s) => {
                self.delete_segment(s);
            },
            ElementRef::Fill(f) => {
                let ghost a = *self;
                let segs: Vec<SegmentId> = match self.doc.fill(f) {
                    Some(fill) => crate::duplicate::copy_vec(&fill.segments),
                    None => Vec::new(),
                };
                proof {
                    assert(segs@ == fill_segs(a.doc, f));
                }
                let pts = self.doc.element_points(ElementRef::Fill(f));
                proof {
                    assert(self.doc.fills.is_live(f.idx as int) ==> self.doc.fills.slots@[f.idx as int].generation < u32::MAX);
                }
                self.doc.remove_fill(f);
                let ghost e0 = *self;
                self.doc.drop_constraints_inside(&pts);
                let ghost mut t: Seq<Editor> = seq![e0, *self];
                let mut k: usize = 0;
                while k < segs.len()
                    invariant
                        k <= segs@.len(),
                        segs@ == fill_segs(a.doc, f),
                        pts@ == a.doc.element_points_spec(ElementRef::Fill(f)),
                        t.len() == k + 2,
                        t[0] == e0,
                        Document::fill_removed(a.doc, e0.doc, f),
                        e0.selection == a.selection,
                        Editor::keeps_session(a, e0),
                        t[1].doc.constraints@ == e0.doc.constraints@.filter(not_inside(pts@)),
                        t[1].doc.same_geometry(&e0.doc),
                        t[1].doc.layers == e0.doc.layers,
                        t[1].doc.settings == e0.doc.settings,
                        t[1].doc.dimensions == e0.doc.dimensions,
                        t[1].selection == e0.selection,
                        Editor::keeps_session(e0, t[1]),
                        forall|j: int| 0 <= j < k ==> Editor::segment_deleted(t[j + 1], #[trigger] t[j + 2], segs@[j]),
                        t.last() == *self,
                        self.wf(),
                        self.doc.live_gens_ok(),
                        self.doc.fl(f) is None,
                        forall|j: int| 0 <= j < k ==> self.doc.sg(#[trigger] segs@[j]) is None,
                    decreases segs@.len() - k,
                {
                    let ghost before = *self;
                    self.delete_segment(segs[k]);
                    proof {
                        assert forall|j: int| 0 <= j < k implies self.doc.sg(#[trigger] segs@[j]) is None by {
                            assert(before.doc.sg(segs@[j]) is None);
                            if self.doc.segments.is_live(segs@[j].idx as int) {
                                assert(self.doc.segments.slots@[segs@[j].idx as int] == before.doc.segments.slots@[segs@[j].idx as int]);
                            }
                        }
                        if self.doc.fills.is_live(f.idx as int) {
                            assert(self.doc.fills.slots@[f.idx as int] == before.doc.fills.slots@[f.idx as int]);
                        }
                        t = t.push(*self);
                        assert(Editor::segment_deleted(t[k as int + 1], t[k as int + 2], segs@[k as int]));
                    }
                    k = k + 1;
                }
                let ghost last = *self;
                retain_other(&mut self.selection, el);
                proof {
                    assert(Editor::fill_trace(a, *self, f, t));
                    lemma_without_drops(last.selection@, el);
                    assert forall|j: int| 0 <= j < fill_segs(a.doc, f).len()
                        implies self.doc.sg(#[trigger] fill_segs(a.doc, f)[j]) is None by {
                        assert(self.doc.sg(segs@[j]) is None);
                    }
                }
            },
            ElementRef::Path(q) => {
                proof {
                    assert(self.doc.paths.is_live(q.idx as int) ==> self.doc.paths.slots@[q.idx as int].generation < u32::MAX);
                }
                self.doc.remove_path(q);
                retain_other(&mut self.selection, el);
                proof {
                    lemma_without_drops(old(self).selection@, el);
                }
            },
        }
    }
}

/// Whether none of the segment fields of target `t` is `s`.
pub open spec fn target_spares(t: DimTarget, s: SegmentId) -> bool {
    match t {
        DimTarget::Points { .. } => true,
        DimTarget::PointLine { line, .. } => line != s,
        DimTarget::Lines { a, b } => a != s && b != s,
        DimTarget::Angle { a, b } => a != s && b != s,
        DimTarget::Radius { seg } => seg != s,
    }
}

/// Dropping the dimensions on segment `s` keeps exactly those whose
/// target names `s` in none of its segment fields (line, seg, a or b), in
/// their order; so no kept dimension names `s`, and every one that spares
/// it stays.
pub proof fn law_dims_on_a_segment_go(a: Document, b: Document, s: SegmentId)
    requires
        Document::dims_now(a, b, a.dimensions@.filter(not_measuring(s))),
    ensures
        forall|k: int| 0 <= k < b.dimensions@.len() ==> target_spares((#[trigger] b.dimensions@[k]).target, s),
        forall|k: int| 0 <= k < b.dimensions@.len() ==> a.dimensions@.contains(#[trigger] b.dimensions@[k]),
        forall|k: int| 0 <= k < a.dimensions@.len() && target_spares((#[trigger] a.dimensions@[k]).target, s)
            ==> b.dimensions@.contains(a.dimensions@[k]),
        b.dimensions@.len() <= a.dimensions@.len(),
{
    broadcast use vstd::seq_lib::group_filter_ensures;
    assert forall|k: int| 0 <= k < b.dimensions@.len() implies target_spares((#[trigger] b.dimensions@[k]).target, s) by {
        a.dimensions@.lemma_filter_pred(not_measuring(s), k);
    }
    assert forall|k: int| 0 <= k < b.dimensions@.len() implies a.dimensions@.contains(#[trigger] b.dimensions@[k]) by {
        lemma_filter_member(a.dimensions@, not_measuring(s), k);
    }
    assert forall|k: int| 0 <= k < a.dimensions@.len() && target_spares((#[trigger] a.dimensions@[k]).target, s)
        implies b.dimensions@.contains(a.dimensions@[k]) by {
        a.dimensions@.lemma_filter_contains(not_measuring(s), k);
    }
}

} // verus!
