//! Selection gating for the floating menu, and merging selected points.
//! Which selected pairs are close enough to merge is a distance test on
//! coordinates, made by the caller on the pairs `unglued_pairs` offers.

use vstd::prelude::*;
use crate::arena::{Arena, Slot};
use crate::constraints::{ConstraintKind, ElementRef};
use crate::document::{
    constraint_nondegenerate, point_slot_num_eq, dim_nondegenerate, layers_detached, layers_renamed, rewrite_constraints, rewrite_dims, rewrite_slot,
    Document, Segment,
};
use crate::editor::{doc_ok, Editor};
use crate::history::{live_in, retain_live};
use crate::ids::{PointId, SegmentId};

verus! {

/// The live points among the selected elements, in selection order.
pub open spec fn gated_points(d: Document, s: Seq<ElementRef>) -> Seq<PointId>
    decreases s.len(),
{
    if s.len() == 0 {
        seq![]
    } else {
        let pre = gated_points(d, s.drop_last());
        match s.last() {
            ElementRef::Point(p) => if d.pt(p) is Some { pre.push(p) } else { pre },
            _ => pre,
        }
    }
}

/// The live segments among the selected elements, in selection order.
pub open spec fn gated_segs(d: Document, s: Seq<ElementRef>) -> Seq<SegmentId>
    decreases s.len(),
{
    if s.len() == 0 {
        seq![]
    } else {
        let pre = gated_segs(d, s.drop_last());
        match s.last() {
            ElementRef::Segment(g) => if d.sg(g) is Some { pre.push(g) } else { pre },
            _ => pre,
        }
    }
}

/// Index of the first live segment slot of `s` that starts or ends at `p`.
pub open spec fn owner_scan(s: Seq<Slot<Segment>>, p: PointId) -> Option<int>
    decreases s.len(),
{
    if s.len() == 0 {
        None
    } else {
        match owner_scan(s.drop_last(), p) {
            Some(i) => Some(i),
            None => if s.last().value matches Some(g) && (g.start == p || g.end == p) {
                Some(s.len() - 1)
            } else {
                None
            },
        }
    }
}

/// Whether a coincident constraint already glues `a` and `b`.
pub open spec fn glued(d: Document, a: PointId, b: PointId) -> bool {
    exists|k: int| 0 <= k < d.constraints@.len() && {
        let c = #[trigger] d.constraints@[k];
        c.kind == ConstraintKind::Coincident && ((c.a == a && c.b == b) || (c.a == b && c.b == a))
    }
}

/// The pairs `(a, b)` for `b` in `rest` (in order) that are distinct from
/// `a` and not glued to it.
pub open spec fn pair_row(d: Document, a: PointId, rest: Seq<PointId>) -> Seq<(PointId, PointId)>
    decreases rest.len(),
{
    if rest.len() == 0 {
        seq![]
    } else {
        let pre = pair_row(d, a, rest.drop_last());
        let b = rest.last();
        if b != a && !glued(d, a, b) { pre.push((a, b)) } else { pre }
    }
}

/// The rows of the first `i` points, each point paired with those after it.
pub open spec fn pair_rows(d: Document, pts: Seq<PointId>, i: int) -> Seq<(PointId, PointId)>
    decreases i,
{
    if i <= 0 {
        seq![]
    } else {
        pair_rows(d, pts, i - 1) + pair_row(d, pts[i - 1], pts.subrange(i, pts.len() as int))
    }
}

impl Document {
    /// `b` is `a` after `merge_point(keep, drop)` with `keep != drop` and
    /// `drop` live.
    pub open spec fn merged(a: Document, b: Document, keep: PointId, drop: PointId) -> bool {
        &&& doc_ok(b)
        &&& Arena::vacated(a.points, b.points, drop.idx)
        &&& b.segments.free@ == a.segments.free@
        &&& b.segments.slots@.len() == a.segments.slots@.len()
        &&& forall|i: int| 0 <= i < a.segments.slots@.len() ==>
            #[trigger] b.segments.slots@[i] == rewrite_slot(a.segments.slots@[i], drop, keep)
        &&& b.fills == a.fills
        &&& b.paths == a.paths
        &&& b.settings == a.settings
        &&& b.constraints@ == rewrite_constraints(a.constraints@, drop, keep).filter(constraint_nondegenerate())
        &&& b.dimensions@ == rewrite_dims(a.dimensions@, drop, keep).filter(dim_nondegenerate())
        &&& layers_renamed(a.layers@, b.layers@, ElementRef::Point(drop), ElementRef::Point(keep))
    }

    /// Whether the pair `(a, b)` merges in `d`: distinct ids, both live.
    pub open spec fn merges(d: Document, pr: (PointId, PointId)) -> bool {
        pr.0 != pr.1 && d.pt(pr.0) is Some && d.pt(pr.1) is Some
    }

    /// `t` is the sequence of documents merging `pairs` in turn from `a`
    /// goes through: a pair that still merges folds its second point into
    /// its first, any other pair is skipped.
    pub open spec fn merge_trace(a: Document, pairs: Seq<(PointId, PointId)>, t: Seq<Document>) -> bool {
        &&& t.len() == pairs.len() + 1
        &&& t[0] == a
        &&& forall|k: int| 0 <= k < pairs.len() ==> if Document::merges(t[k], pairs[k]) {
            Document::merged(t[k], #[trigger] t[k + 1], pairs[k].0, pairs[k].1)
        } else {
            t[k + 1] == t[k]
        }
    }

    /// Whether some pair merged along `t`.
    pub open spec fn merged_any(pairs: Seq<(PointId, PointId)>, t: Seq<Document>) -> bool {
        exists|k: int| 0 <= k < pairs.len() && Document::merges(#[trigger] t[k], pairs[k])
    }
}

impl Editor {
    /// What `merge_selected_points(pairs)` returning `r` did to `a`, given
    /// the merge sequence `t`.
    pub open spec fn merge_outcome(a: Editor, b: Editor, pairs: Seq<(PointId, PointId)>, r: bool, t: Seq<Document>) -> bool {
        &&& Document::merge_trace(a.doc, pairs, t)
        &&& r == Document::merged_any(pairs, t)
        &&& b.gesture_snapshot is None
        &&& b.selected_constraints == a.selected_constraints
        &&& b.hovered_constraint == a.hovered_constraint
        &&& b.arc_center_reveal == a.arc_center_reveal
        &&& b.next_layer_id == a.next_layer_id
        &&& b.show_grid == a.show_grid
        &&& b.snap_to_grid == a.snap_to_grid
        &&& b.snap_to_objects == a.snap_to_objects
        &&& b.doc_gen == a.doc_gen
        &&& r ==> {
            &&& b.doc == t.last()
            &&& b.selection@ == a.selection@.filter(live_in(b.doc))
            &&& b.undo_stack@.len() == a.undo_after_flush().len() + 1
            &&& b.undo_stack@.drop_last() == a.undo_after_flush()
            &&& b.undo_stack@.last().same(&a.doc)
            &&& b.redo_stack@.len() == 0
        }
        &&& !r ==> {
            &&& b.doc == a.doc
            &&& b.selection == a.selection
            &&& b.undo_stack@ == a.undo_after_flush()
            &&& b.redo_stack@ == a.redo_after_flush()
        }
    }
}

/// The live points among the selected elements.
pub fn gate_points(doc: &Document, selection: &Vec<ElementRef>) -> (r: Vec<PointId>)
    ensures
        r@ == gated_points(*doc, selection@),
{
    let mut out: Vec<PointId> = Vec::new();
    let mut i: usize = 0;
    while i < selection.len()
        invariant
            i <= selection@.len(),
            out@ == gated_points(*doc, selection@.take(i as int)),
        decreases selection@.len() - i,
    {
        proof {
            assert(selection@.take(i as int + 1).drop_last() =~= selection@.take(i as int));
        }
        match selection[i] {
            ElementRef::Point(p) => {
                if doc.point(p).is_some() {
                    out.push(p);
                }
            },
            _ => {},
        }
        i = i + 1;
    }
    proof {
        assert(selection@.take(i as int) =~= selection@);
    }
    out
}

/// The live segments among the selected elements.
pub fn gate_segs(doc: &Document, selection: &Vec<ElementRef>) -> (r: Vec<SegmentId>)
    ensures
        r@ == gated_segs(*doc, selection@),
{
    let mut out: Vec<SegmentId> = Vec::new();
    let mut i: usize = 0;
    while i < selection.len()
        invariant
            i <= selection@.len(),
            out@ == gated_segs(*doc, selection@.take(i as int)),
        decreases selection@.len() - i,
    {
        proof {
            assert(selection@.take(i as int + 1).drop_last() =~= selection@.take(i as int));
        }
        match selection[i] {
            ElementRef::Segment(g) => {
                if doc.segment(g).is_some() {
                    out.push(g);
                }
            },
            _ => {},
        }
        i = i + 1;
    }
    proof {
        assert(selection@.take(i as int) =~= selection@);
    }
    out
}

proof fn lemma_owner_scan_step(s: Seq<Slot<Segment>>, p: PointId, k: int)
    requires
        0 <= k < s.len(),
    ensures
        owner_scan(s.take(k + 1), p) == match owner_scan(s.take(k), p) {
            Some(i) => Some(i),
            None => if s[k].value matches Some(g) && (g.start == p || g.end == p) {
                Some(k)
            } else {
                None
            },
        },
{
    assert(s.take(k + 1).drop_last() =~= s.take(k));
}

proof fn lemma_owner_scan_keep(s: Seq<Slot<Segment>>, p: PointId, k: int)
    requires
        0 <= k <= s.len(),
        owner_scan(s.take(k), p) is Some,
    ensures
        owner_scan(s, p) == owner_scan(s.take(k), p),
    decreases s.len() - k,
{
    if k < s.len() {
        lemma_owner_scan_step(s, p, k);
        lemma_owner_scan_keep(s, p, k + 1);
    } else {
        assert(s.take(k) =~= s);
    }
}

/// The first live segment (by slot index) starting or ending at `pid`.
pub fn owner_segment(doc: &Document, pid: PointId) -> (r: Option<SegmentId>)
    requires
        doc.wf(),
    ensures
        r == (match owner_scan(doc.segments.slots@, pid) {
            Some(i) => Some(SegmentId { idx: i as u32, generation: doc.segments.slots@[i].generation }),
            None => None,
        }),
{
    let slots = &doc.segments.slots;
    let mut i: usize = 0;
    while i < slots.len()
        invariant
            i <= slots@.len(),
            slots@ == doc.segments.slots@,
            doc.wf(),
            owner_scan(slots@.take(i as int), pid) is None,
        decreases slots@.len() - i,
    {
        proof {
            lemma_owner_scan_step(slots@, pid, i as int);
        }
        match &slots[i].value {
            Some(g) => {
                if g.start == pid || g.end == pid {
                    proof {
                        lemma_owner_scan_keep(slots@, pid, i as int + 1);
                    }
                    return Some(SegmentId { idx: i as u32, generation: slots[i].generation });
                }
            },
            None => {},
        }
        i = i + 1;
    }
    proof {
        assert(slots@.take(i as int) =~= slots@);
    }
    None
}

/// Whether one live segment has `a` and `b` as its two endpoints.
pub fn same_segment_owner(doc: &Document, a: PointId, b: PointId) -> (r: bool)
    ensures
        r == exists|i: int| #[trigger] doc.segments.is_live(i) && {
            let g = doc.segments.slots@[i].value.unwrap();
            (g.start == a && g.end == b) || (g.start == b && g.end == a)
        },
{
    let mut i: usize = 0;
    while i < doc.segments.slots.len()
        invariant
            i <= doc.segments.slots@.len(),
            forall|j: int| 0 <= j < i && #[trigger] doc.segments.is_live(j) ==> {
                let g = doc.segments.slots@[j].value.unwrap();
                !((g.start == a && g.end == b) || (g.start == b && g.end == a))
            },
        decreases doc.segments.slots@.len() - i,
    {
        match &doc.segments.slots[i].value {
            Some(g) => {
                if (g.start == a && g.end == b) || (g.start == b && g.end == a) {
                    proof {
                        assert(doc.segments.is_live(i as int));
                    }
                    return true;
                }
            },
            None => {},
        }
        i = i + 1;
    }
    false
}

/// Whether a coincident constraint already glues `a` and `b`.
fn is_glued(doc: &Document, a: PointId, b: PointId) -> (r: bool)
    ensures
        r == glued(*doc, a, b),
{
    let mut k: usize = 0;
    while k < doc.constraints.len()
        invariant
            k <= doc.constraints@.len(),
            forall|j: int| 0 <= j < k ==> {
                let c = #[trigger] doc.constraints@[j];
                !(c.kind == ConstraintKind::Coincident && ((c.a == a && c.b == b) || (c.a == b && c.b == a)))
            },
        decreases doc.constraints@.len() - k,
    {
        let c = doc.constraints[k];
        if c.kind == ConstraintKind::Coincident && ((c.a == a && c.b == b) || (c.a == b && c.b == a)) {
            proof {
                assert(doc.constraints@[k as int] == c);
            }
            return true;
        }
        k = k + 1;
    }
    false
}

/// Every pair of selected live points, in selection order (each point
/// with those after it), that are distinct and not glued already. The
/// merge menu offers the ones among them that lie close together.
pub fn unglued_pairs(doc: &Document, selection: &Vec<ElementRef>) -> (r: Vec<(PointId, PointId)>)
    ensures
        r@ == pair_rows(*doc, gated_points(*doc, selection@), gated_points(*doc, selection@).len() as int),
{
    let points = gate_points(doc, selection);
    let mut out: Vec<(PointId, PointId)> = Vec::new();
    let mut i: usize = 0;
    while i < points.len()
        invariant
            i <= points@.len(),
            out@ == pair_rows(*doc, points@, i as int),
        decreases points@.len() - i,
    {
        let a = points[i];
        let ghost base = out@;
        let mut j: usize = i + 1;
        proof {
            assert(points@.subrange(i as int + 1, j as int) =~= Seq::<PointId>::empty());
        }
        while j < points.len()
            invariant
                i < points@.len(),
                i + 1 <= j <= points@.len(),
                a == points@[i as int],
                out@ == base + pair_row(*doc, a, points@.subrange(i as int + 1, j as int)),
            decreases points@.len() - j,
        {
            let b = points[j];
            proof {
                assert(points@.subrange(i as int + 1, j as int + 1).drop_last() =~= points@.subrange(i as int + 1, j as int));
            }
            if a != b && !is_glued(doc, a, b) {
                out.push((a, b));
                proof {
                    assert(out@ =~= base + pair_row(*doc, a, points@.subrange(i as int + 1, j as int + 1)));
                }
            }
            j = j + 1;
        }
        i = i + 1;
    }
    out
}

impl Editor {
    /// Merges the given candidate pairs (second point into first), as one
    /// undo step. Pairs whose points are equal or no longer live (an
    /// earlier merge consumed them) are skipped; returns whether anything
    /// merged. Afterwards the selection keeps only live elements.
    pub fn merge_selected_points(&mut self, pairs: &Vec<(PointId, PointId)>) -> (r: bool)
        requires
            old(self).wf(),
            old(self).doc.live_gens_ok(),
        ensures
            final(self).wf(),
            final(self).doc.live_gens_ok(),
            pairs@.len() == 0 ==> !r && *final(self) == *old(self),
            pairs@.len() > 0 ==> exists|t: Seq<Document>| #[trigger] Editor::merge_outcome(*old(self), *final(self), pairs@, r, t),
    {
        if pairs.len() == 0 {
            return false;
        }
        let ghost a = *self;
        self.history_begin();
        let ghost b = *self;
        let mut merged_any = false;
        let ghost mut t: Seq<Document> = seq![self.doc];
        let ghost mut hit: int = -1;
        let mut k: usize = 0;
        while k < pairs.len()
            invariant
                k <= pairs@.len(),
                t.len() == k + 1,
                t[0] == a.doc,
                forall|j: int| 0 <= j < k ==> if Document::merges(t[j], pairs@[j]) {
                    Document::merged(t[j], #[trigger] t[j + 1], pairs@[j].0, pairs@[j].1)
                } else {
                    t[j + 1] == t[j]
                },
                t.last() == self.doc,
                merged_any ==> 0 <= hit < k,
                !merged_any ==> hit == -1,
                !merged_any ==> self.doc == a.doc,
                self.doc.points.slots@.len() == a.doc.points.slots@.len(),
                merged_any ==> Document::merges(t[hit], pairs@[hit]),
                !merged_any ==> forall|j: int| 0 <= j < k ==> !Document::merges(#[trigger] t[j], pairs@[j]),
                merged_any ==> !self.doc.points.is_live(pairs@[hit].1.idx as int),
                merged_any ==> a.doc.points.is_live(pairs@[hit].1.idx as int),
                forall|i: int| #[trigger] self.doc.points.is_live(i) ==> a.doc.points.is_live(i),
                doc_ok(self.doc),
                self.doc.live_gens_ok(),
                self.selection == b.selection,
                self.undo_stack == b.undo_stack,
                self.redo_stack == b.redo_stack,
                self.gesture_snapshot == b.gesture_snapshot,
                Editor::began(a, b),
                b.wf(),
                self.selected_constraints == b.selected_constraints,
                self.hovered_constraint == b.hovered_constraint,
                self.arc_center_reveal == b.arc_center_reveal,
                self.next_layer_id == b.next_layer_id,
                self.show_grid == b.show_grid,
                self.snap_to_grid == b.snap_to_grid,
                self.snap_to_objects == b.snap_to_objects,
                self.doc_gen == b.doc_gen,
            decreases pairs@.len() - k,
        {
            let (p, q) = pairs[k];
            let ghost before = self.doc;
            if p != q && self.doc.point(p).is_some() && self.doc.point(q).is_some() {
                self.doc.merge_point(p, q);
                proof {
                    assert forall|i: int| #[trigger] self.doc.points.is_live(i) implies before.points.is_live(i) by {}
                    if !merged_any {
                        hit = k as int;
                    }
                }
                merged_any = true;
            }
            proof {
                t = t.push(self.doc);
                assert(Document::merges(before, pairs@[k as int]) ==> Document::merged(t[k as int], t[k as int + 1], pairs@[k as int].0, pairs@[k as int].1));
            }
            k = k + 1;
        }
        if !merged_any {
            self.gesture_snapshot = None;
            proof {
                assert(!Document::merged_any(pairs@, t));
                assert(Editor::merge_outcome(a, *self, pairs@, false, t));
            }
            return false;
        }
        retain_live(&mut self.selection, &self.doc);
        let ghost c = *self;
        proof {
            let s = b.gesture_snapshot.unwrap();
            let i = pairs@[hit].1.idx as int;
            assert(s.points.slots@ == a.doc.points.slots@);
            assert(!self.doc.points.is_live(i));
            assert(s.points.slots@[i].value is Some);
            assert(!point_slot_num_eq(s.points.slots@[i], self.doc.points.slots@[i]));
            assert(!s.equals(&self.doc));
        }
        self.flush_pending_history();
        proof {
            assert(Document::merged_any(pairs@, t));
            assert(self.undo_stack@.drop_last() =~= a.undo_after_flush());
            assert(Editor::merge_outcome(a, *self, pairs@, true, t));
        }
        true
    }
}

} // verus!
