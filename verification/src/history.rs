//! Undo/redo over whole-document snapshots. `history_begin` snapshots the
//! document before a possibly-mutating operation; the snapshot becomes an
//! undo step only if the document differs when it is flushed, numbers
//! compared as IEEE-754 values.

use vstd::prelude::*;
use crate::constraints::{Constraint, ElementRef};
use crate::ids::{PointId, SegmentId};
use crate::document::{contains_constraint, law_equal_documents_agree, law_same_without_nan_equals, Document};
use crate::duplicate::law_same_keeps_validity;
use crate::editor::{doc_ok, Editor};

verus! {

/// Whether `el` names a live element of `d`.
pub open spec fn element_live(d: Document, el: ElementRef) -> bool {
    match el {
        ElementRef::Point(p) => d.pt(p) is Some,
        ElementRef::Segment(s) => d.sg(s) is Some,
        ElementRef::Fill(f) => d.fl(f) is Some,
        ElementRef::Path(p) => d.ph(p) is Some,
    }
}

pub open spec fn live_in(d: Document) -> spec_fn(ElementRef) -> bool {
    |el: ElementRef| element_live(d, el)
}

pub open spec fn stored_in(d: Document) -> spec_fn(Constraint) -> bool {
    |c: Constraint| d.constraints@.contains(c)
}

/// Keeps the elements of `v` that are live in `d`, in order.
pub fn retain_live(v: &mut Vec<ElementRef>, d: &Document)
    ensures
        final(v)@ == old(v)@.filter(live_in(*d)),
{
    let ghost pred = live_in(*d);
    let mut kept: Vec<ElementRef> = Vec::new();
    let mut i: usize = 0;
    while i < v.len()
        invariant
            i <= v@.len(),
            pred == live_in(*d),
            kept@ == v@.take(i as int).filter(pred),
        decreases v@.len() - i,
    {
        proof {
            assert(v@.take(i as int + 1) == v@.take(i as int).push(v@[i as int]));
            v@.take(i as int).lemma_filter_push(v@[i as int], pred);
        }
        let el = v[i];
        let live = match el {
            ElementRef::Point(p) => d.point(p).is_some(),
            ElementRef::Segment(s) => d.segment(s).is_some(),
            ElementRef::Fill(f) => d.fill(f).is_some(),
            ElementRef::Path(p) => d.path(p).is_some(),
        };
        if live {
            kept.push(el);
        }
        i = i + 1;
    }
    proof {
        assert(v@.take(i as int) == v@);
    }
    *v = kept;
}

impl Editor {
    /// A snapshot is pending and the document no longer equals it (numbers
    /// compared as IEEE-754 values).
    pub open spec fn pending_change(&self) -> bool {
        self.gesture_snapshot matches Some(s) && !s.equals(&self.doc)
    }

    /// The undo stack once the pending snapshot is flushed.
    pub open spec fn undo_after_flush(&self) -> Seq<Document> {
        if self.pending_change() {
            self.undo_stack@.push(self.gesture_snapshot.unwrap())
        } else {
            self.undo_stack@
        }
    }

    /// The redo stack once the pending snapshot is flushed: a committed
    /// change forgets what could be redone.
    pub open spec fn redo_after_flush(&self) -> Seq<Document> {
        if self.pending_change() {
            Seq::empty()
        } else {
            self.redo_stack@
        }
    }

    /// `b` is `a` with only the history fields possibly changed.
    pub open spec fn same_session(a: Editor, b: Editor) -> bool {
        &&& b.selection == a.selection
        &&& b.selected_constraints == a.selected_constraints
        &&& b.hovered_constraint == a.hovered_constraint
        &&& b.arc_center_reveal == a.arc_center_reveal
        &&& b.next_layer_id == a.next_layer_id
        &&& b.show_grid == a.show_grid
        &&& b.snap_to_grid == a.snap_to_grid
        &&& b.snap_to_objects == a.snap_to_objects
        &&& b.doc_gen == a.doc_gen
    }

    /// `b` is `a` after `flush_pending_history`.
    pub open spec fn flushed(a: Editor, b: Editor) -> bool {
        &&& b.doc == a.doc
        &&& b.gesture_snapshot is None
        &&& b.undo_stack@ == a.undo_after_flush()
        &&& b.redo_stack@ == a.redo_after_flush()
        &&& Editor::same_session(a, b)
    }

    /// `b` is `a` after `history_begin`.
    pub open spec fn began(a: Editor, b: Editor) -> bool {
        &&& b.doc == a.doc
        &&& b.gesture_snapshot matches Some(s) && s.same(&a.doc)
        &&& b.undo_stack@ == a.undo_after_flush()
        &&& b.redo_stack@ == a.redo_after_flush()
        &&& Editor::same_session(a, b)
    }

    /// `b` is `a` after `after_history_restore`: selections keep only what
    /// still exists; hover and revealed arc centers are cleared.
    pub open spec fn restored(a: Editor, b: Editor) -> bool {
        &&& b.doc == a.doc
        &&& b.undo_stack == a.undo_stack
        &&& b.redo_stack == a.redo_stack
        &&& b.gesture_snapshot == a.gesture_snapshot
        &&& b.selection@ == a.selection@.filter(live_in(a.doc))
        &&& b.selected_constraints@ == a.selected_constraints@.filter(stored_in(a.doc))
        &&& b.hovered_constraint is None
        &&& b.arc_center_reveal@.len() == 0
        &&& b.next_layer_id == a.next_layer_id
        &&& b.show_grid == a.show_grid
        &&& b.snap_to_grid == a.snap_to_grid
        &&& b.snap_to_objects == a.snap_to_objects
        &&& b.doc_gen == a.doc_gen
    }

    /// `b` is `a` after `undo` returned `r`: with a step to undo, the
    /// document becomes the last undo snapshot and the replaced document
    /// goes on the redo stack.
    pub open spec fn undone(a: Editor, b: Editor, r: bool) -> bool {
        let u = a.undo_after_flush();
        let rd = a.redo_after_flush();
        &&& r == (u.len() > 0)
        &&& b.gesture_snapshot is None
        &&& r ==> {
            &&& b.doc == u.last()
            &&& b.undo_stack@ == u.drop_last()
            &&& b.redo_stack@ == rd.push(a.doc)
            &&& b.selection@ == a.selection@.filter(live_in(b.doc))
            &&& b.selected_constraints@ == a.selected_constraints@.filter(stored_in(b.doc))
            &&& b.hovered_constraint is None
            &&& b.arc_center_reveal@.len() == 0
            &&& b.next_layer_id == a.next_layer_id
            &&& b.show_grid == a.show_grid
            &&& b.snap_to_grid == a.snap_to_grid
            &&& b.snap_to_objects == a.snap_to_objects
            &&& b.doc_gen == a.doc_gen
        }
        &&& !r ==> {
            &&& b.doc == a.doc
            &&& b.undo_stack@ == u
            &&& b.redo_stack@ == rd
            &&& Editor::same_session(a, b)
        }
    }

    /// `b` is `a` after `redo` returned `r`: the mirror of `undone`.
    pub open spec fn redone(a: Editor, b: Editor, r: bool) -> bool {
        let u = a.undo_after_flush();
        let rd = a.redo_after_flush();
        &&& r == (rd.len() > 0)
        &&& b.gesture_snapshot is None
        &&& r ==> {
            &&& b.doc == rd.last()
            &&& b.redo_stack@ == rd.drop_last()
            &&& b.undo_stack@ == u.push(a.doc)
            &&& b.selection@ == a.selection@.filter(live_in(b.doc))
            &&& b.selected_constraints@ == a.selected_constraints@.filter(stored_in(b.doc))
            &&& b.hovered_constraint is None
            &&& b.arc_center_reveal@.len() == 0
            &&& b.next_layer_id == a.next_layer_id
            &&& b.show_grid == a.show_grid
            &&& b.snap_to_grid == a.snap_to_grid
            &&& b.snap_to_objects == a.snap_to_objects
            &&& b.doc_gen == a.doc_gen
        }
        &&& !r ==> {
            &&& b.doc == a.doc
            &&& b.undo_stack@ == u
            &&& b.redo_stack@ == rd
            &&& Editor::same_session(a, b)
        }
    }

    /// Commits the pending snapshot now, if the document changed since it.
    pub fn flush_pending_history(&mut self)
        requires
            old(self).wf(),
        ensures
            final(self).wf(),
            Editor::flushed(*old(self), *final(self)),
    {
        let snap = self.gesture_snapshot.take();
        match snap {
            Some(s) => {
                if !s.equal_to(&self.doc) {
                    self.undo_stack.push(s);
                    self.redo_stack.clear();
                }
            },
            None => {},
        }
    }

    /// Marks the start of a possibly-mutating operation: flushes, then
    /// snapshots the document.
    pub fn history_begin(&mut self)
        requires
            old(self).wf(),
        ensures
            final(self).wf(),
            Editor::began(*old(self), *final(self)),
    {
        self.flush_pending_history();
        let snap = self.doc.duplicate();
        proof {
            law_same_keeps_validity(snap, self.doc);
        }
        self.gesture_snapshot = Some(snap);
    }

    /// Re-derives session state after undo/redo swapped the document:
    /// selections keep only what still exists.
    pub fn after_history_restore(&mut self)
        ensures
            Editor::restored(*old(self), *final(self)),
    {
        let ghost d = self.doc;
        retain_live(&mut self.selection, &self.doc);
        let ghost cpred = stored_in(d);
        let mut ckept: Vec<Constraint> = Vec::new();
        let mut i: usize = 0;
        while i < self.selected_constraints.len()
            invariant
                i <= self.selected_constraints@.len(),
                cpred == stored_in(d),
                d == self.doc,
                ckept@ == self.selected_constraints@.take(i as int).filter(cpred),
            decreases self.selected_constraints@.len() - i,
        {
            proof {
                assert(self.selected_constraints@.take(i as int + 1)
                    == self.selected_constraints@.take(i as int).push(self.selected_constraints@[i as int]));
                self.selected_constraints@.take(i as int).lemma_filter_push(self.selected_constraints@[i as int], cpred);
            }
            let c = self.selected_constraints[i];
            if contains_constraint(&self.doc.constraints, &c) {
                ckept.push(c);
            }
            i = i + 1;
        }
        proof {
            assert(self.selected_constraints@.take(i as int) == self.selected_constraints@);
        }
        self.selected_constraints = ckept;
        self.hovered_constraint = None;
        self.arc_center_reveal.clear();
    }

    /// Steps back one snapshot; false when there is nothing to undo.
    pub fn undo(&mut self) -> (r: bool)
        requires
            old(self).wf(),
        ensures
            final(self).wf(),
            Editor::undone(*old(self), *final(self), r),
    {
        self.flush_pending_history();
        match self.undo_stack.pop() {
            Some(prev) => {
                let mut cur = prev;
                std::mem::swap(&mut self.doc, &mut cur);
                self.redo_stack.push(cur);
                self.after_history_restore();
                true
            },
            None => false,
        }
    }

    /// Steps forward one snapshot; false when there is nothing to redo.
    pub fn redo(&mut self) -> (r: bool)
        requires
            old(self).wf(),
        ensures
            final(self).wf(),
            Editor::redone(*old(self), *final(self), r),
    {
        self.flush_pending_history();
        match self.redo_stack.pop() {
            Some(next) => {
                let mut cur = next;
                std::mem::swap(&mut self.doc, &mut cur);
                self.undo_stack.push(cur);
                self.after_history_restore();
                true
            },
            None => false,
        }
    }
}

/// Undo followed by redo gives back the document, with the history as it
/// stood once the pending snapshot was committed.
pub proof fn law_undo_then_redo(a: Editor, b: Editor, c: Editor)
    requires
        Editor::undone(a, b, true),
        Editor::redone(b, c, true),
    ensures
        c.doc == a.doc,
        c.undo_stack@ == a.undo_after_flush(),
        c.redo_stack@ == a.redo_after_flush(),
{
    assert(!b.pending_change());
    assert(b.undo_stack@.push(b.doc) =~= a.undo_after_flush());
    assert(b.redo_stack@.drop_last() =~= a.redo_after_flush());
}

/// Redo followed by undo gives back the document and both stacks.
pub proof fn law_redo_then_undo(a: Editor, b: Editor, c: Editor)
    requires
        Editor::redone(a, b, true),
        Editor::undone(b, c, true),
    ensures
        c.doc == a.doc,
        c.undo_stack@ == a.undo_after_flush(),
        c.redo_stack@ == a.redo_after_flush(),
{
    assert(!b.pending_change());
    assert(b.redo_stack@.push(b.doc) =~= a.redo_after_flush());
    assert(b.undo_stack@.drop_last() =~= a.undo_after_flush());
}

/// A gesture that leaves a document without NaNs unchanged adds no undo
/// step.
pub proof fn law_unchanged_gesture_adds_no_step(a: Editor, b: Editor, c: Editor)
    requires
        a.doc.nan_free(),
        Editor::began(a, b),
        Editor::flushed(b, c),
    ensures
        c.doc == a.doc,
        c.undo_stack@ == a.undo_after_flush(),
        c.redo_stack@ == a.redo_after_flush(),
{
    law_same_without_nan_equals(b.gesture_snapshot.unwrap(), a.doc);
    assert(!b.pending_change());
}

/// A gesture that changed the document is one undo step, and undoing it
/// restores the document as it was when the gesture began.
pub proof fn law_undo_reverts_gesture(a: Editor, b: Editor, c: Editor, d: Editor)
    requires
        Editor::began(a, b),
        c.gesture_snapshot == b.gesture_snapshot,
        c.undo_stack == b.undo_stack,
        !b.gesture_snapshot.unwrap().equals(&c.doc),
        Editor::undone(c, d, true),
    ensures
        d.doc.same(&a.doc),
        d.undo_stack@ == a.undo_after_flush(),
        d.redo_stack@.last() == c.doc,
{
    assert(c.pending_change());
    assert(c.undo_after_flush().drop_last() =~= a.undo_after_flush());
}

/// A gesture that changes the dimension list (its length or a target),
/// the constraint list, or which points or segments exist is one undo
/// step: flushing it commits the document as it was when the gesture
/// began, and the next undo succeeds and brings that document back.
pub proof fn law_changed_gesture_is_a_step(a: Editor, b: Editor, c: Editor, d: Editor)
    requires
        Editor::began(a, b),
        c.gesture_snapshot == b.gesture_snapshot,
        c.undo_stack == b.undo_stack,
        ({
            ||| c.doc.dimensions@.len() != a.doc.dimensions@.len()
            ||| exists|i: int| 0 <= i < a.doc.dimensions@.len() && i < c.doc.dimensions@.len()
                && (#[trigger] c.doc.dimensions@[i]).target != a.doc.dimensions@[i].target
            ||| c.doc.constraints@ != a.doc.constraints@
            ||| exists|p: PointId| (#[trigger] c.doc.pt(p) is Some) != (a.doc.pt(p) is Some)
            ||| exists|g: SegmentId| (#[trigger] c.doc.sg(g) is Some) != (a.doc.sg(g) is Some)
        }),
        Editor::flushed(c, d),
    ensures
        d.undo_stack@.len() == a.undo_after_flush().len() + 1,
        d.undo_stack@.drop_last() == a.undo_after_flush(),
        d.undo_stack@.last().same(&a.doc),
        d.redo_stack@.len() == 0,
        forall|e: Editor, r: bool| #[trigger] Editor::undone(d, e, r) ==> r && e.doc.same(&a.doc),
{
    let s = b.gesture_snapshot.unwrap();
    assert(s.same(&a.doc));
    if s.equals(&c.doc) {
        law_equal_documents_agree(s, c.doc);
        assert(s.dimensions@ == a.doc.dimensions@);
        assert(s.points.slots@ == a.doc.points.slots@);
        assert(s.segments.slots@ == a.doc.segments.slots@);
        if exists|p: PointId| (#[trigger] c.doc.pt(p) is Some) != (a.doc.pt(p) is Some) {
            let p = choose|p: PointId| (#[trigger] c.doc.pt(p) is Some) != (a.doc.pt(p) is Some);
            assert(s.pt(p) == a.doc.pt(p));
        }
        if exists|g: SegmentId| (#[trigger] c.doc.sg(g) is Some) != (a.doc.sg(g) is Some) {
            let g = choose|g: SegmentId| (#[trigger] c.doc.sg(g) is Some) != (a.doc.sg(g) is Some);
            assert(s.sg(g) == a.doc.sg(g));
        }
        assert(false);
    }
    assert(c.pending_change());
    assert(c.undo_after_flush().drop_last() =~= a.undo_after_flush());
    assert forall|e: Editor, r: bool| #[trigger] Editor::undone(d, e, r) implies r && e.doc.same(&a.doc) by {
        assert(!d.pending_change());
        assert(d.undo_after_flush() == d.undo_stack@);
    }
}

} // verus!
