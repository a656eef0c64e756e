//! The move tool's press: given what the picker found under the cursor,
//! decide how the selection changes and which drag begins. Finding the
//! element (a distance test on screen) and moving the points stay with the
//! caller; this step only decides.

use vstd::prelude::*;
use crate::constraints::ElementRef;
use crate::document::SegmentKind;
use crate::editor::Editor;
use crate::ids::{PointId, SegmentId};

verus! {

/// What a grab drags.
#[derive(Clone, Copy, Debug, PartialEq, Eq, Structural)]
pub enum GrabKind {
    /// A pressed point: it (and what is glued to it) chases the cursor.
    Point(PointId),
    /// A segment outside a multi-selection: its own points are dragged; an
    /// arc body scales about its fixed center.
    Segment { seg: SegmentId, arc_body: bool },
    /// Everything selected translates together.
    Selection,
}

/// The outcome of a press with the move tool.
#[derive(Clone, Copy, Debug, PartialEq, Eq, Structural)]
pub enum PressAction {
    /// Nothing under the cursor: a band selection starts.
    Marquee,
    /// Only a loose hit outside a multi-selection: a band selection starts,
    /// and the element is picked on release if the band never grew.
    DeferredPick(ElementRef),
    /// The element is grabbed.
    Grab(ElementRef, GrabKind),
}

impl Editor {
    /// Whether a press on `el` grabs at once: an exact hit, or a part of a
    /// multi-selection (which grabs on a loose hit).
    pub open spec fn press_grabs(&self, el: ElementRef, exact: bool) -> bool {
        exact || (self.selection@.len() > 1 && self.covers(el))
    }

    /// What a grabbing press targets: a double press on an edge escalates to
    /// the first fill holding it.
    pub open spec fn press_target(&self, el: ElementRef, click_count: usize) -> ElementRef {
        match el {
            ElementRef::Segment(sid) => if click_count >= 2 && self.fill_of(sid) is Some {
                ElementRef::Fill(self.fill_of(sid).unwrap())
            } else {
                el
            },
            _ => el,
        }
    }

    /// The selection after a press. Pressing empty canvas clears it unless
    /// shift is held; pressing something already selected keeps it;
    /// pressing something else replaces it, or adds to it with shift.
    pub open spec fn press_selection(&self, hit: Option<ElementRef>, exact: bool, shift: bool, click_count: usize) -> Seq<ElementRef> {
        match hit {
            None => if shift { self.selection@ } else { Seq::empty() },
            Some(el0) => if !self.press_grabs(el0, exact) {
                self.selection@
            } else {
                let el = self.press_target(el0, click_count);
                if self.covers(el) {
                    self.selection@
                } else if shift {
                    self.selection@.push(el)
                } else {
                    seq![el]
                }
            },
        }
    }

    /// The drag a grab of `el` starts, judged on the selection after the
    /// press: a point is always a point drag; a segment that is not part
    /// of a multi-selection drags itself; anything else moves the selection.
    pub open spec fn grab_kind(&self, el: ElementRef) -> GrabKind {
        match el {
            ElementRef::Point(pid) => GrabKind::Point(pid),
            ElementRef::Segment(sid) => if !(self.selection@.len() > 1 && self.covers(el)) {
                GrabKind::Segment {
                    seg: sid,
                    arc_body: self.doc.sg(sid) matches Some(s) && s.kind == SegmentKind::Arc,
                }
            } else {
                GrabKind::Selection
            },
            _ => GrabKind::Selection,
        }
    }

    /// The action of a press on session `a`, `b` being the session after it.
    pub open spec fn press_action(a: Editor, b: Editor, hit: Option<ElementRef>, exact: bool, click_count: usize) -> PressAction {
        match hit {
            None => PressAction::Marquee,
            Some(el0) => if !a.press_grabs(el0, exact) {
                PressAction::DeferredPick(el0)
            } else {
                let el = a.press_target(el0, click_count);
                PressAction::Grab(el, b.grab_kind(el))
            },
        }
    }

    /// A press with the move tool. `hit` is the element under the cursor
    /// within the loose tolerance, `exact` whether one lies within the
    /// tight one. Constraint chips are deselected; nothing else but the
    /// selection changes.
    pub fn press_step(&mut self, hit: Option<ElementRef>, exact: bool, shift: bool, click_count: usize) -> (r: PressAction)
        requires
            old(self).doc.wf(),
        ensures
            final(self).selection@ == old(self).press_selection(hit, exact, shift, click_count),
            r == Editor::press_action(*old(self), *final(self), hit, exact, click_count),
            final(self).selected_constraints@.len() == 0,
            final(self).doc == old(self).doc,
            final(self).undo_stack == old(self).undo_stack,
            final(self).redo_stack == old(self).redo_stack,
            final(self).gesture_snapshot == old(self).gesture_snapshot,
            final(self).hovered_constraint == old(self).hovered_constraint,
            final(self).arc_center_reveal == old(self).arc_center_reveal,
            final(self).next_layer_id == old(self).next_layer_id,
            final(self).show_grid == old(self).show_grid,
            final(self).snap_to_grid == old(self).snap_to_grid,
            final(self).snap_to_objects == old(self).snap_to_objects,
            final(self).doc_gen == old(self).doc_gen,
    {
        self.selected_constraints.clear();
        match hit {
            None => {
                if !shift {
                    self.selection.clear();
                }
                PressAction::Marquee
            },
            Some(el0) => {
                let multi = self.selection.len() > 1 && self.element_selected(el0);
                if !exact && !multi {
                    return PressAction::DeferredPick(el0);
                }
                let mut el = el0;
                if click_count >= 2 {
                    if let ElementRef::Segment(sid) = el0 {
                        if let Some(f) = self.fill_containing(sid) {
                            el = ElementRef::Fill(f);
                        }
                    }
                }
                if !self.element_selected(el) {
                    if shift {
                        self.selection.push(el);
                    } else {
                        self.selection = vec![el];
                    }
                }
                let kind = match el {
                    ElementRef::Point(pid) => GrabKind::Point(pid),
                    ElementRef::Segment(sid) => {
                        if !(self.selection.len() > 1 && self.element_selected(el)) {
                            let arc_body = match self.doc.segment(sid) {
                                Some(s) => s.kind == SegmentKind::Arc,
                                None => false,
                            };
                            GrabKind::Segment { seg: sid, arc_body }
                        } else {
                            GrabKind::Selection
                        }
                    },
                    _ => GrabKind::Selection,
                };
                PressAction::Grab(el, kind)
            },
        }
    }
}

/// What a press on empty canvas does: a band selection starts, and the
/// selection is cleared unless shift is held.
pub proof fn law_press_on_nothing(a: Editor, b: Editor, exact: bool, shift: bool, click_count: usize, r: PressAction)
    requires
        b.selection@ == a.press_selection(None, exact, shift, click_count),
        r == Editor::press_action(a, b, None, exact, click_count),
    ensures
        r == PressAction::Marquee,
        shift ==> b.selection@ == a.selection@,
        !shift ==> b.selection@.len() == 0,
{
}

/// The element a grabbing press takes: a double press on an edge of a
/// fill takes that fill, anything else the pressed element itself.
pub open spec fn pressed_element(a: Editor, el: ElementRef, click_count: usize) -> ElementRef {
    if el is Segment && click_count >= 2 && a.fill_of(el->Segment_0) is Some {
        ElementRef::Fill(a.fill_of(el->Segment_0).unwrap())
    } else {
        el
    }
}

/// What a press on an element does. A loose hit outside a
/// multi-selection defers the pick and keeps the selection. A grabbing
/// press (an exact hit, or a loose one on part of a multi-selection) grabs
/// the pressed element; one not yet covered by the selection replaces it,
/// or joins it with shift. A grabbed point drags itself; a grabbed edge
/// that now stands alone in the selection drags itself (an arc body
/// scales); an edge added to a selection, a fill or a path moves the whole
/// selection.
pub proof fn law_press_on_element(
    a: Editor,
    b: Editor,
    el: ElementRef,
    exact: bool,
    shift: bool,
    click_count: usize,
    r: PressAction,
)
    requires
        b.doc == a.doc,
        b.selection@ == a.press_selection(Some(el), exact, shift, click_count),
        r == Editor::press_action(a, b, Some(el), exact, click_count),
    ensures
        !exact && !(a.selection@.len() > 1 && a.covers(el)) ==> r == PressAction::DeferredPick(el) && b.selection@
            == a.selection@,
        exact || (a.selection@.len() > 1 && a.covers(el)) ==> {
            let t = pressed_element(a, el, click_count);
            &&& r is Grab && r->Grab_0 == t
            &&& a.covers(t) ==> b.selection@ == a.selection@
            &&& !a.covers(t) && !shift ==> b.selection@ == seq![t]
            &&& !a.covers(t) && shift ==> b.selection@ == a.selection@.push(t)
            &&& (t is Point ==> r->Grab_1 == GrabKind::Point(t->Point_0))
            &&& (t is Segment && !a.covers(t) && !shift ==> r->Grab_1 == GrabKind::Segment {
                seg: t->Segment_0,
                arc_body: a.doc.sg(t->Segment_0) is Some && a.doc.sg(t->Segment_0).unwrap().kind == SegmentKind::Arc,
            })
            &&& (t is Segment && !a.covers(t) && shift && a.selection@.len() > 0 ==> r->Grab_1 == GrabKind::Selection)
            &&& (t is Fill || t is Path ==> r->Grab_1 == GrabKind::Selection)
        },
{
    if exact || (a.selection@.len() > 1 && a.covers(el)) {
        let t = a.press_target(el, click_count);
        assert(t == pressed_element(a, el, click_count));
        if !a.covers(t) && shift {
            assert(b.selection@.last() == t);
            assert(b.selection@.contains(t));
            assert(b.covers(t));
        }
        if !a.covers(t) && !shift {
            assert(b.selection@.len() == 1);
        }
    }
}

} // verus!
