//! The editing session around one document: selection, layers, view and
//! snap toggles, and the undo/redo history (see `history`).

use vstd::prelude::*;
use crate::arena::Slot;
use crate::constraints::{Constraint, ElementRef};
use crate::document::{DocSettings, Document, Fill, Layer};
use crate::ids::{FillId, SegmentId};
use vstd::string::StringExecFns;

verus! {

/// A well-formed document.
pub open spec fn doc_ok(d: Document) -> bool {
    d.wf()
}

/// The id the next added layer gets before the floor of 2: one past the
/// largest layer id, or 1 when there are no layers.
pub open spec fn next_layer_after(s: Seq<Layer>) -> int
    decreases s.len(),
{
    if s.len() == 0 {
        1
    } else {
        let m = next_layer_after(s.drop_last());
        let c = s.last().id + 1;
        if m >= c { m } else { c }
    }
}

/// Index of the first live fill slot of `s` whose loop holds `sid`.
pub open spec fn fill_scan(s: Seq<Slot<Fill>>, sid: SegmentId) -> Option<int>
    decreases s.len(),
{
    if s.len() == 0 {
        None
    } else {
        match fill_scan(s.drop_last(), sid) {
            Some(i) => Some(i),
            None => if s.last().value is Some && s.last().value.unwrap().segments@.contains(sid) {
                Some(s.len() - 1)
            } else {
                None
            },
        }
    }
}

proof fn lemma_fill_scan_prefix(s: Seq<Slot<Fill>>, sid: SegmentId, k: int)
    requires
        0 <= k < s.len(),
        fill_scan(s.take(k), sid) is None,
    ensures
        fill_scan(s.take(k + 1), sid) == (if s[k].value is Some && s[k].value.unwrap().segments@.contains(sid) {
            Some(k)
        } else {
            None::<int>
        }),
{
    assert(s.take(k + 1).drop_last() =~= s.take(k));
}

proof fn lemma_fill_scan_keep(s: Seq<Slot<Fill>>, sid: SegmentId, k: int)
    requires
        0 <= k <= s.len(),
        fill_scan(s.take(k), sid) is Some,
    ensures
        fill_scan(s, sid) == fill_scan(s.take(k), sid),
    decreases s.len() - k,
{
    if k < s.len() {
        assert(s.take(k + 1).drop_last() =~= s.take(k));
        lemma_fill_scan_keep(s, sid, k + 1);
    } else {
        assert(s.take(k) =~= s);
    }
}

proof fn lemma_fill_scan_bounds(s: Seq<Slot<Fill>>, sid: SegmentId)
    ensures
        fill_scan(s, sid) matches Some(i) ==> 0 <= i < s.len() && s[i].value is Some
            && s[i].value.unwrap().segments@.contains(sid),
    decreases s.len(),
{
    if s.len() > 0 {
        lemma_fill_scan_bounds(s.drop_last(), sid);
    }
}

/// Whether `v` holds `el`.
pub fn contains_element(v: &Vec<ElementRef>, el: ElementRef) -> (r: bool)
    ensures
        r == v@.contains(el),
{
    let mut i: usize = 0;
    while i < v.len()
        invariant
            i <= v@.len(),
            forall|j: int| 0 <= j < i ==> v@[j] != el,
        decreases v@.len() - i,
    {
        if v[i] == el {
            return true;
        }
        i = i + 1;
    }
    false
}

pub struct Editor {
    pub doc: Document,
    pub selection: Vec<ElementRef>,
    /// Selected constraint chips (identity = the constraint value).
    pub selected_constraints: Vec<Constraint>,
    /// Label of the constraint chip under the cursor.
    pub hovered_constraint: Option<String>,
    /// Arcs whose center is currently revealed.
    pub arc_center_reveal: Vec<SegmentId>,
    /// Whole-document snapshots, most recent last.
    pub undo_stack: Vec<Document>,
    pub redo_stack: Vec<Document>,
    /// Snapshot taken by `history_begin`, promoted to an undo step only if
    /// the document differs when it is flushed.
    pub gesture_snapshot: Option<Document>,
    pub next_layer_id: u64,
    pub show_grid: bool,
    pub snap_to_grid: bool,
    pub snap_to_objects: bool,
    /// Bumped on every committed document change.
    pub doc_gen: u64,
}

impl Editor {
    /// The document, every history snapshot and the pending snapshot are
    /// well-formed.
    pub open spec fn wf(&self) -> bool {
        &&& doc_ok(self.doc)
        &&& forall|i: int| 0 <= i < self.undo_stack@.len() ==> doc_ok(#[trigger] self.undo_stack@[i])
        &&& forall|i: int| 0 <= i < self.redo_stack@.len() ==> doc_ok(#[trigger] self.redo_stack@[i])
        &&& self.gesture_snapshot matches Some(s) ==> doc_ok(s)
    }

    /// A session on a document without history: the layer counter starts
    /// past every existing layer id (and at 2 at least), the toggles come
    /// from the document's settings.
    pub fn from_document(doc: Document) -> (r: Editor)
        requires
            doc_ok(doc),
            forall|i: int| 0 <= i < doc.layers@.len() ==> (#[trigger] doc.layers@[i]).id < u64::MAX,
        ensures
            r.wf(),
            r.doc == doc,
            r.next_layer_id == (if next_layer_after(doc.layers@) >= 2 { next_layer_after(doc.layers@) } else { 2 }),
            r.show_grid == doc.settings.show_grid,
            r.snap_to_grid == doc.settings.snap_to_grid,
            r.snap_to_objects == doc.settings.snap_to_objects,
            r.selection@.len() == 0,
            r.selected_constraints@.len() == 0,
            r.hovered_constraint is None,
            r.arc_center_reveal@.len() == 0,
            r.undo_stack@.len() == 0,
            r.redo_stack@.len() == 0,
            r.gesture_snapshot is None,
            r.doc_gen == 0,
    {
        let settings = doc.settings;
        let mut next: u64 = 1;
        let mut i: usize = 0;
        while i < doc.layers.len()
            invariant
                i <= doc.layers@.len(),
                next == next_layer_after(doc.layers@.take(i as int)),
                forall|j: int| 0 <= j < doc.layers@.len() ==> (#[trigger] doc.layers@[j]).id < u64::MAX,
            decreases doc.layers@.len() - i,
        {
            proof {
                assert(doc.layers@.take(i as int + 1).drop_last() =~= doc.layers@.take(i as int));
            }
            let c = doc.layers[i].id + 1;
            if c > next {
                next = c;
            }
            i = i + 1;
        }
        proof {
            assert(doc.layers@.take(i as int) =~= doc.layers@);
        }
        if next < 2 {
            next = 2;
        }
        Editor {
            doc,
            selection: Vec::new(),
            selected_constraints: Vec::new(),
            hovered_constraint: None,
            arc_center_reveal: Vec::new(),
            undo_stack: Vec::new(),
            redo_stack: Vec::new(),
            gesture_snapshot: None,
            next_layer_id: next,
            show_grid: settings.show_grid,
            snap_to_grid: settings.snap_to_grid,
            snap_to_objects: settings.snap_to_objects,
            doc_gen: 0,
        }
    }

    /// A fresh session: an empty document with one layer, id 1, named
    /// "Layer 1".
    pub fn new() -> (r: Editor)
        ensures
            r.wf(),
            r.doc.layers@.len() == 1,
            r.doc.layers@[0].id == 1,
            r.doc.layers@[0].name@ == "Layer 1"@,
            r.doc.layers@[0].elements@.len() == 0,
            r.doc.points.slots@.len() == 0,
            r.doc.segments.slots@.len() == 0,
            r.doc.fills.slots@.len() == 0,
            r.doc.paths.slots@.len() == 0,
            r.doc.constraints@.len() == 0,
            r.doc.dimensions@.len() == 0,
            r.doc.settings == (DocSettings { show_grid: true, snap_to_grid: false, snap_to_objects: true }),
            r.next_layer_id == 2,
            r.show_grid && !r.snap_to_grid && r.snap_to_objects,
            r.selection@.len() == 0,
            r.undo_stack@.len() == 0,
            r.redo_stack@.len() == 0,
            r.gesture_snapshot is None,
            r.doc_gen == 0,
    {
        let mut doc = Document::new();
        doc.layers.push(Layer { id: 1, name: String::from_str("Layer 1"), elements: Vec::new() });
        proof {
            assert(next_layer_after(doc.layers@.drop_last()) == 1);
        }
        Editor::from_document(doc)
    }

    /// Appends a new empty layer named `name` and returns its id.
    pub fn add_layer(&mut self, name: &str) -> (r: u64)
        requires
            old(self).next_layer_id < u64::MAX,
        ensures
            r == old(self).next_layer_id,
            final(self).next_layer_id == old(self).next_layer_id + 1,
            final(self).doc.layers@.len() == old(self).doc.layers@.len() + 1,
            final(self).doc.layers@.drop_last() == old(self).doc.layers@,
            final(self).doc.layers@.last().id == r,
            final(self).doc.layers@.last().name@ == name@,
            final(self).doc.layers@.last().elements@.len() == 0,
            final(self).doc.same_geometry(&old(self).doc),
            final(self).doc.same_records(&old(self).doc),
            old(self).wf() ==> final(self).wf(),
            final(self).selection == old(self).selection,
            final(self).undo_stack == old(self).undo_stack,
            final(self).redo_stack == old(self).redo_stack,
            final(self).gesture_snapshot == old(self).gesture_snapshot,
            final(self).doc_gen == old(self).doc_gen,
    {
        let id = self.next_layer_id;
        self.next_layer_id = self.next_layer_id + 1;
        self.doc.layers.push(Layer { id, name: String::from_str(name), elements: Vec::new() });
        proof {
            assert(self.doc.layers@.drop_last() =~= old(self).doc.layers@);
        }
        id
    }

    /// Sets one toggle (0 = grid, 1 = snap to grid, anything else = snap
    /// to objects). When it changes, the document's settings take all
    /// three toggles and the change counter moves; returns whether it
    /// changed (the caller then saves the defaults and repaints).
    pub fn apply_setting(&mut self, which: u8, on: bool) -> (r: bool)
        requires
            old(self).doc_gen < u64::MAX,
        ensures
            r == (if which == 0 {
                old(self).show_grid != on
            } else if which == 1 {
                old(self).snap_to_grid != on
            } else {
                old(self).snap_to_objects != on
            }),
            !r ==> *final(self) == *old(self),
            r ==> {
                &&& final(self).show_grid == (if which == 0 { on } else { old(self).show_grid })
                &&& final(self).snap_to_grid == (if which == 1 { on } else { old(self).snap_to_grid })
                &&& final(self).snap_to_objects == (if which != 0 && which != 1 { on } else { old(self).snap_to_objects })
                &&& final(self).doc.settings == (DocSettings {
                    show_grid: final(self).show_grid,
                    snap_to_grid: final(self).snap_to_grid,
                    snap_to_objects: final(self).snap_to_objects,
                })
                &&& final(self).doc_gen == old(self).doc_gen + 1
                &&& final(self).doc.layers == old(self).doc.layers
                &&& final(self).doc.same_geometry(&old(self).doc)
                &&& final(self).doc.constraints == old(self).doc.constraints
                &&& final(self).doc.dimensions == old(self).doc.dimensions
                &&& final(self).selection == old(self).selection
                &&& final(self).undo_stack == old(self).undo_stack
                &&& final(self).redo_stack == old(self).redo_stack
                &&& final(self).gesture_snapshot == old(self).gesture_snapshot
                &&& final(self).next_layer_id == old(self).next_layer_id
            },
            old(self).wf() ==> final(self).wf(),
    {
        let changed = if which == 0 {
            self.show_grid != on
        } else if which == 1 {
            self.snap_to_grid != on
        } else {
            self.snap_to_objects != on
        };
        if !changed {
            return false;
        }
        if which == 0 {
            self.show_grid = on;
        } else if which == 1 {
            self.snap_to_grid = on;
        } else {
            self.snap_to_objects = on;
        }
        self.doc.settings = DocSettings {
            show_grid: self.show_grid,
            snap_to_grid: self.snap_to_grid,
            snap_to_objects: self.snap_to_objects,
        };
        self.doc_gen = self.doc_gen + 1;
        true
    }

    pub fn set_show_grid(&mut self, on: bool) -> (r: bool)
        requires
            old(self).doc_gen < u64::MAX,
        ensures
            r == (old(self).show_grid != on),
            final(self).show_grid == on,
            final(self).snap_to_grid == old(self).snap_to_grid,
            final(self).snap_to_objects == old(self).snap_to_objects,
            r ==> final(self).doc.settings == (DocSettings {
                show_grid: on,
                snap_to_grid: old(self).snap_to_grid,
                snap_to_objects: old(self).snap_to_objects,
            }),
            r ==> final(self).doc_gen == old(self).doc_gen + 1,
            !r ==> *final(self) == *old(self),
            old(self).wf() ==> final(self).wf(),
    {
        self.apply_setting(0, on)
    }

    pub fn set_snap_to_grid(&mut self, on: bool) -> (r: bool)
        requires
            old(self).doc_gen < u64::MAX,
        ensures
            r == (old(self).snap_to_grid != on),
            final(self).snap_to_grid == on,
            final(self).show_grid == old(self).show_grid,
            final(self).snap_to_objects == old(self).snap_to_objects,
            r ==> final(self).doc.settings == (DocSettings {
                show_grid: old(self).show_grid,
                snap_to_grid: on,
                snap_to_objects: old(self).snap_to_objects,
            }),
            r ==> final(self).doc_gen == old(self).doc_gen + 1,
            !r ==> *final(self) == *old(self),
            old(self).wf() ==> final(self).wf(),
    {
        self.apply_setting(1, on)
    }

    pub fn set_snap_to_objects(&mut self, on: bool) -> (r: bool)
        requires
            old(self).doc_gen < u64::MAX,
        ensures
            r == (old(self).snap_to_objects != on),
            final(self).snap_to_objects == on,
            final(self).show_grid == old(self).show_grid,
            final(self).snap_to_grid == old(self).snap_to_grid,
            r ==> final(self).doc.settings == (DocSettings {
                show_grid: old(self).show_grid,
                snap_to_grid: old(self).snap_to_grid,
                snap_to_objects: on,
            }),
            r ==> final(self).doc_gen == old(self).doc_gen + 1,
            !r ==> *final(self) == *old(self),
            old(self).wf() ==> final(self).wf(),
    {
        self.apply_setting(2, on)
    }

    /// Clears the revealed arc centers (the cursor left the canvas); true
    /// when something was showing.
    pub fn clear_arc_reveal(&mut self) -> (r: bool)
        ensures
            r == (old(self).arc_center_reveal@.len() > 0),
            final(self).arc_center_reveal@.len() == 0,
            final(self).doc == old(self).doc,
            final(self).selection == old(self).selection,
            final(self).undo_stack == old(self).undo_stack,
            final(self).redo_stack == old(self).redo_stack,
            final(self).gesture_snapshot == old(self).gesture_snapshot,
            final(self).doc_gen == old(self).doc_gen,
            final(self).next_layer_id == old(self).next_layer_id,
    {
        if self.arc_center_reveal.len() == 0 {
            false
        } else {
            self.arc_center_reveal.clear();
            true
        }
    }

    /// The first live fill (by slot index) whose loop holds `sid`.
    pub open spec fn fill_of(&self, sid: SegmentId) -> Option<FillId> {
        match fill_scan(self.doc.fills.slots@, sid) {
            Some(i) => Some(FillId { idx: i as u32, generation: self.doc.fills.slots@[i].generation }),
            None => None,
        }
    }

    /// The first live fill (by slot index) whose loop holds `sid`.
    pub fn fill_containing(&self, sid: SegmentId) -> (r: Option<FillId>)
        requires
            self.doc.wf(),
        ensures
            r == self.fill_of(sid),
            r matches Some(f) ==> self.doc.fl(f) is Some && self.doc.fl(f).unwrap().segments@.contains(sid),
    {
        let slots = &self.doc.fills.slots;
        let mut i: usize = 0;
        while i < slots.len()
            invariant
                i <= slots@.len(),
                slots@ == self.doc.fills.slots@,
                self.doc.wf(),
                fill_scan(slots@.take(i as int), sid) is None,
            decreases slots@.len() - i,
        {
            proof {
                lemma_fill_scan_prefix(slots@, sid, i as int);
            }
            match &slots[i].value {
                Some(f) => {
                    if crate::document::contains_segment(&f.segments, sid) {
                        proof {
                            lemma_fill_scan_keep(slots@, sid, i as int + 1);
                        }
                        return Some(FillId { idx: i as u32, generation: slots[i].generation });
                    }
                },
                None => {},
            }
            i = i + 1;
        }
        proof {
            assert(slots@.take(i as int) =~= slots@);
        }
        None
    }

    /// Whether `el` counts as selected: it is selected itself, or (for a
    /// segment) its first fill is, or (for a point) a selected segment ends
    /// at it or a selected fill has it as a corner.
    pub open spec fn covers(&self, el: ElementRef) -> bool {
        ||| self.selection@.contains(el)
        ||| match el {
            ElementRef::Segment(sid) => self.fill_of(sid) matches Some(f)
                && self.selection@.contains(ElementRef::Fill(f)),
            ElementRef::Point(pid) => exists|k: int| 0 <= k < self.selection@.len() && match #[trigger] self.selection@[k] {
                ElementRef::Segment(s) => self.doc.sg(s) matches Some(seg) && (seg.start == pid || seg.end == pid),
                ElementRef::Fill(f) => self.doc.element_points_spec(ElementRef::Fill(f)).contains(pid),
                _ => false,
            },
            _ => false,
        }
    }

    pub fn element_selected(&self, el: ElementRef) -> (r: bool)
        requires
            self.doc.wf(),
        ensures
            r == self.covers(el),
    {
        if contains_element(&self.selection, el) {
            return true;
        }
        match el {
            ElementRef::Segment(sid) => {
                match self.fill_containing(sid) {
                    Some(f) => contains_element(&self.selection, ElementRef::Fill(f)),
                    None => false,
                }
            },
            ElementRef::Point(pid) => {
                let mut i: usize = 0;
                while i < self.selection.len()
                    invariant
                        i <= self.selection@.len(),
                        self.doc.wf(),
                        el == ElementRef::Point(pid),
                        forall|k: int| 0 <= k < i ==> !(match #[trigger] self.selection@[k] {
                            ElementRef::Segment(s) => self.doc.sg(s) matches Some(seg) && (seg.start == pid || seg.end == pid),
                            ElementRef::Fill(f) => self.doc.element_points_spec(ElementRef::Fill(f)).contains(pid),
                            _ => false,
                        }),
                    decreases self.selection@.len() - i,
                {
                    let hit = match self.selection[i] {
                        ElementRef::Segment(s) => match self.doc.segment(s) {
                            Some(seg) => seg.start == pid || seg.end == pid,
                            None => false,
                        },
                        ElementRef::Fill(f) => {
                            let pts = self.doc.element_points(ElementRef::Fill(f));
                            crate::document::contains_point(&pts, pid)
                        },
                        _ => false,
                    };
                    if hit {
                        proof {
                            let x = self.selection@[i as int];
                            assert(match x {
                                ElementRef::Segment(s) => self.doc.sg(s) matches Some(seg) && (seg.start == pid || seg.end == pid),
                                ElementRef::Fill(f) => self.doc.element_points_spec(ElementRef::Fill(f)).contains(pid),
                                _ => false,
                            });
                        }
                        return true;
                    }
                    i = i + 1;
                }
                false
            },
            _ => false,
        }
    }
}

} // verus!
