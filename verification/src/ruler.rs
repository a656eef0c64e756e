//! Measuring rulers: segments that carry ticks instead of geometry.

use vstd::prelude::*;
use crate::document::{Document, SegmentKind};
use crate::constraints::ElementRef;
use crate::editor::Editor;
use crate::ids::SegmentId;

verus! {

/// A live ruler segment.
pub open spec fn ruler_at(doc: Document, sid: SegmentId) -> bool {
    doc.sg(sid) matches Some(s) && s.kind == SegmentKind::Ruler
}

/// Whether `sid` names a live ruler.
pub fn is_ruler(doc: &Document, sid: SegmentId) -> (r: bool)
    ensures
        r == ruler_at(*doc, sid),
{
    match doc.segment(sid) {
        Some(s) => s.kind == SegmentKind::Ruler,
        None => false,
    }
}

/// The selection is exactly one live ruler.
pub open spec fn single_ruler(doc: Document, sel: Seq<ElementRef>) -> bool {
    &&& sel.len() == 1
    &&& sel[0] matches ElementRef::Segment(sid) && ruler_at(doc, sid)
}

/// Whether the selection is exactly one ruler.
pub fn selection_is_ruler(ed: &Editor) -> (r: bool)
    ensures
        r == single_ruler(ed.doc, ed.selection@),
{
    if ed.selection.len() != 1 {
        return false;
    }
    match ed.selection[0].as_segment() {
        Some(sid) => is_ruler(&ed.doc, sid),
        None => false,
    }
}

} // verus!
