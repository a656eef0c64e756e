//! Deep copies of a document, as the history keeps them: a copy has the
//! same content (`Document::same`) as its source.

use vstd::prelude::*;
use crate::arena::Slot;
use crate::document::{fill_slot_same, layer_same, path_slot_same, Document, Fill, Layer, Path};

verus! {

/// A fresh vector holding the same items.
pub(crate) fn copy_vec<T: Copy>(v: &Vec<T>) -> (r: Vec<T>)
    ensures
        r@ == v@,
{
    let mut r: Vec<T> = Vec::new();
    let mut i: usize = 0;
    while i < v.len()
        invariant
            i <= v@.len(),
            r@ == v@.take(i as int),
        decreases v@.len() - i,
    {
        r.push(v[i]);
        i = i + 1;
        proof {
            assert(v@.take(i as int) =~= v@.take(i as int - 1).push(v@[i as int - 1]));
        }
    }
    proof {
        assert(v@.take(v@.len() as int) =~= v@);
    }
    r
}

/// Copies slots whose values are plain data.
fn copy_plain_slots<T: Copy>(v: &Vec<Slot<T>>) -> (r: Vec<Slot<T>>)
    ensures
        r@ == v@,
{
    let mut r: Vec<Slot<T>> = Vec::new();
    let mut i: usize = 0;
    while i < v.len()
        invariant
            i <= v@.len(),
            r@ == v@.take(i as int),
        decreases v@.len() - i,
    {
        let s = &v[i];
        r.push(Slot { generation: s.generation, value: s.value });
        i = i + 1;
        proof {
            assert(v@.take(i as int) =~= v@.take(i as int - 1).push(v@[i as int - 1]));
        }
    }
    proof {
        assert(v@.take(v@.len() as int) =~= v@);
    }
    r
}

fn copy_fill_slots(v: &Vec<Slot<Fill>>) -> (r: Vec<Slot<Fill>>)
    ensures
        r@.len() == v@.len(),
        forall|i: int| 0 <= i < v@.len() ==> fill_slot_same(#[trigger] r@[i], v@[i]),
{
    let mut r: Vec<Slot<Fill>> = Vec::new();
    let mut i: usize = 0;
    while i < v.len()
        invariant
            i <= v@.len(),
            r@.len() == i,
            forall|j: int| 0 <= j < i ==> fill_slot_same(#[trigger] r@[j], v@[j]),
        decreases v@.len() - i,
    {
        let s = &v[i];
        let value = match &s.value {
            Some(f) => Some(Fill { segments: copy_vec(&f.segments) }),
            None => None,
        };
        r.push(Slot { generation: s.generation, value });
        i = i + 1;
    }
    r
}

fn copy_path_slots(v: &Vec<Slot<Path>>) -> (r: Vec<Slot<Path>>)
    ensures
        r@.len() == v@.len(),
        forall|i: int| 0 <= i < v@.len() ==> path_slot_same(#[trigger] r@[i], v@[i]),
{
    let mut r: Vec<Slot<Path>> = Vec::new();
    let mut i: usize = 0;
    while i < v.len()
        invariant
            i <= v@.len(),
            r@.len() == i,
            forall|j: int| 0 <= j < i ==> path_slot_same(#[trigger] r@[j], v@[j]),
        decreases v@.len() - i,
    {
        let s = &v[i];
        let value = match &s.value {
            Some(p) => Some(Path {
                segments: copy_vec(&p.segments),
                closed: p.closed,
                continuity: copy_vec(&p.continuity),
                handles: copy_vec(&p.handles),
            }),
            None => None,
        };
        r.push(Slot { generation: s.generation, value });
        i = i + 1;
    }
    r
}

fn copy_layers(v: &Vec<Layer>) -> (r: Vec<Layer>)
    ensures
        r@.len() == v@.len(),
        forall|i: int| 0 <= i < v@.len() ==> layer_same(#[trigger] r@[i], v@[i]),
{
    let mut r: Vec<Layer> = Vec::new();
    let mut i: usize = 0;
    while i < v.len()
        invariant
            i <= v@.len(),
            r@.len() == i,
            forall|j: int| 0 <= j < i ==> layer_same(#[trigger] r@[j], v@[j]),
        decreases v@.len() - i,
    {
        let l = &v[i];
        r.push(Layer { id: l.id, name: l.name.clone(), elements: copy_vec(&l.elements) });
        i = i + 1;
    }
    r
}

impl Document {
    /// A deep copy: same settings, layers, slots, free lists, constraints
    /// and dimensions.
    pub fn duplicate(&self) -> (r: Document)
        ensures
            r.same(self),
    {
        let mut points = crate::arena::Arena::new();
        points.slots = copy_plain_slots(&self.points.slots);
        points.free = copy_vec(&self.points.free);
        let mut segments = crate::arena::Arena::new();
        segments.slots = copy_plain_slots(&self.segments.slots);
        segments.free = copy_vec(&self.segments.free);
        let mut fills = crate::arena::Arena::new();
        fills.slots = copy_fill_slots(&self.fills.slots);
        fills.free = copy_vec(&self.fills.free);
        let mut paths = crate::arena::Arena::new();
        paths.slots = copy_path_slots(&self.paths.slots);
        paths.free = copy_vec(&self.paths.free);
        Document {
            settings: self.settings,
            layers: copy_layers(&self.layers),
            points,
            segments,
            fills,
            paths,
            constraints: copy_vec(&self.constraints),
            dimensions: copy_vec(&self.dimensions),
        }
    }
}

/// Documents with the same content are equally well-formed, and equally
/// able to take removals.
pub proof fn law_same_keeps_validity(a: Document, b: Document)
    requires
        a.same(&b),
    ensures
        a.wf() == b.wf(),
        a.live_gens_ok() == b.live_gens_ok(),
{
    assert forall|i: int| #[trigger] a.fills.is_live(i) == b.fills.is_live(i) by {
        if 0 <= i < a.fills.slots@.len() {
            assert(fill_slot_same(a.fills.slots@[i], b.fills.slots@[i]));
        }
    }
    assert forall|i: int| #[trigger] a.paths.is_live(i) == b.paths.is_live(i) by {
        if 0 <= i < a.paths.slots@.len() {
            assert(path_slot_same(a.paths.slots@[i], b.paths.slots@[i]));
        }
    }
    assert forall|i: int| #[trigger] a.points.is_live(i) == b.points.is_live(i) by {}
    assert forall|i: int| #[trigger] a.segments.is_live(i) == b.segments.is_live(i) by {}
    if a.points.gens_ok() {
        assert forall|i: int| #[trigger] b.points.is_live(i) implies b.points.slots@[i].generation < u32::MAX by {
            assert(a.points.is_live(i));
        }
    }
    if b.points.gens_ok() {
        assert forall|i: int| #[trigger] a.points.is_live(i) implies a.points.slots@[i].generation < u32::MAX by {
            assert(b.points.is_live(i));
        }
    }
    if a.segments.gens_ok() {
        assert forall|i: int| #[trigger] b.segments.is_live(i) implies b.segments.slots@[i].generation < u32::MAX by {
            assert(a.segments.is_live(i));
        }
    }
    if b.segments.gens_ok() {
        assert forall|i: int| #[trigger] a.segments.is_live(i) implies a.segments.slots@[i].generation < u32::MAX by {
            assert(b.segments.is_live(i));
        }
    }
    if a.fills.gens_ok() {
        assert forall|i: int| #[trigger] b.fills.is_live(i) implies b.fills.slots@[i].generation < u32::MAX by {
            assert(a.fills.is_live(i));
            assert(fill_slot_same(a.fills.slots@[i], b.fills.slots@[i]));
        }
    }
    if b.fills.gens_ok() {
        assert forall|i: int| #[trigger] a.fills.is_live(i) implies a.fills.slots@[i].generation < u32::MAX by {
            assert(b.fills.is_live(i));
            assert(fill_slot_same(a.fills.slots@[i], b.fills.slots@[i]));
        }
    }
    if a.paths.gens_ok() {
        assert forall|i: int| #[trigger] b.paths.is_live(i) implies b.paths.slots@[i].generation < u32::MAX by {
            assert(a.paths.is_live(i));
            assert(path_slot_same(a.paths.slots@[i], b.paths.slots@[i]));
        }
    }
    if b.paths.gens_ok() {
        assert forall|i: int| #[trigger] a.paths.is_live(i) implies a.paths.slots@[i].generation < u32::MAX by {
            assert(b.paths.is_live(i));
            assert(path_slot_same(a.paths.slots@[i], b.paths.slots@[i]));
        }
    }
}

} // verus!
