//! The permanent design: points, segments, fills, paths, constraints and
//! dimensions, plus the layers that list them. There are no composite
//! shapes: a rectangle is four points, four segments sharing endpoints,
//! horizontal/vertical constraints and one fill over the loop. Deleting
//! any piece leaves the rest valid.

use vstd::prelude::*;
use crate::arena::{Arena, Slot};
use crate::constraints::{Constraint, ConstraintKind, DimTarget, Dimension, ElementRef};
use crate::float_bits::{bits_num_eq, is_nan, law_num_eq_reflexive, num_eq};
use crate::ids::{FillId, PathId, PointId, SegmentId, NONE_IDX};

verus! {

/// View and snap toggles, saved per design.
#[derive(Clone, Copy, Debug, PartialEq, Eq, Structural)]
pub struct DocSettings {
    pub show_grid: bool,
    pub snap_to_grid: bool,
    pub snap_to_objects: bool,
}

impl Default for DocSettings {
    fn default() -> (r: Self)
        ensures
            r == (DocSettings { show_grid: true, snap_to_grid: false, snap_to_objects: true }),
    {
        DocSettings { show_grid: true, snap_to_grid: false, snap_to_objects: true }
    }
}

/// A point position: the IEEE-754 bit patterns of its x and y document
/// coordinates. The engine stores and compares positions, never computes
/// with them.
#[derive(Clone, Copy, Debug, PartialEq, Eq, Structural)]
pub struct PointPos {
    pub x_bits: u64,
    pub y_bits: u64,
}

#[derive(Clone, Copy, Debug, PartialEq, Eq, Structural)]
pub enum SegmentKind {
    Line,
    /// A measuring ruler: no constraints, no fill, no dimensions.
    Ruler,
    /// Circular arc through start, ctrl (a point on the arc) and end.
    Arc,
    /// Cubic Bezier from start to end with real handle points.
    Bezier,
}

#[derive(Clone, Copy, Debug, PartialEq, Eq, Structural)]
pub struct Segment {
    pub start: PointId,
    pub end: PointId,
    pub kind: SegmentKind,
    /// Bit pattern of the screen-px stroke width (0.0 = invisible geometry).
    pub stroke_width_bits: u64,
    /// Arc control point (a real point on the arc); arcs only.
    pub ctrl: Option<PointId>,
    /// Arc circumcenter point; arcs only.
    pub center: Option<PointId>,
    /// Bezier handle leaving `start`; beziers only.
    pub handle_out: Option<PointId>,
    /// Bezier handle arriving at `end`; beziers only.
    pub handle_in: Option<PointId>,
}

/// Whether segment `s` uses point `p` in any role.
pub open spec fn seg_uses(s: Segment, p: PointId) -> bool {
    s.start == p || s.end == p || s.ctrl == Some(p) || s.center == Some(p) || s.handle_out == Some(p)
        || s.handle_in == Some(p)
}

impl Segment {
    fn line(start: PointId, end: PointId) -> (r: Self)
        ensures
            r == (Segment {
                start,
                end,
                kind: SegmentKind::Line,
                stroke_width_bits: 0,
                ctrl: None,
                center: None,
                handle_out: None,
                handle_in: None,
            }),
    {
        Segment { start, end, kind: SegmentKind::Line, stroke_width_bits: 0, ctrl: None, center: None, handle_out: None, handle_in: None }
    }

    fn with_kind(start: PointId, end: PointId, kind: SegmentKind) -> (r: Self)
        ensures
            r == (Segment {
                start,
                end,
                kind,
                stroke_width_bits: 0,
                ctrl: None,
                center: None,
                handle_out: None,
                handle_in: None,
            }),
    {
        Segment { start, end, kind, stroke_width_bits: 0, ctrl: None, center: None, handle_out: None, handle_in: None }
    }

    /// Whether this segment uses point `p` in any role.
    pub fn uses(&self, p: PointId) -> (r: bool)
        ensures
            r == seg_uses(*self, p),
    {
        self.start == p || self.end == p || self.ctrl == Some(p) || self.center == Some(p)
            || self.handle_out == Some(p) || self.handle_in == Some(p)
    }
}

/// Continuity of one path anchor. Stored on the path, not the point: one
/// shared point can be sharp in one path and smooth in another.
#[derive(Clone, Copy, Debug, PartialEq, Eq, Structural)]
pub enum ContinuityMode {
    Corner,
    Smooth,
    Symmetric,
    Free,
}

pub open spec fn continuity_code(m: ContinuityMode) -> u8 {
    match m {
        ContinuityMode::Corner => 0,
        ContinuityMode::Smooth => 1,
        ContinuityMode::Symmetric => 2,
        ContinuityMode::Free => 3,
    }
}

pub open spec fn continuity_from_code(code: u8) -> ContinuityMode {
    if code == 1 {
        ContinuityMode::Smooth
    } else if code == 2 {
        ContinuityMode::Symmetric
    } else if code == 3 {
        ContinuityMode::Free
    } else {
        ContinuityMode::Corner
    }
}

impl ContinuityMode {
    pub fn code(self) -> (r: u8)
        ensures
            r == continuity_code(self),
    {
        match self {
            ContinuityMode::Corner => 0,
            ContinuityMode::Smooth => 1,
            ContinuityMode::Symmetric => 2,
            ContinuityMode::Free => 3,
        }
    }

    /// Unknown codes read as `Corner`.
    pub fn from_code(code: u8) -> (r: ContinuityMode)
        ensures
            r == continuity_from_code(code),
    {
        match code {
            1 => ContinuityMode::Smooth,
            2 => ContinuityMode::Symmetric,
            3 => ContinuityMode::Free,
            _ => ContinuityMode::Corner,
        }
    }
}

/// Decoding a mode's code gives the mode back.
pub proof fn law_continuity_code_round_trip(m: ContinuityMode)
    ensures
        continuity_from_code(continuity_code(m)) == m,
{
}

/// An ordered chain of segments sharing endpoints (the pen tool's path).
/// `continuity` and `handles` run parallel to the anchors: each segment's
/// start, plus the final end when the path is open.
#[derive(Clone, Debug)]
pub struct Path {
    pub segments: Vec<SegmentId>,
    pub closed: bool,
    pub continuity: Vec<ContinuityMode>,
    pub handles: Vec<(PointId, PointId)>,
}

/// A fill covers an ordered, closed loop of segments.
#[derive(Clone, Debug)]
pub struct Fill {
    pub segments: Vec<SegmentId>,
}

#[derive(Clone, Debug)]
pub struct Layer {
    pub id: u64,
    pub name: String,
    pub elements: Vec<ElementRef>,
}

/// Keeps the values outside `d`.
pub open spec fn outside<A>(d: Set<A>) -> spec_fn(A) -> bool {
    |x: A| !d.contains(x)
}

/// `s` with every occurrence of `el` removed.
pub open spec fn without(s: Seq<ElementRef>, el: ElementRef) -> Seq<ElementRef> {
    s.filter(outside(set![el]))
}

/// Filtering out `d`, then `e`, is filtering out their union.
pub proof fn lemma_filter_outside_compose<A>(s: Seq<A>, d: Set<A>, e: Set<A>)
    ensures
        s.filter(outside(d)).filter(outside(e)) == s.filter(outside(d.union(e))),
    decreases s.len(),
{
    if s.len() == 0 {
        reveal(Seq::filter);
        assert(s.filter(outside(d)) =~= s);
        assert(s.filter(outside(d.union(e))) =~= s);
        assert(s.filter(outside(d)).filter(outside(e)) =~= s);
    } else {
        let t = s.drop_last();
        let x = s.last();
        assert(s == t.push(x));
        lemma_filter_outside_compose(t, d, e);
        t.lemma_filter_push(x, outside(d));
        t.lemma_filter_push(x, outside(d.union(e)));
        t.filter(outside(d)).lemma_filter_push(x, outside(e));
    }
}

/// Filtering with sets that agree on the members of `s` gives the same
/// result.
pub proof fn lemma_filter_outside_congruent<A>(s: Seq<A>, d: Set<A>, e: Set<A>)
    requires
        forall|k: int| 0 <= k < s.len() ==> (d.contains(#[trigger] s[k]) == e.contains(s[k])),
    ensures
        s.filter(outside(d)) == s.filter(outside(e)),
    decreases s.len(),
{
    if s.len() == 0 {
        reveal(Seq::filter);
    } else {
        let t = s.drop_last();
        let x = s.last();
        assert(s == t.push(x));
        assert forall|k: int| 0 <= k < t.len() implies (d.contains(#[trigger] t[k]) == e.contains(t[k])) by {
            assert(t[k] == s[k]);
        }
        lemma_filter_outside_congruent(t, d, e);
        t.lemma_filter_push(x, outside(d));
        t.lemma_filter_push(x, outside(e));
    }
}

/// Filtering never grows a sequence, and strictly shrinks one holding a
/// member of the set.
pub proof fn lemma_filter_outside_len<A>(s: Seq<A>, d: Set<A>)
    ensures
        s.filter(outside(d)).len() <= s.len(),
        (exists|k: int| 0 <= k < s.len() && d.contains(#[trigger] s[k])) ==> s.filter(outside(d)).len() < s.len(),
    decreases s.len(),
{
    if s.len() == 0 {
        reveal(Seq::filter);
    } else {
        let t = s.drop_last();
        let x = s.last();
        assert(s == t.push(x));
        lemma_filter_outside_len(t, d);
        t.lemma_filter_push(x, outside(d));
        if exists|k: int| 0 <= k < s.len() && d.contains(#[trigger] s[k]) {
            let k = choose|k: int| 0 <= k < s.len() && d.contains(#[trigger] s[k]);
            if k < t.len() {
                assert(t[k] == s[k]);
            }
        }
    }
}

/// Filtering out a set none of whose members occur changes nothing.
pub proof fn lemma_filter_outside_noop<A>(s: Seq<A>, d: Set<A>)
    requires
        forall|k: int| 0 <= k < s.len() ==> !d.contains(#[trigger] s[k]),
    ensures
        s.filter(outside(d)) == s,
    decreases s.len(),
{
    if s.len() == 0 {
        reveal(Seq::filter);
    } else {
        let t = s.drop_last();
        let x = s.last();
        assert(s == t.push(x));
        assert forall|k: int| 0 <= k < t.len() implies !d.contains(#[trigger] t[k]) by {
            assert(t[k] == s[k]);
        }
        lemma_filter_outside_noop(t, d);
        t.lemma_filter_push(x, outside(d));
    }
}

impl Layer {
    /// Rewrites every listing of `from` to `to`, in place.
    pub fn rename_element(&mut self, from: ElementRef, to: ElementRef)
        ensures
            final(self).id == old(self).id,
            final(self).name == old(self).name,
            final(self).elements@ == old(self).elements@.map_values(|e: ElementRef| renamed(e, from, to)),
    {
        let mut i: usize = 0;
        while i < self.elements.len()
            invariant
                i <= self.elements@.len(),
                self.elements@.len() == old(self).elements@.len(),
                self.id == old(self).id,
                self.name == old(self).name,
                forall|j: int| 0 <= j < i ==> #[trigger] self.elements@[j] == renamed(old(self).elements@[j], from, to),
                forall|j: int| i <= j < self.elements@.len() ==> #[trigger] self.elements@[j] == old(self).elements@[j],
            decreases self.elements@.len() - i,
        {
            if self.elements[i] == from {
                self.elements.set(i, to);
            }
            i = i + 1;
        }
        proof {
            assert(self.elements@ =~= old(self).elements@.map_values(|e: ElementRef| renamed(e, from, to)));
        }
    }

    pub fn retain_element(&mut self, el: ElementRef)
        ensures
            final(self).id == old(self).id,
            final(self).name == old(self).name,
            final(self).elements@ == without(old(self).elements@, el),
    {
        let ghost pred = outside(set![el]);
        let mut kept: Vec<ElementRef> = Vec::new();
        let mut i: usize = 0;
        while i < self.elements.len()
            invariant
                i <= self.elements@.len(),
                pred == outside(set![el]),
                kept@ == self.elements@.take(i as int).filter(pred),
            decreases self.elements@.len() - i,
        {
            proof {
                assert(self.elements@.take(i as int + 1) == self.elements@.take(i as int).push(self.elements@[i as int]));
                self.elements@.take(i as int).lemma_filter_push(self.elements@[i as int], pred);
            }
            let e = self.elements[i];
            assert(pred(e) == (e != el));
            if e != el {
                kept.push(e);
            }
            i = i + 1;
        }
        proof {
            assert(self.elements@.take(i as int) == self.elements@);
        }
        self.elements = kept;
    }
}


/// `s` plus `p` unless `s` already holds it.
pub open spec fn push_new(s: Seq<PointId>, p: PointId) -> Seq<PointId> {
    if s.contains(p) {
        s
    } else {
        s.push(p)
    }
}

/// Appending the new items of `ps` keeps `acc` in front, adds no
/// duplicate, and holds exactly the items of both.
pub proof fn lemma_push_all_new(acc: Seq<PointId>, ps: Seq<PointId>)
    ensures
        push_all_new(acc, ps).len() >= acc.len(),
        push_all_new(acc, ps).take(acc.len() as int) == acc,
        acc.no_duplicates() ==> push_all_new(acc, ps).no_duplicates(),
        forall|p: PointId| #[trigger] push_all_new(acc, ps).contains(p) <==> acc.contains(p) || ps.contains(p),
    decreases ps.len(),
{
    if ps.len() == 0 {
        assert(acc.take(acc.len() as int) =~= acc);
    } else {
        let pre = push_all_new(acc, ps.drop_last());
        lemma_push_all_new(acc, ps.drop_last());
        let x = ps.last();
        if !pre.contains(x) {
            assert(pre.push(x).take(acc.len() as int) =~= pre.take(acc.len() as int));
        }
        assert forall|p: PointId| #[trigger] push_all_new(acc, ps).contains(p) <==> acc.contains(p) || ps.contains(p) by {
            if ps.contains(p) && !ps.drop_last().contains(p) {
                let k = choose|k: int| 0 <= k < ps.len() && ps[k] == p;
                if k < ps.len() - 1 {
                    assert(ps.drop_last()[k] == p);
                }
                if !pre.contains(x) {
                    assert(pre.push(x)[pre.len() as int] == x);
                }
            }
            if ps.drop_last().contains(p) {
                let k = choose|k: int| 0 <= k < ps.drop_last().len() && ps.drop_last()[k] == p;
                assert(ps[k] == p);
            }
            if !pre.contains(x) && pre.push(x).contains(p) && !pre.contains(p) {
                let k = choose|k: int| 0 <= k < pre.push(x).len() && pre.push(x)[k] == p;
                if k < pre.len() {
                    assert(pre[k] == p);
                }
            }
            if pre.contains(p) && !pre.contains(x) {
                let k = choose|k: int| 0 <= k < pre.len() && pre[k] == p;
                assert(pre.push(x)[k] == p);
            }
        }
    }
}

pub open spec fn push_opt(s: Seq<PointId>, o: Option<PointId>) -> Seq<PointId> {
    match o {
        Some(p) => push_new(s, p),
        None => s,
    }
}

/// Folds `push_new` over `ps`.
pub open spec fn push_all_new(acc: Seq<PointId>, ps: Seq<PointId>) -> Seq<PointId>
    decreases ps.len(),
{
    if ps.len() == 0 {
        acc
    } else {
        push_new(push_all_new(acc, ps.drop_last()), ps.last())
    }
}

pub open spec fn opt_seq(o: Option<PointId>) -> Seq<PointId> {
    match o {
        Some(p) => seq![p],
        None => seq![],
    }
}

/// Every point a segment references: endpoints, then arc control and
/// center, then bezier handles.
pub open spec fn seg_all_points(s: Segment) -> Seq<PointId> {
    seq![s.start, s.end] + opt_seq(s.ctrl) + opt_seq(s.center) + opt_seq(s.handle_out) + opt_seq(s.handle_in)
}

/// `b` is `a` with every element of `gone` taken out of every layer.
pub open spec fn layers_detached(a: Seq<Layer>, b: Seq<Layer>, gone: Set<ElementRef>) -> bool {
    &&& b.len() == a.len()
    &&& forall|i: int| 0 <= i < a.len() ==> {
        &&& (#[trigger] b[i]).id == a[i].id
        &&& b[i].name == a[i].name
        &&& b[i].elements@ == a[i].elements@.filter(outside(gone))
    }
}

/// `e` with `from` written as `to`.
pub open spec fn renamed(e: ElementRef, from: ElementRef, to: ElementRef) -> ElementRef {
    if e == from { to } else { e }
}

/// `b` is `a` with every listing of `from` in every layer rewritten to
/// `to`, in place.
pub open spec fn layers_renamed(a: Seq<Layer>, b: Seq<Layer>, from: ElementRef, to: ElementRef) -> bool {
    &&& b.len() == a.len()
    &&& forall|i: int| 0 <= i < a.len() ==> {
        &&& (#[trigger] b[i]).id == a[i].id
        &&& b[i].name == a[i].name
        &&& b[i].elements@ == a[i].elements@.map_values(|e: ElementRef| renamed(e, from, to))
    }
}

/// Detaching `g1`, then `g2`, detaches their union.
pub proof fn lemma_layers_detached_compose(a: Seq<Layer>, b: Seq<Layer>, c: Seq<Layer>, g1: Set<ElementRef>, g2: Set<ElementRef>)
    requires
        layers_detached(a, b, g1),
        layers_detached(b, c, g2),
    ensures
        layers_detached(a, c, g1.union(g2)),
{
    assert forall|i: int| 0 <= i < a.len() implies c[i].elements@ == a[i].elements@.filter(outside(g1.union(g2))) by {
        assert(b[i].elements@ == a[i].elements@.filter(outside(g1)));
        assert(c[i].elements@ == b[i].elements@.filter(outside(g2)));
        lemma_filter_outside_compose(a[i].elements@, g1, g2);
    }
}

pub proof fn lemma_layers_detached_refl(a: Seq<Layer>)
    ensures
        layers_detached(a, a, Set::empty()),
{
    assert forall|i: int| 0 <= i < a.len() implies a[i].elements@ == a[i].elements@.filter(outside(Set::<ElementRef>::empty())) by {
        lemma_filter_outside_noop(a[i].elements@, Set::<ElementRef>::empty());
    }
}

/// Whether `v` holds `p`.
pub fn contains_point(v: &Vec<PointId>, p: PointId) -> (r: bool)
    ensures
        r == v@.contains(p),
{
    let mut i: usize = 0;
    while i < v.len()
        invariant
            i <= v@.len(),
            forall|j: int| 0 <= j < i ==> v@[j] != p,
        decreases v@.len() - i,
    {
        if v[i] == p {
            assert(v@[i as int] == p);
            return true;
        }
        i = i + 1;
    }
    false
}

/// Pushes `p` unless `v` already holds it.
pub fn push_point_new(v: &mut Vec<PointId>, p: PointId)
    ensures
        final(v)@ == push_new(old(v)@, p),
{
    if !contains_point(v, p) {
        v.push(p);
    }
}

/// Whether `v` holds `s`.
pub fn contains_segment(v: &Vec<SegmentId>, s: SegmentId) -> (r: bool)
    ensures
        r == v@.contains(s),
{
    let mut i: usize = 0;
    while i < v.len()
        invariant
            i <= v@.len(),
            forall|j: int| 0 <= j < i ==> v@[j] != s,
        decreases v@.len() - i,
    {
        if v[i] == s {
            assert(v@[i as int] == s);
            return true;
        }
        i = i + 1;
    }
    false
}

/// Whether `v` holds `c`.
pub fn contains_constraint(v: &Vec<Constraint>, c: &Constraint) -> (r: bool)
    ensures
        r == v@.contains(*c),
{
    let mut i: usize = 0;
    while i < v.len()
        invariant
            i <= v@.len(),
            forall|j: int| 0 <= j < i ==> v@[j] != *c,
        decreases v@.len() - i,
    {
        if v[i] == *c {
            assert(v@[i as int] == *c);
            return true;
        }
        i = i + 1;
    }
    false
}


/// Whether `segs` holds a member of `dead`.
pub open spec fn touches(segs: Seq<SegmentId>, dead: Set<SegmentId>) -> bool {
    exists|k: int| 0 <= k < segs.len() && dead.contains(#[trigger] segs[k])
}

/// Fill slots whose loop runs through a `dead` segment.
pub open spec fn fill_touched(a: Arena<Fill>, dead: Set<SegmentId>) -> spec_fn(int) -> bool {
    |i: int| touches(a.slots@[i].value.unwrap().segments@, dead)
}

pub open spec fn corners(n: nat) -> Seq<ContinuityMode> {
    Seq::new(n, |i: int| ContinuityMode::Corner)
}

/// Each anchor paired with itself (collapsed handles).
pub open spec fn collapsed(a: Seq<PointId>) -> Seq<(PointId, PointId)> {
    Seq::new(a.len(), |i: int| (a[i], a[i]))
}

/// Anchor count of a chain of `n` segments.
pub open spec fn anchor_count(n: int, closed: bool) -> int {
    if closed {
        n
    } else {
        n + 1
    }
}

/// `q` is path `p` with the `dead` segments spliced out: continuity reset
/// to Corner and handles collapsed onto the (re-indexed) anchors, which
/// are resolved in `doc`.
pub open spec fn path_spliced(doc: Document, p: Path, q: Path, dead: Set<SegmentId>) -> bool {
    let segs = p.segments@.filter(outside(dead));
    &&& q.segments@ == segs
    &&& q.closed == p.closed
    &&& q.continuity@ == corners(anchor_count(segs.len() as int, p.closed) as nat)
    &&& q.handles@ == (match doc.strict_anchors(segs, p.closed) {
        Some(a) => collapsed(a),
        None => seq![],
    })
}

/// How one path slot fares when `dead` segments are spliced out of it:
/// untouched paths stay, paths left without segments are vacated, the
/// rest are spliced in place.
pub open spec fn path_slot_after(x: Slot<Path>, y: Slot<Path>, touched: bool, dead: Set<SegmentId>, doc: Document) -> bool {
    if touched && x.value.unwrap().segments@.filter(outside(dead)).len() == 0 {
        y == Slot::<Path> { generation: (x.generation + 1) as u32, value: None }
    } else if touched {
        &&& y.generation == x.generation
        &&& y.value is Some
        &&& path_spliced(doc, x.value.unwrap(), y.value.unwrap(), dead)
    } else {
        y == x
    }
}

/// Path slot `i` of `a` is live, selected, and runs through `dead`.
pub open spec fn path_touched(a: Arena<Path>, i: int, dead: Set<SegmentId>, sel: spec_fn(int) -> bool) -> bool {
    a.is_live(i) && sel(i) && touches(a.slots@[i].value.unwrap().segments@, dead)
}

/// `b` is `a` after splicing `dead` segments out of every selected path.
pub open spec fn paths_spliced(a: Arena<Path>, b: Arena<Path>, dead: Set<SegmentId>, doc: Document, sel: spec_fn(int) -> bool) -> bool {
    &&& b.slots@.len() == a.slots@.len()
    &&& forall|i: int| 0 <= i < a.slots@.len() ==> path_slot_after(a.slots@[i], #[trigger] b.slots@[i], path_touched(a, i, dead, sel), dead, doc)
    &&& b.free@.len() >= a.free@.len()
    &&& b.free@.take(a.free@.len() as int) == a.free@
    &&& forall|k: int| a.free@.len() <= k < b.free@.len() ==> {
        let i = #[trigger] b.free@[k] as int;
        &&& path_touched(a, i, dead, sel)
        &&& a.slots@[i].value.unwrap().segments@.filter(outside(dead)).len() == 0
    }
    &&& forall|k: int, l: int| a.free@.len() <= k < l < b.free@.len() ==> #[trigger] b.free@[k] != #[trigger] b.free@[l]
}

/// Every path slot is selected.
pub open spec fn all_slots() -> spec_fn(int) -> bool {
    |i: int| true
}

impl Document {
    /// Every occupied slot in every arena can still have its generation
    /// bumped by a removal.
    pub open spec fn live_gens_ok(&self) -> bool {
        &&& self.points.gens_ok()
        &&& self.segments.gens_ok()
        &&& self.fills.gens_ok()
        &&& self.paths.gens_ok()
    }

    /// The layer entries that go when the `dead` segments are removed from
    /// `self`: the segments, the fills through them, and the paths they
    /// empty.
    pub open spec fn cascade_gone(&self, dead: Set<SegmentId>) -> Set<ElementRef> {
        Set::new(|e: ElementRef| match e {
            ElementRef::Segment(s) => dead.contains(s),
            ElementRef::Fill(f) => self.fl(f) is Some && touches(self.fl(f).unwrap().segments@, dead),
            ElementRef::Path(p) => self.ph(p) is Some && touches(self.ph(p).unwrap().segments@, dead)
                && self.ph(p).unwrap().segments@.filter(outside(dead)).len() == 0,
            ElementRef::Point(_) => false,
        })
    }
}

/// Slots named by the first `k` ids of `ids`.
pub open spec fn fill_prefix(ids: Seq<FillId>, k: int) -> spec_fn(int) -> bool {
    |i: int| exists|j: int| 0 <= j < k && (#[trigger] ids[j]).idx == i
}

/// The fill entries named by the first `k` ids of `ids`.
pub open spec fn fill_entries(ids: Seq<FillId>, k: int) -> Set<ElementRef> {
    Set::new(|e: ElementRef| exists|j: int| 0 <= j < k && e == ElementRef::Fill(#[trigger] ids[j]))
}

/// The path entries among the first `k` ids of `ids` that `dead`
/// segments empty.
pub open spec fn emptied_entries(ids: Seq<PathId>, k: int, doc: Document, dead: Set<SegmentId>) -> Set<ElementRef> {
    Set::new(|e: ElementRef| exists|j: int| 0 <= j < k && e == ElementRef::Path(#[trigger] ids[j])
        && doc.ph(ids[j]).unwrap().segments@.filter(outside(dead)).len() == 0)
}

/// Slots named by the first `k` ids of `ids`.
pub open spec fn path_prefix(ids: Seq<PathId>, k: int) -> spec_fn(int) -> bool {
    |i: int| exists|j: int| 0 <= j < k && (#[trigger] ids[j]).idx == i
}

impl Document {
    /// The fill entries of live fills running through a `dead` segment.
    pub open spec fn fills_gone(&self, dead: Set<SegmentId>) -> Set<ElementRef> {
        Set::new(|e: ElementRef| match e {
            ElementRef::Fill(f) => self.fl(f) is Some && touches(self.fl(f).unwrap().segments@, dead),
            _ => false,
        })
    }

    /// The path entries of live paths that `dead` segments empty.
    pub open spec fn paths_gone(&self, dead: Set<SegmentId>) -> Set<ElementRef> {
        Set::new(|e: ElementRef| match e {
            ElementRef::Path(p) => self.ph(p) is Some && touches(self.ph(p).unwrap().segments@, dead)
                && self.ph(p).unwrap().segments@.filter(outside(dead)).len() == 0,
            _ => false,
        })
    }
}

pub struct Document {
    /// View/snap toggles, saved per design.
    pub settings: DocSettings,
    pub layers: Vec<Layer>,
    pub points: Arena<PointPos>,
    pub segments: Arena<Segment>,
    pub fills: Arena<Fill>,
    pub paths: Arena<Path>,
    /// Geometric constraints binding point pairs.
    pub constraints: Vec<Constraint>,
    /// Dimensional measurements.
    pub dimensions: Vec<Dimension>,
}

/// Index of the first layer of `s` with the given id, or -1.
pub open spec fn first_layer(s: Seq<Layer>, id: u64) -> int
    decreases s.len(),
{
    if s.len() == 0 {
        -1
    } else {
        let f = first_layer(s.drop_last(), id);
        if f >= 0 {
            f
        } else if s.last().id == id {
            s.len() - 1
        } else {
            -1
        }
    }
}

pub proof fn lemma_first_layer_bounds(s: Seq<Layer>, id: u64)
    ensures
        -1 <= first_layer(s, id) < s.len(),
        first_layer(s, id) >= 0 ==> s[first_layer(s, id)].id == id,
        first_layer(s, id) >= 0 ==> forall|j: int| 0 <= j < first_layer(s, id) ==> s[j].id != id,
        first_layer(s, id) < 0 ==> forall|j: int| 0 <= j < s.len() ==> s[j].id != id,
    decreases s.len(),
{
    if s.len() > 0 {
        lemma_first_layer_bounds(s.drop_last(), id);
        assert forall|j: int| 0 <= j < s.len() - 1 implies s.drop_last()[j] == s[j] by {}
    }
}

pub proof fn lemma_first_layer_prefix(s: Seq<Layer>, id: u64, k: int)
    requires
        0 <= k <= s.len(),
        first_layer(s.take(k), id) >= 0,
    ensures
        first_layer(s, id) == first_layer(s.take(k), id),
    decreases s.len() - k,
{
    if k < s.len() {
        assert(s.take(k + 1).drop_last() =~= s.take(k));
        lemma_first_layer_prefix(s, id, k + 1);
    } else {
        assert(s.take(k) =~= s);
    }
}

impl Document {
    /// Starts of the resolvable segments of `segs`, in order.
    pub open spec fn lenient_starts(&self, segs: Seq<SegmentId>) -> Seq<PointId>
        decreases segs.len(),
    {
        if segs.len() == 0 {
            seq![]
        } else {
            let pre = self.lenient_starts(segs.drop_last());
            match self.sg(segs.last()) {
                Some(s) => pre.push(s.start),
                None => pre,
            }
        }
    }

    /// The anchors a new path over `segs` gets: each resolvable segment's
    /// start, plus the last segment's end when the path is open.
    pub open spec fn lenient_anchors(&self, segs: Seq<SegmentId>, closed: bool) -> Seq<PointId> {
        let st = self.lenient_starts(segs);
        if !closed && segs.len() > 0 {
            match self.sg(segs.last()) {
                Some(s) => st.push(s.end),
                None => st,
            }
        } else {
            st
        }
    }

    /// Each segment's start, or `None` when any segment is missing.
    pub open spec fn strict_starts(&self, segs: Seq<SegmentId>) -> Option<Seq<PointId>>
        decreases segs.len(),
    {
        if segs.len() == 0 {
            Some(seq![])
        } else {
            match (self.strict_starts(segs.drop_last()), self.sg(segs.last())) {
                (Some(pre), Some(s)) => Some(pre.push(s.start)),
                _ => None,
            }
        }
    }

    /// Ordered anchors of a chain: each segment's start, plus the final end
    /// when open; `None` when any segment is missing.
    pub open spec fn strict_anchors(&self, segs: Seq<SegmentId>, closed: bool) -> Option<Seq<PointId>> {
        match self.strict_starts(segs) {
            None => None,
            Some(st) => if !closed && segs.len() > 0 {
                match self.sg(segs.last()) {
                    Some(s) => Some(st.push(s.end)),
                    None => None,
                }
            } else {
                Some(st)
            },
        }
    }

    /// Adds the bezier handles of the resolvable segments of `segs`
    /// (out-handle, then in-handle) that `acc` does not hold yet.
    pub open spec fn add_handles(&self, acc: Seq<PointId>, segs: Seq<SegmentId>) -> Seq<PointId>
        decreases segs.len(),
    {
        if segs.len() == 0 {
            acc
        } else {
            let a = self.add_handles(acc, segs.drop_last());
            match self.sg(segs.last()) {
                Some(s) => push_opt(push_opt(a, s.handle_out), s.handle_in),
                None => a,
            }
        }
    }

    /// Every point a path owns: its anchors plus its bezier handles.
    pub open spec fn path_points_spec(&self, id: PathId) -> Seq<PointId> {
        match self.ph(id) {
            Some(p) => {
                let base = match self.strict_anchors(p.segments@, p.closed) {
                    Some(a) => a,
                    None => seq![],
                };
                self.add_handles(base, p.segments@)
            },
            None => seq![],
        }
    }

    /// Endpoints of the resolvable segments of a loop, segment by segment.
    pub open spec fn fill_corners(&self, segs: Seq<SegmentId>) -> Seq<PointId>
        decreases segs.len(),
    {
        if segs.len() == 0 {
            seq![]
        } else {
            let pre = self.fill_corners(segs.drop_last());
            match self.sg(segs.last()) {
                Some(s) => pre + seq![s.start, s.end],
                None => pre,
            }
        }
    }

    /// All points referenced by an element.
    pub open spec fn element_points_spec(&self, el: ElementRef) -> Seq<PointId> {
        match el {
            ElementRef::Point(p) => seq![p],
            ElementRef::Segment(s) => match self.sg(s) {
                Some(seg) => seg_all_points(seg),
                None => seq![],
            },
            ElementRef::Fill(f) => match self.fl(f) {
                Some(fill) => self.fill_corners(fill.segments@),
                None => seq![],
            },
            ElementRef::Path(p) => self.path_points_spec(p),
        }
    }

    /// Deduplicated points of a list of elements, in first-seen order.
    pub open spec fn selection_points_spec(&self, els: Seq<ElementRef>) -> Seq<PointId>
        decreases els.len(),
    {
        if els.len() == 0 {
            seq![]
        } else {
            push_all_new(self.selection_points_spec(els.drop_last()), self.element_points_spec(els.last()))
        }
    }

    /// The selection's points hold no duplicate, and hold exactly the
    /// points of its elements.
    pub proof fn lemma_selection_points(&self, els: Seq<ElementRef>)
        ensures
            self.selection_points_spec(els).no_duplicates(),
            forall|p: PointId| #[trigger] self.selection_points_spec(els).contains(p) <==> exists|i: int| 0 <= i < els.len()
                && (#[trigger] self.element_points_spec(els[i])).contains(p),
        decreases els.len(),
    {
        if els.len() > 0 {
            self.lemma_selection_points(els.drop_last());
            lemma_push_all_new(self.selection_points_spec(els.drop_last()), self.element_points_spec(els.last()));
            assert forall|p: PointId| #[trigger] self.selection_points_spec(els).contains(p) <==> exists|i: int| 0 <= i < els.len()
                && (#[trigger] self.element_points_spec(els[i])).contains(p) by {
                if exists|i: int| 0 <= i < els.len() && (#[trigger] self.element_points_spec(els[i])).contains(p) {
                    let i = choose|i: int| 0 <= i < els.len() && (#[trigger] self.element_points_spec(els[i])).contains(p);
                    if i < els.len() - 1 {
                        assert(els.drop_last()[i] == els[i]);
                    }
                }
                if self.selection_points_spec(els.drop_last()).contains(p) {
                    let i = choose|i: int| 0 <= i < els.drop_last().len() && (#[trigger] self.element_points_spec(els.drop_last()[i])).contains(p);
                    assert(els[i] == els.drop_last()[i]);
                }
                if self.element_points_spec(els.last()).contains(p) {
                    assert(self.element_points_spec(els[els.len() - 1]).contains(p));
                }
            }
        }
    }
}

/// `c` cut or padded with `Corner` to `want` entries.
pub open spec fn fit_modes(c: Seq<ContinuityMode>, want: nat) -> Seq<ContinuityMode> {
    if c.len() >= want {
        c.take(want as int)
    } else {
        c + Seq::new((want - c.len()) as nat, |i: int| ContinuityMode::Corner)
    }
}

/// The pair collapsed at anchor `i`.
pub open spec fn collapsed_at(anchors: Seq<PointId>, i: int) -> (PointId, PointId) {
    (anchors[i], anchors[i])
}

/// `h` cut to the anchor count, or padded with, for each missing anchor,
/// a pair collapsed at that anchor.
pub open spec fn fit_handles(h: Seq<(PointId, PointId)>, anchors: Seq<PointId>) -> Seq<(PointId, PointId)> {
    if h.len() >= anchors.len() {
        h.take(anchors.len() as int)
    } else {
        h + Seq::new((anchors.len() - h.len()) as nat, |j: int| collapsed_at(anchors, h.len() + j))
    }
}

impl Document {
    /// Every arena's free list is in range and its indices fit in `u32`.
    pub open spec fn wf(&self) -> bool {
        &&& self.points.wf() && self.points.indexable()
        &&& self.segments.wf() && self.segments.indexable()
        &&& self.fills.wf() && self.fills.indexable()
        &&& self.paths.wf() && self.paths.indexable()
    }

    pub open spec fn pt(&self, id: PointId) -> Option<PointPos> {
        self.points.lookup(id.idx, id.generation)
    }

    pub open spec fn sg(&self, id: SegmentId) -> Option<Segment> {
        self.segments.lookup(id.idx, id.generation)
    }

    pub open spec fn fl(&self, id: FillId) -> Option<Fill> {
        self.fills.lookup(id.idx, id.generation)
    }

    pub open spec fn ph(&self, id: PathId) -> Option<Path> {
        self.paths.lookup(id.idx, id.generation)
    }

    /// Same points, segments, fills and paths.
    pub open spec fn same_geometry(&self, o: &Document) -> bool {
        &&& self.points == o.points
        &&& self.segments == o.segments
        &&& self.fills == o.fills
        &&& self.paths == o.paths
    }

    /// Same settings, constraints and dimensions.
    pub open spec fn same_records(&self, o: &Document) -> bool {
        &&& self.settings == o.settings
        &&& self.constraints == o.constraints
        &&& self.dimensions == o.dimensions
    }

    pub fn new() -> (r: Self)
        ensures
            r.wf(),
            r.settings == (DocSettings { show_grid: true, snap_to_grid: false, snap_to_objects: true }),
            r.layers@.len() == 0,
            r.points.slots@.len() == 0 && r.points.free@.len() == 0,
            r.segments.slots@.len() == 0 && r.segments.free@.len() == 0,
            r.fills.slots@.len() == 0 && r.fills.free@.len() == 0,
            r.paths.slots@.len() == 0 && r.paths.free@.len() == 0,
            r.constraints@.len() == 0,
            r.dimensions@.len() == 0,
    {
        Document {
            settings: DocSettings::default(),
            layers: Vec::new(),
            points: Arena::new(),
            segments: Arena::new(),
            fills: Arena::new(),
            paths: Arena::new(),
            constraints: Vec::new(),
            dimensions: Vec::new(),
        }
    }

    /// The first layer with the given id.
    pub fn layer_mut(&mut self, id: u64) -> (r: Option<&mut Layer>)
        ensures
            final(self).same_geometry(old(self)),
            final(self).same_records(old(self)),
            (r is None) == (first_layer(old(self).layers@, id) < 0),
            r is None ==> final(self).layers@ == old(self).layers@,
            r is Some ==> *r.unwrap() == old(self).layers@[first_layer(old(self).layers@, id)],
            r is Some ==> final(self).layers@ == old(self).layers@.update(
                first_layer(old(self).layers@, id),
                *final(r.unwrap()),
            ),
    {
        let mut i: usize = 0;
        while i < self.layers.len()
            invariant
                i <= self.layers@.len(),
                first_layer(self.layers@.take(i as int), id) == -1,
                self.layers@ == old(self).layers@,
                self.same_geometry(old(self)),
                self.same_records(old(self)),
            decreases self.layers@.len() - i,
        {
            proof {
                assert(self.layers@.take(i as int + 1).drop_last() =~= self.layers@.take(i as int));
            }
            if self.layers[i].id == id {
                proof {
                    lemma_first_layer_prefix(self.layers@, id, i as int + 1);
                }
                return Some(&mut self.layers[i]);
            }
            i = i + 1;
        }
        proof {
            assert(self.layers@.take(i as int) =~= self.layers@);
        }
        None
    }

    /// Appends `el` to the first layer with id `layer_id`, if any.
    pub fn push_to_layer(&mut self, layer_id: u64, el: ElementRef)
        ensures
            final(self).same_geometry(old(self)),
            final(self).same_records(old(self)),
            first_layer(old(self).layers@, layer_id) < 0 ==> final(self).layers@ == old(self).layers@,
            first_layer(old(self).layers@, layer_id) >= 0 ==> {
                let i = first_layer(old(self).layers@, layer_id);
                &&& final(self).layers@.len() == old(self).layers@.len()
                &&& forall|j: int| 0 <= j < old(self).layers@.len() && j != i ==> #[trigger] final(self).layers@[j] == old(self).layers@[j]
                &&& final(self).layers@[i].id == old(self).layers@[i].id
                &&& final(self).layers@[i].name == old(self).layers@[i].name
                &&& final(self).layers@[i].elements@ == old(self).layers@[i].elements@.push(el)
            },
    {
        proof {
            lemma_first_layer_bounds(self.layers@, layer_id);
        }
        if let Some(layer) = self.layer_mut(layer_id) {
            layer.elements.push(el);
        }
    }

    // -- points --

    /// Stores a new point (the position is taken as given; callers clamp
    /// coordinates to the document range first).
    pub fn add_point(&mut self, pos: PointPos) -> (r: PointId)
        requires
            old(self).wf(),
            old(self).points.has_room(),
        ensures
            final(self).wf(),
            Arena::inserted(old(self).points, final(self).points, (r.idx, r.generation), pos),
            final(self).pt(r) == Some(pos),
            r.idx != NONE_IDX,
            final(self).segments == old(self).segments,
            final(self).fills == old(self).fills,
            final(self).paths == old(self).paths,
            final(self).layers == old(self).layers,
            final(self).same_records(old(self)),
    {
        let (idx, generation) = self.points.insert(pos);
        PointId { idx, generation }
    }

    pub fn point(&self, id: PointId) -> (r: Option<PointPos>)
        ensures
            r == self.pt(id),
    {
        match self.points.get((id.idx, id.generation)) {
            Some(p) => Some(*p),
            None => None,
        }
    }

    /// Moves a live point; stale ids change nothing.
    pub fn move_point(&mut self, id: PointId, to: PointPos)
        ensures
            old(self).pt(id) is Some ==> final(self).points.slots@ == old(self).points.slots@.update(
                id.idx as int,
                Slot { generation: id.generation, value: Some(to) },
            ),
            old(self).pt(id) is None ==> final(self).points.slots@ == old(self).points.slots@,
            final(self).points.free@ == old(self).points.free@,
            final(self).segments == old(self).segments,
            final(self).fills == old(self).fills,
            final(self).paths == old(self).paths,
            final(self).layers == old(self).layers,
            final(self).same_records(old(self)),
    {
        if let Some(p) = self.points.get_mut((id.idx, id.generation)) {
            *p = to;
        }
    }
    // -- segments --

    /// The insert contract shared by every segment constructor.
    pub open spec fn segment_added(old: &Document, new: &Document, r: SegmentId, seg: Segment) -> bool {
        &&& new.wf()
        &&& Arena::inserted(old.segments, new.segments, (r.idx, r.generation), seg)
        &&& new.sg(r) == Some(seg)
        &&& r.idx != NONE_IDX
        &&& new.points == old.points
        &&& new.fills == old.fills
        &&& new.paths == old.paths
        &&& new.layers == old.layers
        &&& new.same_records(old)
    }

    pub(crate) fn insert_segment(&mut self, seg: Segment) -> (r: SegmentId)
        requires
            old(self).wf(),
            old(self).segments.has_room(),
        ensures
            Self::segment_added(old(self), final(self), r, seg),
    {
        let (idx, generation) = self.segments.insert(seg);
        SegmentId { idx, generation }
    }

    pub fn add_segment(&mut self, start: PointId, end: PointId) -> (r: SegmentId)
        requires
            old(self).wf(),
            old(self).segments.has_room(),
        ensures
            Self::segment_added(old(self), final(self), r, Segment {
                start,
                end,
                kind: SegmentKind::Line,
                stroke_width_bits: 0,
                ctrl: None,
                center: None,
                handle_out: None,
                handle_in: None,
            }),
    {
        self.insert_segment(Segment::line(start, end))
    }

    /// Adds a segment with an explicit kind (ruler and the like).
    pub fn add_segment_kind(&mut self, start: PointId, end: PointId, kind: SegmentKind) -> (r: SegmentId)
        requires
            old(self).wf(),
            old(self).segments.has_room(),
        ensures
            Self::segment_added(old(self), final(self), r, Segment {
                start,
                end,
                kind,
                stroke_width_bits: 0,
                ctrl: None,
                center: None,
                handle_out: None,
                handle_in: None,
            }),
    {
        self.insert_segment(Segment::with_kind(start, end, kind))
    }

    /// Adds a standalone stroked line (the line tool's output).
    pub fn add_stroked_segment(&mut self, start: PointId, end: PointId, stroke_width_bits: u64) -> (r: SegmentId)
        requires
            old(self).wf(),
            old(self).segments.has_room(),
        ensures
            Self::segment_added(old(self), final(self), r, Segment {
                start,
                end,
                kind: SegmentKind::Line,
                stroke_width_bits,
                ctrl: None,
                center: None,
                handle_out: None,
                handle_in: None,
            }),
    {
        self.insert_segment(Segment {
            start,
            end,
            kind: SegmentKind::Line,
            stroke_width_bits,
            ctrl: None,
            center: None,
            handle_out: None,
            handle_in: None,
        })
    }

    /// Adds a circular arc through start -> ctrl -> end with a real center
    /// point.
    pub fn add_arc_segment(&mut self, start: PointId, ctrl: PointId, end: PointId, center: PointId) -> (r: SegmentId)
        requires
            old(self).wf(),
            old(self).segments.has_room(),
        ensures
            Self::segment_added(old(self), final(self), r, Segment {
                start,
                end,
                kind: SegmentKind::Arc,
                stroke_width_bits: 0,
                ctrl: Some(ctrl),
                center: Some(center),
                handle_out: None,
                handle_in: None,
            }),
    {
        self.insert_segment(Segment {
            start,
            end,
            kind: SegmentKind::Arc,
            stroke_width_bits: 0,
            ctrl: Some(ctrl),
            center: Some(center),
            handle_out: None,
            handle_in: None,
        })
    }

    /// Adds a cubic Bezier from start to end: `handle_out` leaves start,
    /// `handle_in` arrives at end.
    pub fn add_bezier_segment(&mut self, start: PointId, handle_out: PointId, handle_in: PointId, end: PointId) -> (r: SegmentId)
        requires
            old(self).wf(),
            old(self).segments.has_room(),
        ensures
            Self::segment_added(old(self), final(self), r, Segment {
                start,
                end,
                kind: SegmentKind::Bezier,
                stroke_width_bits: 0,
                ctrl: None,
                center: None,
                handle_out: Some(handle_out),
                handle_in: Some(handle_in),
            }),
    {
        self.insert_segment(Segment {
            start,
            end,
            kind: SegmentKind::Bezier,
            stroke_width_bits: 0,
            ctrl: None,
            center: None,
            handle_out: Some(handle_out),
            handle_in: Some(handle_in),
        })
    }

    pub fn segment(&self, id: SegmentId) -> (r: Option<Segment>)
        ensures
            r == self.sg(id),
    {
        match self.segments.get((id.idx, id.generation)) {
            Some(s) => Some(*s),
            None => None,
        }
    }

    /// Resolved endpoint positions of a segment.
    pub fn segment_geom(&self, id: SegmentId) -> (r: Option<(PointPos, PointPos)>)
        ensures
            r == (match self.sg(id) {
                Some(s) => match (self.pt(s.start), self.pt(s.end)) {
                    (Some(a), Some(b)) => Some((a, b)),
                    _ => None,
                },
                None => None,
            }),
    {
        let s = match self.segment(id) {
            Some(s) => s,
            None => return None,
        };
        let a = match self.point(s.start) {
            Some(a) => a,
            None => return None,
        };
        let b = match self.point(s.end) {
            Some(b) => b,
            None => return None,
        };
        Some((a, b))
    }

    /// Resolved cubic control points (P0, P1, P2, P3) of a bezier. A
    /// missing handle degenerates to its endpoint.
    pub fn bezier_geom(&self, id: SegmentId) -> (r: Option<(PointPos, PointPos, PointPos, PointPos)>)
        ensures
            r == (match self.sg(id) {
                Some(s) => if s.kind != SegmentKind::Bezier {
                    None
                } else {
                    match (self.pt(s.start), self.pt(s.end)) {
                        (Some(p0), Some(p3)) => {
                            let p1 = match s.handle_out {
                                Some(h) => match self.pt(h) {
                                    Some(q) => q,
                                    None => p0,
                                },
                                None => p0,
                            };
                            let p2 = match s.handle_in {
                                Some(h) => match self.pt(h) {
                                    Some(q) => q,
                                    None => p3,
                                },
                                None => p3,
                            };
                            Some((p0, p1, p2, p3))
                        },
                        _ => None,
                    }
                },
                None => None,
            }),
    {
        let s = match self.segment(id) {
            Some(s) => s,
            None => return None,
        };
        if s.kind != SegmentKind::Bezier {
            return None;
        }
        let p0 = match self.point(s.start) {
            Some(p) => p,
            None => return None,
        };
        let p3 = match self.point(s.end) {
            Some(p) => p,
            None => return None,
        };
        let p1 = match s.handle_out {
            Some(h) => match self.point(h) {
                Some(q) => q,
                None => p0,
            },
            None => p0,
        };
        let p2 = match s.handle_in {
            Some(h) => match self.point(h) {
                Some(q) => q,
                None => p3,
            },
            None => p3,
        };
        Some((p0, p1, p2, p3))
    }

    /// All live segments (id + payload), by slot index.
    pub fn all_segments(&self) -> (r: Vec<(SegmentId, Segment)>)
        requires
            self.wf(),
        ensures
            forall|k: int| 0 <= k < r@.len() ==> self.sg((#[trigger] r@[k]).0) == Some(r@[k].1),
            forall|k: int, l: int| 0 <= k < l < r@.len() ==> (#[trigger] r@[k]).0.idx < (#[trigger] r@[l]).0.idx,
            forall|id: SegmentId| #[trigger] self.sg(id) is Some ==> exists|k: int| 0 <= k < r@.len() && (#[trigger] r@[k]).0 == id,
    {
        let ids = self.segments.iter();
        let mut out: Vec<(SegmentId, Segment)> = Vec::new();
        let mut k: usize = 0;
        while k < ids.len()
            invariant
                k <= ids@.len(),
                out@.len() == k,
                forall|j: int| 0 <= j < ids@.len() ==> {
                    &&& (#[trigger] ids@[j]).0 < self.segments.slots@.len()
                    &&& self.segments.slots@[ids@[j].0 as int].value is Some
                    &&& self.segments.slots@[ids@[j].0 as int].generation == ids@[j].1
                },
                forall|j: int| 0 <= j < k ==> (#[trigger] out@[j]).0 == (SegmentId { idx: ids@[j].0, generation: ids@[j].1 }),
                forall|j: int| 0 <= j < k ==> self.sg((#[trigger] out@[j]).0) == Some(out@[j].1),
            decreases ids@.len() - k,
        {
            let (idx, generation) = ids[k];
            let id = SegmentId { idx, generation };
            let seg = *self.segments.get((idx, generation)).unwrap();
            out.push((id, seg));
            k = k + 1;
        }
        proof {
            assert forall|a: int, b: int| 0 <= a < b < out@.len() implies (#[trigger] out@[a]).0.idx < (#[trigger] out@[b]).0.idx by {
                assert(ids@[a].0 < ids@[b].0);
            }
            assert forall|id: SegmentId| #[trigger] self.sg(id) is Some implies exists|j: int| 0 <= j < out@.len() && (#[trigger] out@[j]).0 == id by {
                assert(self.segments.is_live(id.idx as int));
                let j = choose|j: int| 0 <= j < ids@.len() && (#[trigger] ids@[j]).0 == id.idx;
                assert(out@[j].0 == id);
            }
        }
        out
    }

    /// All live points (id + position), by slot index.
    pub fn all_points(&self) -> (r: Vec<(PointId, PointPos)>)
        requires
            self.wf(),
        ensures
            forall|k: int| 0 <= k < r@.len() ==> self.pt((#[trigger] r@[k]).0) == Some(r@[k].1),
            forall|k: int, l: int| 0 <= k < l < r@.len() ==> (#[trigger] r@[k]).0.idx < (#[trigger] r@[l]).0.idx,
            forall|id: PointId| #[trigger] self.pt(id) is Some ==> exists|k: int| 0 <= k < r@.len() && (#[trigger] r@[k]).0 == id,
    {
        let ids = self.points.iter();
        let mut out: Vec<(PointId, PointPos)> = Vec::new();
        let mut k: usize = 0;
        while k < ids.len()
            invariant
                k <= ids@.len(),
                out@.len() == k,
                forall|j: int| 0 <= j < ids@.len() ==> {
                    &&& (#[trigger] ids@[j]).0 < self.points.slots@.len()
                    &&& self.points.slots@[ids@[j].0 as int].value is Some
                    &&& self.points.slots@[ids@[j].0 as int].generation == ids@[j].1
                },
                forall|j: int| 0 <= j < k ==> (#[trigger] out@[j]).0 == (PointId { idx: ids@[j].0, generation: ids@[j].1 }),
                forall|j: int| 0 <= j < k ==> self.pt((#[trigger] out@[j]).0) == Some(out@[j].1),
            decreases ids@.len() - k,
        {
            let (idx, generation) = ids[k];
            let id = PointId { idx, generation };
            let pos = *self.points.get((idx, generation)).unwrap();
            out.push((id, pos));
            k = k + 1;
        }
        proof {
            assert forall|a: int, b: int| 0 <= a < b < out@.len() implies (#[trigger] out@[a]).0.idx < (#[trigger] out@[b]).0.idx by {
                assert(ids@[a].0 < ids@[b].0);
            }
            assert forall|id: PointId| #[trigger] self.pt(id) is Some implies exists|j: int| 0 <= j < out@.len() && (#[trigger] out@[j]).0 == id by {
                assert(self.points.is_live(id.idx as int));
                let j = choose|j: int| 0 <= j < ids@.len() && (#[trigger] ids@[j]).0 == id.idx;
                assert(out@[j].0 == id);
            }
        }
        out
    }

    /// Ids of all live fills, by slot index.
    pub fn all_fills(&self) -> (r: Vec<FillId>)
        requires
            self.wf(),
        ensures
            forall|k: int| 0 <= k < r@.len() ==> self.fl(#[trigger] r@[k]) is Some,
            forall|k: int, l: int| 0 <= k < l < r@.len() ==> (#[trigger] r@[k]).idx < (#[trigger] r@[l]).idx,
            forall|id: FillId| #[trigger] self.fl(id) is Some ==> r@.contains(id),
    {
        let ids = self.fills.iter();
        let mut out: Vec<FillId> = Vec::new();
        let mut k: usize = 0;
        while k < ids.len()
            invariant
                k <= ids@.len(),
                out@.len() == k,
                forall|j: int| 0 <= j < ids@.len() ==> {
                    &&& (#[trigger] ids@[j]).0 < self.fills.slots@.len()
                    &&& self.fills.slots@[ids@[j].0 as int].value is Some
                    &&& self.fills.slots@[ids@[j].0 as int].generation == ids@[j].1
                },
                forall|j: int| 0 <= j < k ==> #[trigger] out@[j] == (FillId { idx: ids@[j].0, generation: ids@[j].1 }),
            decreases ids@.len() - k,
        {
            let (idx, generation) = ids[k];
            out.push(FillId { idx, generation });
            k = k + 1;
        }
        proof {
            assert forall|j: int| 0 <= j < out@.len() implies self.fl(#[trigger] out@[j]) is Some by {
                assert(out@[j] == (FillId { idx: ids@[j].0, generation: ids@[j].1 }));
            }
            assert forall|a: int, b: int| 0 <= a < b < out@.len() implies (#[trigger] out@[a]).idx < (#[trigger] out@[b]).idx by {
                assert(ids@[a].0 < ids@[b].0);
            }
            assert forall|id: FillId| #[trigger] self.fl(id) is Some implies out@.contains(id) by {
                assert(self.fills.is_live(id.idx as int));
                let j = choose|j: int| 0 <= j < ids@.len() && (#[trigger] ids@[j]).0 == id.idx;
                assert(out@[j] == id);
            }
        }
        out
    }

    /// Ids of all live paths, by slot index.
    pub fn all_paths(&self) -> (r: Vec<PathId>)
        requires
            self.wf(),
        ensures
            forall|k: int| 0 <= k < r@.len() ==> self.ph(#[trigger] r@[k]) is Some,
            forall|k: int, l: int| 0 <= k < l < r@.len() ==> (#[trigger] r@[k]).idx < (#[trigger] r@[l]).idx,
            forall|id: PathId| #[trigger] self.ph(id) is Some ==> r@.contains(id),
    {
        let ids = self.paths.iter();
        let mut out: Vec<PathId> = Vec::new();
        let mut k: usize = 0;
        while k < ids.len()
            invariant
                k <= ids@.len(),
                out@.len() == k,
                forall|j: int| 0 <= j < ids@.len() ==> {
                    &&& (#[trigger] ids@[j]).0 < self.paths.slots@.len()
                    &&& self.paths.slots@[ids@[j].0 as int].value is Some
                    &&& self.paths.slots@[ids@[j].0 as int].generation == ids@[j].1
                },
                forall|j: int| 0 <= j < k ==> #[trigger] out@[j] == (PathId { idx: ids@[j].0, generation: ids@[j].1 }),
            decreases ids@.len() - k,
        {
            let (idx, generation) = ids[k];
            out.push(PathId { idx, generation });
            k = k + 1;
        }
        proof {
            assert forall|j: int| 0 <= j < out@.len() implies self.ph(#[trigger] out@[j]) is Some by {
                assert(out@[j] == (PathId { idx: ids@[j].0, generation: ids@[j].1 }));
            }
            assert forall|a: int, b: int| 0 <= a < b < out@.len() implies (#[trigger] out@[a]).idx < (#[trigger] out@[b]).idx by {
                assert(ids@[a].0 < ids@[b].0);
            }
            assert forall|id: PathId| #[trigger] self.ph(id) is Some implies out@.contains(id) by {
                assert(self.paths.is_live(id.idx as int));
                let j = choose|j: int| 0 <= j < ids@.len() && (#[trigger] ids@[j]).0 == id.idx;
                assert(out@[j] == id);
            }
        }
        out
    }
    // -- fills --

    pub fn add_fill(&mut self, segments: Vec<SegmentId>) -> (r: FillId)
        requires
            old(self).wf(),
            old(self).fills.has_room(),
        ensures
            final(self).wf(),
            Arena::inserted(old(self).fills, final(self).fills, (r.idx, r.generation), Fill { segments }),
            final(self).fl(r) == Some(Fill { segments }),
            r.idx != NONE_IDX,
            final(self).points == old(self).points,
            final(self).segments == old(self).segments,
            final(self).paths == old(self).paths,
            final(self).layers == old(self).layers,
            final(self).same_records(old(self)),
    {
        let (idx, generation) = self.fills.insert(Fill { segments });
        FillId { idx, generation }
    }

    pub fn fill(&self, id: FillId) -> (r: Option<&Fill>)
        ensures
            r == (match self.fl(id) {
                Some(f) => Some(&f),
                None => None,
            }),
    {
        self.fills.get((id.idx, id.generation))
    }

    /// Takes `el` out of every layer.
    /// Rewrites every layer listing of `from` to `to`.
    pub fn rename_in_layers(&mut self, from: ElementRef, to: ElementRef)
        ensures
            final(self).same_geometry(old(self)),
            final(self).same_records(old(self)),
            layers_renamed(old(self).layers@, final(self).layers@, from, to),
    {
        let mut i: usize = 0;
        while i < self.layers.len()
            invariant
                i <= self.layers@.len(),
                self.layers@.len() == old(self).layers@.len(),
                self.same_geometry(old(self)),
                self.same_records(old(self)),
                forall|j: int| 0 <= j < i ==> {
                    &&& (#[trigger] self.layers@[j]).id == old(self).layers@[j].id
                    &&& self.layers@[j].name == old(self).layers@[j].name
                    &&& self.layers@[j].elements@ == old(self).layers@[j].elements@.map_values(|e: ElementRef| renamed(e, from, to))
                },
                forall|j: int| i <= j < self.layers@.len() ==> #[trigger] self.layers@[j] == old(self).layers@[j],
            decreases self.layers@.len() - i,
        {
            self.layers[i].rename_element(from, to);
            i = i + 1;
        }
    }

    pub fn detach_from_layers(&mut self, el: ElementRef)
        ensures
            final(self).same_geometry(old(self)),
            final(self).same_records(old(self)),
            final(self).layers@.len() == old(self).layers@.len(),
            forall|i: int| 0 <= i < old(self).layers@.len() ==> {
                &&& (#[trigger] final(self).layers@[i]).id == old(self).layers@[i].id
                &&& final(self).layers@[i].name == old(self).layers@[i].name
                &&& final(self).layers@[i].elements@ == without(old(self).layers@[i].elements@, el)
            },
    {
        let mut i: usize = 0;
        while i < self.layers.len()
            invariant
                i <= self.layers@.len(),
                self.layers@.len() == old(self).layers@.len(),
                self.same_geometry(old(self)),
                self.same_records(old(self)),
                forall|j: int| 0 <= j < i ==> {
                    &&& (#[trigger] self.layers@[j]).id == old(self).layers@[j].id
                    &&& self.layers@[j].name == old(self).layers@[j].name
                    &&& self.layers@[j].elements@ == without(old(self).layers@[j].elements@, el)
                },
                forall|j: int| i <= j < self.layers@.len() ==> #[trigger] self.layers@[j] == old(self).layers@[j],
            decreases self.layers@.len() - i,
        {
            self.layers[i].retain_element(el);
            i = i + 1;
        }
    }

    /// Takes `id` out of every layer and removes the fill it names. A stale
    /// id resolves to no fill: nothing is vacated and the result is `false`.
    pub fn remove_fill(&mut self, id: FillId) -> (r: bool)
        requires
            old(self).wf(),
            old(self).fills.can_bump(id.idx),
        ensures
            final(self).wf(),
            r == (old(self).fl(id) is Some),
            Arena::removed(old(self).fills, final(self).fills, id.idx, id.generation),
            final(self).points == old(self).points,
            final(self).segments == old(self).segments,
            final(self).paths == old(self).paths,
            final(self).same_records(old(self)),
            layers_detached(old(self).layers@, final(self).layers@, set![ElementRef::Fill(id)]),
            old(self).live_gens_ok() ==> final(self).live_gens_ok(),
    {
        self.detach_from_layers(ElementRef::Fill(id));
        let ghost before = self.fills;
        let r = self.fills.remove((id.idx, id.generation)).is_some();
        proof {
            assert forall|i: int| #[trigger] self.fills.is_live(i) implies before.is_live(i)
                && self.fills.slots@[i] == before.slots@[i] by {}
        }
        r
    }

    /// Live fills whose loop contains segment `sid`, by slot index.
    fn fills_referencing(&self, sid: SegmentId) -> (r: Vec<FillId>)
        requires
            self.wf(),
        ensures
            forall|k: int| 0 <= k < r@.len() ==> #[trigger] self.fl(r@[k]) is Some && self.fl(r@[k]).unwrap().segments@.contains(sid),
            forall|k: int, l: int| 0 <= k < l < r@.len() ==> (#[trigger] r@[k]).idx < (#[trigger] r@[l]).idx,
            forall|id: FillId| #[trigger] self.fl(id) is Some && self.fl(id).unwrap().segments@.contains(sid) ==> r@.contains(id),
    {
        let all = self.all_fills();
        let mut out: Vec<FillId> = Vec::new();
        let mut k: usize = 0;
        while k < all.len()
            invariant
                k <= all@.len(),
                forall|j: int| 0 <= j < all@.len() ==> self.fl(#[trigger] all@[j]) is Some,
                forall|a: int, b: int| 0 <= a < b < all@.len() ==> (#[trigger] all@[a]).idx < (#[trigger] all@[b]).idx,
                forall|j: int| 0 <= j < out@.len() ==> #[trigger] self.fl(out@[j]) is Some && self.fl(out@[j]).unwrap().segments@.contains(sid),
                forall|j: int| 0 <= j < out@.len() ==> exists|a: int| 0 <= a < k && all@[a] == #[trigger] out@[j],
                forall|a: int, b: int| 0 <= a < b < out@.len() ==> (#[trigger] out@[a]).idx < (#[trigger] out@[b]).idx,
                forall|a: int| 0 <= a < k && self.fl(#[trigger] all@[a]).unwrap().segments@.contains(sid) ==> out@.contains(all@[a]),
            decreases all@.len() - k,
        {
            let fid = all[k];
            let f = self.fill(fid).unwrap();
            if contains_segment(&f.segments, sid) {
                let ghost prev = out@;
                out.push(fid);
                proof {
                    assert forall|j: int| 0 <= j < out@.len() implies exists|a: int| 0 <= a < k + 1 && all@[a] == #[trigger] out@[j] by {
                        if j < prev.len() {
                            assert(out@[j] == prev[j]);
                        } else {
                            assert(all@[k as int] == out@[j]);
                        }
                    }
                    assert forall|a: int, b: int| 0 <= a < b < out@.len() implies (#[trigger] out@[a]).idx < (#[trigger] out@[b]).idx by {
                        if b == out@.len() - 1 {
                            assert(out@[a] == prev[a]);
                            let x = choose|x: int| 0 <= x < k && all@[x] == prev[a];
                        }
                    }
                    assert forall|a: int| 0 <= a < k + 1 && self.fl(#[trigger] all@[a]).unwrap().segments@.contains(sid) implies out@.contains(all@[a]) by {
                        if a < k {
                            let j = choose|j: int| 0 <= j < prev.len() && prev[j] == all@[a];
                            assert(out@[j] == all@[a]);
                        } else {
                            assert(out@[out@.len() - 1] == all@[a]);
                        }
                    }
                }
            }
            k = k + 1;
        }
        proof {
            assert forall|id: FillId| #[trigger] self.fl(id) is Some && self.fl(id).unwrap().segments@.contains(sid) implies out@.contains(id) by {
                assert(all@.contains(id));
                let a = choose|a: int| 0 <= a < all@.len() && all@[a] == id;
            }
        }
        out
    }

    // -- paths --

    /// The anchor list `add_path` derives (missing segments skipped).
    pub(crate) fn lenient_anchor_list(&self, segments: &Vec<SegmentId>, closed: bool) -> (r: Vec<PointId>)
        ensures
            r@ == self.lenient_anchors(segments@, closed),
    {
        let mut out: Vec<PointId> = Vec::new();
        let mut i: usize = 0;
        while i < segments.len()
            invariant
                i <= segments@.len(),
                out@ == self.lenient_starts(segments@.take(i as int)),
            decreases segments@.len() - i,
        {
            proof {
                assert(segments@.take(i as int + 1).drop_last() =~= segments@.take(i as int));
            }
            if let Some(seg) = self.segment(segments[i]) {
                out.push(seg.start);
            }
            i = i + 1;
        }
        proof {
            assert(segments@.take(i as int) =~= segments@);
        }
        if !closed && segments.len() > 0 {
            if let Some(seg) = self.segment(segments[segments.len() - 1]) {
                out.push(seg.end);
            }
        }
        out
    }

    /// Adds a path over ordered segments. `continuity` and `handles` are
    /// fitted to the anchors: short lists pad (Corner / collapsed onto the
    /// first anchor), long ones truncate.
    pub fn add_path(
        &mut self,
        segments: Vec<SegmentId>,
        closed: bool,
        continuity: Vec<ContinuityMode>,
        handles: Vec<(PointId, PointId)>,
    ) -> (r: PathId)
        requires
            old(self).wf(),
            old(self).paths.has_room(),
        ensures
            final(self).wf(),
            r.idx != NONE_IDX,
            final(self).ph(r) is Some,
            ({
                let anchors = old(self).lenient_anchors(segments@, closed);
                let p = final(self).ph(r).unwrap();
                &&& p.segments@ == segments@
                &&& p.closed == closed
                &&& p.continuity@ == fit_modes(continuity@, anchors.len())
                &&& p.handles@ == fit_handles(handles@, anchors)
                &&& Arena::inserted(old(self).paths, final(self).paths, (r.idx, r.generation), p)
            }),
            final(self).points == old(self).points,
            final(self).segments == old(self).segments,
            final(self).fills == old(self).fills,
            final(self).layers == old(self).layers,
            final(self).same_records(old(self)),
    {
        let anchors = self.lenient_anchor_list(&segments, closed);
        let want = anchors.len();
        let mut modes = continuity;
        modes.truncate(want);
        while modes.len() < want
            invariant
                modes@.len() <= want,
                want == anchors@.len(),
                continuity@.len() >= want ==> modes@ == continuity@.take(want as int),
                continuity@.len() < want ==> modes@ == continuity@ + Seq::new((modes@.len() - continuity@.len()) as nat, |i: int| ContinuityMode::Corner),
                continuity@.len() < want ==> modes@.len() >= continuity@.len(),
            decreases want - modes@.len(),
        {
            let ghost prev = modes@;
            modes.push(ContinuityMode::Corner);
            proof {
                assert(modes@ =~= continuity@ + Seq::new((modes@.len() - continuity@.len()) as nat, |i: int| ContinuityMode::Corner));
            }
        }
        proof {
            if continuity@.len() < want {
                assert(modes@ =~= fit_modes(continuity@, want as nat));
            } else {
                assert(modes@ =~= fit_modes(continuity@, want as nat));
            }
        }
        let mut pairs = handles;
        pairs.truncate(want);
        while pairs.len() < want
            invariant
                pairs@.len() <= want,
                want == anchors@.len(),
                handles@.len() >= want ==> pairs@ == handles@.take(want as int),
                handles@.len() < want ==> pairs@ == handles@ + Seq::new((pairs@.len() - handles@.len()) as nat,
                    |j: int| collapsed_at(anchors@, handles@.len() + j)),
                handles@.len() < want ==> pairs@.len() >= handles@.len(),
            decreases want - pairs@.len(),
        {
            let a = anchors[pairs.len()];
            let ghost before = pairs@;
            pairs.push((a, a));
            proof {
                assert(pairs@ =~= handles@ + Seq::new((pairs@.len() - handles@.len()) as nat,
                    |j: int| collapsed_at(anchors@, handles@.len() + j)));
            }
        }
        proof {
            assert(pairs@ =~= fit_handles(handles@, anchors@));
        }
        let (idx, generation) = self.paths.insert(Path { segments, closed, continuity: modes, handles: pairs });
        PathId { idx, generation }
    }

    pub fn path(&self, id: PathId) -> (r: Option<&Path>)
        ensures
            r == (match self.ph(id) {
                Some(p) => Some(&p),
                None => None,
            }),
    {
        self.paths.get((id.idx, id.generation))
    }

    pub fn path_mut(&mut self, id: PathId) -> (r: Option<&mut Path>)
        ensures
            (r is Some) == (old(self).ph(id) is Some),
            r is None ==> final(self).paths.slots@ == old(self).paths.slots@,
            r is Some ==> *r.unwrap() == old(self).ph(id).unwrap(),
            r is Some ==> final(self).paths.slots@ == old(self).paths.slots@.update(
                id.idx as int,
                Slot { generation: id.generation, value: Some(*final(r.unwrap())) },
            ),
            final(self).paths.free@ == old(self).paths.free@,
            final(self).points == old(self).points,
            final(self).segments == old(self).segments,
            final(self).fills == old(self).fills,
            final(self).layers == old(self).layers,
            final(self).same_records(old(self)),
    {
        self.paths.get_mut((id.idx, id.generation))
    }

    /// Every anchor's handle pair, parallel to the anchors.
    pub fn path_handle_pairs(&self, id: PathId) -> (r: Option<Vec<(PointId, PointId)>>)
        ensures
            (r is Some) == (self.ph(id) is Some),
            r is Some ==> r.unwrap()@ == self.ph(id).unwrap().handles@,
    {
        match self.path(id) {
            Some(p) => {
                let mut out: Vec<(PointId, PointId)> = Vec::new();
                let mut i: usize = 0;
                while i < p.handles.len()
                    invariant
                        i <= p.handles@.len(),
                        out@ == p.handles@.take(i as int),
                    decreases p.handles@.len() - i,
                {
                    out.push(p.handles[i]);
                    proof {
                        assert(out@ =~= p.handles@.take(i as int + 1));
                    }
                    i = i + 1;
                }
                proof {
                    assert(p.handles@.take(i as int) =~= p.handles@);
                }
                Some(out)
            },
            None => None,
        }
    }

    /// Takes `id` out of every layer and removes the path it names. A stale
    /// id resolves to no path: nothing is vacated and the result is `false`.
    pub fn remove_path(&mut self, id: PathId) -> (r: bool)
        requires
            old(self).wf(),
            old(self).paths.can_bump(id.idx),
        ensures
            final(self).wf(),
            r == (old(self).ph(id) is Some),
            Arena::removed(old(self).paths, final(self).paths, id.idx, id.generation),
            final(self).points == old(self).points,
            final(self).segments == old(self).segments,
            final(self).fills == old(self).fills,
            final(self).same_records(old(self)),
            layers_detached(old(self).layers@, final(self).layers@, set![ElementRef::Path(id)]),
            old(self).live_gens_ok() ==> final(self).live_gens_ok(),
    {
        self.detach_from_layers(ElementRef::Path(id));
        let ghost before = self.paths;
        let r = self.paths.remove((id.idx, id.generation)).is_some();
        proof {
            assert forall|i: int| #[trigger] self.paths.is_live(i) implies before.is_live(i)
                && self.paths.slots@[i] == before.slots@[i] by {}
        }
        r
    }

    /// Anchors of a segment chain; `None` when any segment is missing.
    fn chain_anchors(&self, segments: &Vec<SegmentId>, closed: bool) -> (r: Option<Vec<PointId>>)
        ensures
            (r is Some) == (self.strict_anchors(segments@, closed) is Some),
            r is Some ==> r.unwrap()@ == self.strict_anchors(segments@, closed).unwrap(),
    {
        let mut out: Vec<PointId> = Vec::new();
        let mut i: usize = 0;
        while i < segments.len()
            invariant
                i <= segments@.len(),
                self.strict_starts(segments@.take(i as int)) == Some(out@),
            decreases segments@.len() - i,
        {
            proof {
                assert(segments@.take(i as int + 1).drop_last() =~= segments@.take(i as int));
            }
            match self.segment(segments[i]) {
                Some(seg) => out.push(seg.start),
                None => {
                    proof {
                        self.lemma_strict_starts_none(segments@, i as int + 1);
                    }
                    return None;
                },
            }
            i = i + 1;
        }
        proof {
            assert(segments@.take(i as int) =~= segments@);
        }
        if !closed && segments.len() > 0 {
            match self.segment(segments[segments.len() - 1]) {
                Some(seg) => out.push(seg.end),
                None => return None,
            }
        }
        Some(out)
    }

    /// Ordered anchor points of a path: each segment's start, plus the
    /// final end when the path is open.
    pub fn path_anchors(&self, id: PathId) -> (r: Option<Vec<PointId>>)
        ensures
            (r is Some) == (self.ph(id) is Some && self.strict_anchors(self.ph(id).unwrap().segments@, self.ph(id).unwrap().closed) is Some),
            r is Some ==> r.unwrap()@ == self.strict_anchors(self.ph(id).unwrap().segments@, self.ph(id).unwrap().closed).unwrap(),
    {
        match self.path(id) {
            Some(p) => self.chain_anchors(&p.segments, p.closed),
            None => None,
        }
    }

    /// Every point a path owns: anchors plus bezier handles.
    pub fn path_points(&self, id: PathId) -> (r: Vec<PointId>)
        ensures
            r@ == self.path_points_spec(id),
    {
        match self.path(id) {
            Some(p) => {
                let mut out = match self.chain_anchors(&p.segments, p.closed) {
                    Some(a) => a,
                    None => Vec::new(),
                };
                let ghost base = out@;
                let mut i: usize = 0;
                while i < p.segments.len()
                    invariant
                        i <= p.segments@.len(),
                        out@ == self.add_handles(base, p.segments@.take(i as int)),
                    decreases p.segments@.len() - i,
                {
                    proof {
                        assert(p.segments@.take(i as int + 1).drop_last() =~= p.segments@.take(i as int));
                    }
                    if let Some(seg) = self.segment(p.segments[i]) {
                        if let Some(h) = seg.handle_out {
                            push_point_new(&mut out, h);
                        }
                        if let Some(h) = seg.handle_in {
                            push_point_new(&mut out, h);
                        }
                    }
                    i = i + 1;
                }
                proof {
                    assert(p.segments@.take(i as int) =~= p.segments@);
                }
                out
            },
            None => Vec::new(),
        }
    }

    /// All points referenced by an element (segment points, loop corners,
    /// path anchors and handles).
    pub fn element_points(&self, el: ElementRef) -> (r: Vec<PointId>)
        ensures
            r@ == self.element_points_spec(el),
    {
        match el {
            ElementRef::Point(p) => {
                let mut v = Vec::new();
                v.push(p);
                proof {
                    assert(v@ =~= seq![p]);
                }
                v
            },
            ElementRef::Segment(s) => match self.segment(s) {
                Some(seg) => {
                    let mut v = Vec::new();
                    v.push(seg.start);
                    v.push(seg.end);
                    if let Some(c) = seg.ctrl {
                        v.push(c);
                    }
                    if let Some(c) = seg.center {
                        v.push(c);
                    }
                    if let Some(h) = seg.handle_out {
                        v.push(h);
                    }
                    if let Some(h) = seg.handle_in {
                        v.push(h);
                    }
                    proof {
                        assert(v@ =~= seg_all_points(seg));
                    }
                    v
                },
                None => Vec::new(),
            },
            ElementRef::Fill(f) => match self.fill(f) {
                Some(fill) => {
                    let mut v: Vec<PointId> = Vec::new();
                    let mut i: usize = 0;
                    while i < fill.segments.len()
                        invariant
                            i <= fill.segments@.len(),
                            v@ == self.fill_corners(fill.segments@.take(i as int)),
                        decreases fill.segments@.len() - i,
                    {
                        proof {
                            assert(fill.segments@.take(i as int + 1).drop_last() =~= fill.segments@.take(i as int));
                        }
                        if let Some(seg) = self.segment(fill.segments[i]) {
                            let ghost prev = v@;
                            v.push(seg.start);
                            v.push(seg.end);
                            proof {
                                assert(v@ =~= prev + seq![seg.start, seg.end]);
                            }
                        }
                        i = i + 1;
                    }
                    proof {
                        assert(fill.segments@.take(i as int) =~= fill.segments@);
                    }
                    v
                },
                None => Vec::new(),
            },
            ElementRef::Path(p) => self.path_points(p),
        }
    }

    /// Deduplicated points of a set of elements, in first-seen order.
    pub fn selection_points(&self, els: &Vec<ElementRef>) -> (r: Vec<PointId>)
        ensures
            r@ == self.selection_points_spec(els@),
            r@.no_duplicates(),
            forall|p: PointId| #[trigger] r@.contains(p) <==> exists|i: int| 0 <= i < els@.len()
                && (#[trigger] self.element_points_spec(els@[i])).contains(p),
    {
        proof {
            self.lemma_selection_points(els@);
        }
        let mut out: Vec<PointId> = Vec::new();
        let mut i: usize = 0;
        while i < els.len()
            invariant
                i <= els@.len(),
                out@ == self.selection_points_spec(els@.take(i as int)),
            decreases els@.len() - i,
        {
            proof {
                assert(els@.take(i as int + 1).drop_last() =~= els@.take(i as int));
            }
            let pts = self.element_points(els[i]);
            let ghost start = out@;
            let mut j: usize = 0;
            while j < pts.len()
                invariant
                    j <= pts@.len(),
                    out@ == push_all_new(start, pts@.take(j as int)),
                decreases pts@.len() - j,
            {
                proof {
                    assert(pts@.take(j as int + 1).drop_last() =~= pts@.take(j as int));
                }
                push_point_new(&mut out, pts[j]);
                j = j + 1;
            }
            proof {
                assert(pts@.take(j as int) =~= pts@);
            }
            i = i + 1;
        }
        proof {
            assert(els@.take(i as int) =~= els@);
        }
        out
    }
}

impl Document {
    /// Anchors only depend on how the chain's segment ids resolve.
    pub proof fn lemma_strict_anchors_frame(d1: Document, d2: Document, segs: Seq<SegmentId>, closed: bool)
        requires
            forall|k: int| 0 <= k < segs.len() ==> d1.sg(#[trigger] segs[k]) == d2.sg(segs[k]),
        ensures
            d1.strict_starts(segs) == d2.strict_starts(segs),
            d1.strict_anchors(segs, closed) == d2.strict_anchors(segs, closed),
        decreases segs.len(),
    {
        if segs.len() > 0 {
            let t = segs.drop_last();
            assert forall|k: int| 0 <= k < t.len() implies d1.sg(#[trigger] t[k]) == d2.sg(t[k]) by {
                assert(t[k] == segs[k]);
            }
            Self::lemma_strict_anchors_frame(d1, d2, t, closed);
            assert(d1.sg(segs[segs.len() - 1]) == d2.sg(segs[segs.len() - 1]));
        }
    }

    proof fn lemma_strict_starts_none(&self, segs: Seq<SegmentId>, k: int)
        requires
            0 <= k <= segs.len(),
            self.strict_starts(segs.take(k)) is None,
        ensures
            self.strict_starts(segs) is None,
            self.strict_anchors(segs, true) is None,
            self.strict_anchors(segs, false) is None,
        decreases segs.len() - k,
    {
        if k < segs.len() {
            assert(segs.take(k + 1).drop_last() =~= segs.take(k));
            self.lemma_strict_starts_none(segs, k + 1);
        } else {
            assert(segs.take(k) =~= segs);
        }
    }
}

impl Document {
    // -- constraints / dimensions --

    /// Appends `c` unless an equal constraint is already stored.
    pub(crate) fn push_constraint_new(&mut self, c: Constraint)
        ensures
            final(self).constraints@ == (if old(self).constraints@.contains(c) {
                old(self).constraints@
            } else {
                old(self).constraints@.push(c)
            }),
            final(self).same_geometry(old(self)),
            final(self).layers == old(self).layers,
            final(self).settings == old(self).settings,
            final(self).dimensions == old(self).dimensions,
    {
        if !contains_constraint(&self.constraints, &c) {
            self.constraints.push(c);
        }
    }

    pub fn add_constraint(&mut self, kind: ConstraintKind, a: PointId, b: PointId)
        ensures
            ({
                let c = Constraint { kind, a, b, tangent_segments: None, point_on_segment: None };
                final(self).constraints@ == (if old(self).constraints@.contains(c) {
                    old(self).constraints@
                } else {
                    old(self).constraints@.push(c)
                })
            }),
            final(self).same_geometry(old(self)),
            final(self).layers == old(self).layers,
            final(self).settings == old(self).settings,
            final(self).dimensions == old(self).dimensions,
    {
        self.push_constraint_new(Constraint { kind, a, b, tangent_segments: None, point_on_segment: None });
    }

    /// Tangency between `line` and `arc` at the contact `point`.
    pub fn add_tangent_constraint(&mut self, line: SegmentId, arc: SegmentId, point: PointId)
        ensures
            ({
                let c = Constraint {
                    kind: ConstraintKind::Tangent,
                    a: point,
                    b: point,
                    tangent_segments: Some((line, arc)),
                    point_on_segment: None,
                };
                final(self).constraints@ == (if old(self).constraints@.contains(c) {
                    old(self).constraints@
                } else {
                    old(self).constraints@.push(c)
                })
            }),
            final(self).same_geometry(old(self)),
            final(self).layers == old(self).layers,
            final(self).settings == old(self).settings,
            final(self).dimensions == old(self).dimensions,
    {
        self.push_constraint_new(Constraint {
            kind: ConstraintKind::Tangent,
            a: point,
            b: point,
            tangent_segments: Some((line, arc)),
            point_on_segment: None,
        });
    }

    /// Parallelism between two live segments (nothing when either is
    /// missing); the point pair is the two segments' starts.
    pub fn add_parallel_constraint(&mut self, first: SegmentId, second: SegmentId)
        ensures
            (old(self).sg(first) is None || old(self).sg(second) is None) ==> final(self).constraints == old(self).constraints,
            (old(self).sg(first) is Some && old(self).sg(second) is Some) ==> {
                let c = Constraint {
                    kind: ConstraintKind::Parallel,
                    a: old(self).sg(first).unwrap().start,
                    b: old(self).sg(second).unwrap().start,
                    tangent_segments: Some((first, second)),
                    point_on_segment: None,
                };
                final(self).constraints@ == (if old(self).constraints@.contains(c) {
                    old(self).constraints@
                } else {
                    old(self).constraints@.push(c)
                })
            },
            final(self).same_geometry(old(self)),
            final(self).layers == old(self).layers,
            final(self).settings == old(self).settings,
            final(self).dimensions == old(self).dimensions,
    {
        let (a, b) = match (self.segment(first), self.segment(second)) {
            (Some(a), Some(b)) => (a, b),
            _ => return,
        };
        self.push_constraint_new(Constraint {
            kind: ConstraintKind::Parallel,
            a: a.start,
            b: b.start,
            tangent_segments: Some((first, second)),
            point_on_segment: None,
        });
    }

    /// Keeps `point` coincident with `edge_point`, a real point lying on
    /// `segment`.
    pub fn add_point_on_segment_constraint(&mut self, point: PointId, edge_point: PointId, segment: SegmentId)
        ensures
            ({
                let c = Constraint {
                    kind: ConstraintKind::Coincident,
                    a: point,
                    b: edge_point,
                    tangent_segments: None,
                    point_on_segment: Some(segment),
                };
                final(self).constraints@ == (if old(self).constraints@.contains(c) {
                    old(self).constraints@
                } else {
                    old(self).constraints@.push(c)
                })
            }),
            final(self).same_geometry(old(self)),
            final(self).layers == old(self).layers,
            final(self).settings == old(self).settings,
            final(self).dimensions == old(self).dimensions,
    {
        self.push_constraint_new(Constraint {
            kind: ConstraintKind::Coincident,
            a: point,
            b: edge_point,
            tangent_segments: None,
            point_on_segment: Some(segment),
        });
    }

    pub fn add_dimension(&mut self, dim: Dimension)
        ensures
            final(self).dimensions@ == old(self).dimensions@.push(dim),
            final(self).same_geometry(old(self)),
            final(self).layers == old(self).layers,
            final(self).settings == old(self).settings,
            final(self).constraints == old(self).constraints,
    {
        self.dimensions.push(dim);
    }
}

/// Slot list `b` is `a` grown with empty generation-0 slots up to index
/// `idx`, with slot `idx` then set to generation `generation`.
pub open spec fn reserved<T>(a: Seq<Slot<T>>, b: Seq<Slot<T>>, idx: u32, generation: u32) -> bool {
    &&& b.len() == (if (idx as int) < a.len() { a.len() as int } else { idx as int + 1 })
    &&& forall|i: int| 0 <= i < a.len() && i != idx ==> #[trigger] b[i] == a[i]
    &&& forall|i: int| a.len() <= i < b.len() && i != idx ==> #[trigger] b[i] == (Slot::<T> { generation: 0, value: None })
    &&& b[idx as int].generation == generation
    &&& b[idx as int].value == (if (idx as int) < a.len() { a[idx as int].value } else { None })
}

impl Document {
    // -- raw inserts (persistence round-trips ids exactly) --

    fn reserve<T>(arena: &mut Arena<T>, idx: u32, generation: u32)
        requires
            old(arena).wf(),
            old(arena).indexable(),
        ensures
            final(arena).wf(),
            final(arena).indexable(),
            final(arena).free@ == old(arena).free@,
            reserved(old(arena).slots@, final(arena).slots@, idx, generation),
    {
        while arena.slots.len() <= idx as usize
            invariant
                arena.wf(),
                arena.free@ == old(arena).free@,
                arena.slots@.len() <= idx as int + 1 || arena.slots@.len() == old(arena).slots@.len(),
                arena.slots@.len() >= old(arena).slots@.len(),
                forall|i: int| 0 <= i < old(arena).slots@.len() ==> #[trigger] arena.slots@[i] == old(arena).slots@[i],
                forall|i: int| old(arena).slots@.len() <= i < arena.slots@.len() ==> #[trigger] arena.slots@[i] == (Slot::<T> { generation: 0, value: None }),
            decreases idx as int + 1 - arena.slots@.len(),
        {
            arena.slots.push(Slot { generation: 0, value: None });
        }
        arena.slots[idx as usize].generation = generation;
    }

    /// Restores a point under an exact id.
    pub fn insert_point_with_id(&mut self, id: PointId, pos: PointPos)
        requires
            old(self).wf(),
        ensures
            final(self).wf(),
            final(self).pt(id) == Some(pos),
            final(self).points.free@ == old(self).points.free@,
            exists|mid: Seq<Slot<PointPos>>| #[trigger] reserved(old(self).points.slots@, mid, id.idx, id.generation)
                && final(self).points.slots@ == mid.update(id.idx as int, Slot { generation: id.generation, value: Some(pos) }),
            final(self).segments == old(self).segments,
            final(self).fills == old(self).fills,
            final(self).paths == old(self).paths,
            final(self).layers == old(self).layers,
            final(self).same_records(old(self)),
    {
        Self::reserve(&mut self.points, id.idx, id.generation);
        let ghost mid = self.points.slots@;
        self.points.set_at(id.idx, pos);
    }

    /// Restores a segment under an exact id.
    pub fn insert_segment_with_id(
        &mut self,
        id: SegmentId,
        start: PointId,
        end: PointId,
        kind: SegmentKind,
        stroke_width_bits: u64,
        ctrl: Option<PointId>,
        center: Option<PointId>,
        handle_out: Option<PointId>,
        handle_in: Option<PointId>,
    )
        requires
            old(self).wf(),
        ensures
            final(self).wf(),
            ({
                let seg = Segment { start, end, kind, stroke_width_bits, ctrl, center, handle_out, handle_in };
                &&& final(self).sg(id) == Some(seg)
                &&& exists|mid: Seq<Slot<Segment>>| #[trigger] reserved(old(self).segments.slots@, mid, id.idx, id.generation)
                    && final(self).segments.slots@ == mid.update(id.idx as int, Slot { generation: id.generation, value: Some(seg) })
            }),
            final(self).segments.free@ == old(self).segments.free@,
            final(self).points == old(self).points,
            final(self).fills == old(self).fills,
            final(self).paths == old(self).paths,
            final(self).layers == old(self).layers,
            final(self).same_records(old(self)),
    {
        Self::reserve(&mut self.segments, id.idx, id.generation);
        self.segments.set_at(id.idx, Segment { start, end, kind, stroke_width_bits, ctrl, center, handle_out, handle_in });
    }

    /// Restores a fill under an exact id.
    pub fn insert_fill_with_id(&mut self, id: FillId, segments: Vec<SegmentId>)
        requires
            old(self).wf(),
        ensures
            final(self).wf(),
            final(self).fl(id) == Some(Fill { segments }),
            exists|mid: Seq<Slot<Fill>>| #[trigger] reserved(old(self).fills.slots@, mid, id.idx, id.generation)
                && final(self).fills.slots@ == mid.update(id.idx as int, Slot { generation: id.generation, value: Some(Fill { segments }) }),
            final(self).fills.free@ == old(self).fills.free@,
            final(self).points == old(self).points,
            final(self).segments == old(self).segments,
            final(self).paths == old(self).paths,
            final(self).layers == old(self).layers,
            final(self).same_records(old(self)),
    {
        Self::reserve(&mut self.fills, id.idx, id.generation);
        self.fills.set_at(id.idx, Fill { segments });
    }

    /// Restores a path under an exact id (lists stored as given).
    pub fn insert_path_with_id(
        &mut self,
        id: PathId,
        segments: Vec<SegmentId>,
        closed: bool,
        continuity: Vec<ContinuityMode>,
        handles: Vec<(PointId, PointId)>,
    )
        requires
            old(self).wf(),
        ensures
            final(self).wf(),
            ({
                let p = Path { segments, closed, continuity, handles };
                &&& final(self).ph(id) == Some(p)
                &&& exists|mid: Seq<Slot<Path>>| #[trigger] reserved(old(self).paths.slots@, mid, id.idx, id.generation)
                    && final(self).paths.slots@ == mid.update(id.idx as int, Slot { generation: id.generation, value: Some(p) })
            }),
            final(self).paths.free@ == old(self).paths.free@,
            final(self).points == old(self).points,
            final(self).segments == old(self).segments,
            final(self).fills == old(self).fills,
            final(self).layers == old(self).layers,
            final(self).same_records(old(self)),
    {
        Self::reserve(&mut self.paths, id.idx, id.generation);
        self.paths.set_at(id.idx, Path { segments, closed, continuity, handles });
    }
}

impl Document {
    /// Removes every live fill whose loop runs through `id`.
    fn remove_fills_through(&mut self, id: SegmentId)
        requires
            old(self).wf(),
            old(self).live_gens_ok(),
        ensures
            final(self).wf(),
            final(self).live_gens_ok(),
            Arena::vacated_where(old(self).fills, final(self).fills, fill_touched(old(self).fills, set![id])),
            layers_detached(old(self).layers@, final(self).layers@, old(self).fills_gone(set![id])),
            final(self).points == old(self).points,
            final(self).segments == old(self).segments,
            final(self).paths == old(self).paths,
            final(self).same_records(old(self)),
    {
        let fids = self.fills_referencing(id);
        let mut k: usize = 0;
        proof {
            Arena::lemma_vacated_where_refl(self.fills, fill_prefix(fids@, 0));
            lemma_layers_detached_refl(self.layers@);
            assert(fill_entries(fids@, 0) =~= Set::<ElementRef>::empty());
        }
        while k < fids.len()
            invariant
                k <= fids@.len(),
                self.wf(),
                self.live_gens_ok(),
                old(self).wf(),
                old(self).live_gens_ok(),
                forall|j: int| 0 <= j < fids@.len() ==> #[trigger] old(self).fl(fids@[j]) is Some && old(self).fl(fids@[j]).unwrap().segments@.contains(id),
                forall|a: int, b: int| 0 <= a < b < fids@.len() ==> (#[trigger] fids@[a]).idx < (#[trigger] fids@[b]).idx,
                forall|f: FillId| #[trigger] old(self).fl(f) is Some && old(self).fl(f).unwrap().segments@.contains(id) ==> fids@.contains(f),
                Arena::vacated_where(old(self).fills, self.fills, fill_prefix(fids@, k as int)),
                layers_detached(old(self).layers@, self.layers@, fill_entries(fids@, k as int)),
                self.points == old(self).points,
                self.segments == old(self).segments,
                self.paths == old(self).paths,
                self.same_records(old(self)),
            decreases fids@.len() - k,
        {
            let fid = fids[k];
            let ghost cur = *self;
            proof {
                Arena::lemma_vacated_where_facts(old(self).fills, self.fills, fill_prefix(fids@, k as int));
                assert(old(self).fl(fids@[k as int]) is Some);
                assert(old(self).fills.is_live(fid.idx as int));
                assert(!fill_prefix(fids@, k as int)(fid.idx as int)) by {
                    if fill_prefix(fids@, k as int)(fid.idx as int) {
                        let j = choose|j: int| 0 <= j < k && (#[trigger] fids@[j]).idx == fid.idx;
                        assert(fids@[j].idx < fids@[k as int].idx);
                    }
                }
                assert(self.fills.slots@[fid.idx as int] == old(self).fills.slots@[fid.idx as int]);
            }
            self.remove_fill(fid);
            proof {
                Arena::lemma_vacated_single(cur.fills, self.fills, fid.idx);
                Arena::lemma_vacated_where_compose(old(self).fills, cur.fills, self.fills, fill_prefix(fids@, k as int), |i: int| i == fid.idx as int);
                Arena::lemma_vacated_where_congruent(
                    old(self).fills,
                    self.fills,
                    |i: int| fill_prefix(fids@, k as int)(i) || (|i: int| i == fid.idx as int)(i),
                    fill_prefix(fids@, k as int + 1),
                );
                Arena::lemma_vacated_where_facts(old(self).fills, self.fills, fill_prefix(fids@, k as int + 1));
                lemma_layers_detached_compose(old(self).layers@, cur.layers@, self.layers@, fill_entries(fids@, k as int), set![ElementRef::Fill(fid)]);
                assert(fill_entries(fids@, k as int).union(set![ElementRef::Fill(fid)]) =~= fill_entries(fids@, k as int + 1));
            }
            k = k + 1;
        }
        proof {
            assert forall|i: int| #[trigger] old(self).fills.is_live(i) implies
                (fill_prefix(fids@, k as int)(i) == fill_touched(old(self).fills, set![id])(i)) by {
                let f = FillId { idx: i as u32, generation: old(self).fills.slots@[i].generation };
                assert(old(self).fl(f) is Some);
                let segs = old(self).fl(f).unwrap().segments@;
                if fill_prefix(fids@, k as int)(i) {
                    let j = choose|j: int| 0 <= j < k && (#[trigger] fids@[j]).idx == i;
                    assert(old(self).fl(fids@[j]) is Some);
                    assert(fids@[j] == f);
                    let x = choose|x: int| 0 <= x < segs.len() && segs[x] == id;
                    assert(set![id].contains(segs[x]));
                }
                if fill_touched(old(self).fills, set![id])(i) {
                    let x = choose|x: int| 0 <= x < segs.len() && set![id].contains(#[trigger] segs[x]);
                    assert(segs.contains(id));
                    assert(fids@.contains(f));
                    let j = choose|j: int| 0 <= j < fids@.len() && fids@[j] == f;
                    assert(fids@[j].idx == i);
                }
            }
            Arena::lemma_vacated_where_congruent(old(self).fills, self.fills, fill_prefix(fids@, k as int), fill_touched(old(self).fills, set![id]));
            assert(fill_entries(fids@, k as int) =~= old(self).fills_gone(set![id])) by {
                assert forall|e: ElementRef| fill_entries(fids@, k as int).contains(e) implies #[trigger] old(self).fills_gone(set![id]).contains(e) by {
                    let j = choose|j: int| 0 <= j < k && e == ElementRef::Fill(#[trigger] fids@[j]);
                    let segs = old(self).fl(fids@[j]).unwrap().segments@;
                    let x = choose|x: int| 0 <= x < segs.len() && segs[x] == id;
                    assert(set![id].contains(segs[x]));
                }
                assert forall|e: ElementRef| #[trigger] old(self).fills_gone(set![id]).contains(e) implies fill_entries(fids@, k as int).contains(e) by {
                    if let ElementRef::Fill(f) = e {
                        let segs = old(self).fl(f).unwrap().segments@;
                        let x = choose|x: int| 0 <= x < segs.len() && set![id].contains(#[trigger] segs[x]);
                        assert(segs.contains(id));
                        let j = choose|j: int| 0 <= j < fids@.len() && fids@[j] == f;
                    }
                }
            }
        }
    }
}

pub proof fn lemma_touches_single(segs: Seq<SegmentId>, id: SegmentId)
    ensures
        touches(segs, set![id]) == segs.contains(id),
{
    if segs.contains(id) {
        let x = choose|x: int| 0 <= x < segs.len() && segs[x] == id;
        assert(set![id].contains(segs[x]));
    }
}

/// `segs` without any occurrence of `id`.
fn segments_without(segs: &Vec<SegmentId>, id: SegmentId) -> (r: Vec<SegmentId>)
    ensures
        r@ == segs@.filter(outside(set![id])),
{
    let ghost pred = outside(set![id]);
    let mut out: Vec<SegmentId> = Vec::new();
    let mut i: usize = 0;
    while i < segs.len()
        invariant
            i <= segs@.len(),
            pred == outside(set![id]),
            out@ == segs@.take(i as int).filter(pred),
        decreases segs@.len() - i,
    {
        proof {
            assert(segs@.take(i as int + 1) == segs@.take(i as int).push(segs@[i as int]));
            segs@.take(i as int).lemma_filter_push(segs@[i as int], pred);
        }
        let x = segs[i];
        assert(pred(x) == (x != id));
        if x != id {
            out.push(x);
        }
        i = i + 1;
    }
    proof {
        assert(segs@.take(i as int) == segs@);
    }
    out
}

/// `n` Corner modes.
fn corner_modes(n: usize) -> (r: Vec<ContinuityMode>)
    ensures
        r@ == corners(n as nat),
{
    let mut out: Vec<ContinuityMode> = Vec::new();
    while out.len() < n
        invariant
            out@.len() <= n,
            out@ == corners(out@.len()),
        decreases n - out@.len(),
    {
        out.push(ContinuityMode::Corner);
        proof {
            assert(out@ =~= corners(out@.len()));
        }
    }
    out
}

/// Each anchor paired with itself.
fn collapse_anchors(a: &Vec<PointId>) -> (r: Vec<(PointId, PointId)>)
    ensures
        r@ == collapsed(a@),
{
    let mut out: Vec<(PointId, PointId)> = Vec::new();
    let mut i: usize = 0;
    while i < a.len()
        invariant
            i <= a@.len(),
            out@ == collapsed(a@.take(i as int)),
        decreases a@.len() - i,
    {
        out.push((a[i], a[i]));
        proof {
            assert(out@ =~= collapsed(a@.take(i as int + 1)));
        }
        i = i + 1;
    }
    proof {
        assert(a@.take(i as int) =~= a@);
    }
    out
}

/// Selecting more touched slots: only the verdict on touched live slots
/// matters.
pub proof fn lemma_paths_spliced_congruent(
    a: Arena<Path>,
    b: Arena<Path>,
    dead: Set<SegmentId>,
    doc: Document,
    s1: spec_fn(int) -> bool,
    s2: spec_fn(int) -> bool,
)
    requires
        paths_spliced(a, b, dead, doc, s1),
        forall|i: int| #[trigger] a.is_live(i) && touches(a.slots@[i].value.unwrap().segments@, dead) ==> (s1(i) == s2(i)),
    ensures
        paths_spliced(a, b, dead, doc, s2),
{
    assert forall|i: int| 0 <= i < a.slots@.len() implies path_slot_after(a.slots@[i], #[trigger] b.slots@[i], path_touched(a, i, dead, s2), dead, doc) by {
        assert(path_slot_after(a.slots@[i], b.slots@[i], path_touched(a, i, dead, s1), dead, doc));
        assert(path_touched(a, i, dead, s1) == path_touched(a, i, dead, s2));
    }
    assert forall|k: int| a.free@.len() <= k < b.free@.len() implies {
        let i = #[trigger] b.free@[k] as int;
        &&& path_touched(a, i, dead, s2)
        &&& a.slots@[i].value.unwrap().segments@.filter(outside(dead)).len() == 0
    } by {
        let i = b.free@[k] as int;
        assert(path_touched(a, i, dead, s1));
    }
}

impl Document {
    /// Splices segment `id` out of every live path through it; a path
    /// left without segments is removed.
    fn splice_paths(&mut self, id: SegmentId)
        requires
            old(self).wf(),
            old(self).live_gens_ok(),
        ensures
            final(self).wf(),
            final(self).live_gens_ok(),
            paths_spliced(old(self).paths, final(self).paths, set![id], *old(self), all_slots()),
            layers_detached(old(self).layers@, final(self).layers@, old(self).paths_gone(set![id])),
            final(self).points == old(self).points,
            final(self).segments == old(self).segments,
            final(self).fills == old(self).fills,
            final(self).same_records(old(self)),
    {
        let all = self.all_paths();
        let mut pids: Vec<PathId> = Vec::new();
        let mut k: usize = 0;
        while k < all.len()
            invariant
                k <= all@.len(),
                forall|j: int| 0 <= j < all@.len() ==> self.ph(#[trigger] all@[j]) is Some,
                forall|a: int, b: int| 0 <= a < b < all@.len() ==> (#[trigger] all@[a]).idx < (#[trigger] all@[b]).idx,
                forall|j: int| 0 <= j < pids@.len() ==> #[trigger] self.ph(pids@[j]) is Some && self.ph(pids@[j]).unwrap().segments@.contains(id),
                forall|j: int| 0 <= j < pids@.len() ==> exists|a: int| 0 <= a < k && all@[a] == #[trigger] pids@[j],
                forall|a: int, b: int| 0 <= a < b < pids@.len() ==> (#[trigger] pids@[a]).idx < (#[trigger] pids@[b]).idx,
                forall|a: int| 0 <= a < k && self.ph(#[trigger] all@[a]).unwrap().segments@.contains(id) ==> pids@.contains(all@[a]),
            decreases all@.len() - k,
        {
            let pid = all[k];
            let p = self.path(pid).unwrap();
            if contains_segment(&p.segments, id) {
                let ghost prev = pids@;
                pids.push(pid);
                proof {
                    assert forall|j: int| 0 <= j < pids@.len() implies exists|a: int| 0 <= a < k + 1 && all@[a] == #[trigger] pids@[j] by {
                        if j < prev.len() {
                            assert(pids@[j] == prev[j]);
                        } else {
                            assert(all@[k as int] == pids@[j]);
                        }
                    }
                    assert forall|a: int, b: int| 0 <= a < b < pids@.len() implies (#[trigger] pids@[a]).idx < (#[trigger] pids@[b]).idx by {
                        if b == pids@.len() - 1 {
                            assert(pids@[a] == prev[a]);
                            let x = choose|x: int| 0 <= x < k && all@[x] == prev[a];
                        }
                    }
                    assert forall|a: int| 0 <= a < k + 1 && self.ph(#[trigger] all@[a]).unwrap().segments@.contains(id) implies pids@.contains(all@[a]) by {
                        if a < k {
                            let j = choose|j: int| 0 <= j < prev.len() && prev[j] == all@[a];
                            assert(pids@[j] == all@[a]);
                        } else {
                            assert(pids@[pids@.len() - 1] == all@[a]);
                        }
                    }
                }
            }
            k = k + 1;
        }
        proof {
            assert forall|pid: PathId| #[trigger] self.ph(pid) is Some && self.ph(pid).unwrap().segments@.contains(id) implies pids@.contains(pid) by {
                assert(all@.contains(pid));
                let a = choose|a: int| 0 <= a < all@.len() && all@[a] == pid;
            }
        }
        let ghost doc0 = *self;
        let mut k: usize = 0;
        proof {
            assert(self.paths.free@.take(self.paths.free@.len() as int) =~= self.paths.free@);
            assert forall|i: int| 0 <= i < self.paths.slots@.len() implies path_slot_after(self.paths.slots@[i], #[trigger] self.paths.slots@[i], path_touched(self.paths, i, set![id], path_prefix(pids@, 0)), set![id], doc0) by {}
            lemma_layers_detached_refl(self.layers@);
            assert(emptied_entries(pids@, 0, *old(self), set![id]) =~= Set::<ElementRef>::empty());
        }
        while k < pids.len()
            invariant
                k <= pids@.len(),
                doc0 == *old(self),
                self.wf(),
                self.live_gens_ok(),
                old(self).wf(),
                old(self).live_gens_ok(),
                forall|j: int| 0 <= j < pids@.len() ==> #[trigger] old(self).ph(pids@[j]) is Some && old(self).ph(pids@[j]).unwrap().segments@.contains(id),
                forall|a: int, b: int| 0 <= a < b < pids@.len() ==> (#[trigger] pids@[a]).idx < (#[trigger] pids@[b]).idx,
                forall|pid: PathId| #[trigger] old(self).ph(pid) is Some && old(self).ph(pid).unwrap().segments@.contains(id) ==> pids@.contains(pid),
                paths_spliced(old(self).paths, self.paths, set![id], doc0, path_prefix(pids@, k as int)),
                layers_detached(old(self).layers@, self.layers@, emptied_entries(pids@, k as int, *old(self), set![id])),
                self.points == old(self).points,
                self.segments == old(self).segments,
                self.fills == old(self).fills,
                self.same_records(old(self)),
            decreases pids@.len() - k,
        {
            let pid = pids[k];
            let ghost cur = *self;
            let ghost i = pid.idx as int;
            proof {
                assert(old(self).ph(pids@[k as int]) is Some);
                assert(!path_prefix(pids@, k as int)(i)) by {
                    if path_prefix(pids@, k as int)(i) {
                        let j = choose|j: int| 0 <= j < k && (#[trigger] pids@[j]).idx == i;
                        assert(pids@[j].idx < pids@[k as int].idx);
                    }
                }
                assert(self.paths.slots@[i] == old(self).paths.slots@[i]) by {
                    assert(path_slot_after(old(self).paths.slots@[i], self.paths.slots@[i], path_touched(old(self).paths, i, set![id], path_prefix(pids@, k as int)), set![id], doc0));
                }
                lemma_touches_single(old(self).ph(pid).unwrap().segments@, id);
                lemma_filter_outside_len(old(self).ph(pid).unwrap().segments@, set![id]);
                assert(old(self).paths.is_live(i));
                assert(self.paths.is_live(i));
            }
            let p = self.path(pid).unwrap();
            let plen = p.segments.len();
            let segs = segments_without(&p.segments, id);
            let closed = p.closed;
            proof {
                assert(touches(p.segments@, set![id]));
                assert(segs@.len() < plen);
            }
            if segs.len() == 0 {
                self.remove_path(pid);
                proof {
                    Arena::lemma_vacated_single(cur.paths, self.paths, pid.idx);
                    Arena::lemma_vacated_where_facts(cur.paths, self.paths, |x: int| x == pid.idx as int);
                    lemma_layers_detached_compose(old(self).layers@, cur.layers@, self.layers@,
                        emptied_entries(pids@, k as int, *old(self), set![id]),
                        set![ElementRef::Path(pid)]);
                    assert(emptied_entries(pids@, k as int, *old(self), set![id]).union(set![ElementRef::Path(pid)])
                        =~= emptied_entries(pids@, k as int + 1, *old(self), set![id])) by {
                        assert forall|e: ElementRef| #[trigger] emptied_entries(pids@, k as int + 1, *old(self), set![id]).contains(e)
                            implies emptied_entries(pids@, k as int, *old(self), set![id]).union(set![ElementRef::Path(pid)]).contains(e) by {
                            let j = choose|j: int| 0 <= j < k + 1 && e == ElementRef::Path(#[trigger] pids@[j])
                                && old(self).ph(pids@[j]).unwrap().segments@.filter(outside(set![id])).len() == 0;
                            if j < k {
                            } else {
                                assert(e == ElementRef::Path(pid));
                            }
                        }
                    }
                }
            } else {
                let want = if closed { segs.len() } else { segs.len() + 1 };
                let anchors = match self.chain_anchors(&segs, closed) {
                    Some(a) => a,
                    None => Vec::new(),
                };
                let pairs = collapse_anchors(&anchors);
                let modes = corner_modes(want);
                let ghost new_segs = segs@;
                let path = self.path_mut(pid).unwrap();
                *path = Path { segments: segs, closed, continuity: modes, handles: pairs };
                proof {
                    Self::lemma_strict_anchors_frame(cur, doc0, new_segs, closed);
                    let np = self.paths.slots@[i].value.unwrap();
                    let op = old(self).paths.slots@[i].value.unwrap();
                    assert(np.segments@ == op.segments@.filter(outside(set![id])));
                    assert(np.closed == op.closed);
                    assert(np.continuity@ == corners(anchor_count(new_segs.len() as int, closed) as nat));
                    assert(np.handles@ == (match doc0.strict_anchors(new_segs, closed) {
                        Some(a) => collapsed(a),
                        None => seq![],
                    }));
                    assert(path_spliced(doc0, old(self).paths.slots@[i].value.unwrap(), self.paths.slots@[i].value.unwrap(), set![id]));
                    assert forall|x: int| #[trigger] self.paths.is_live(x) implies self.paths.slots@[x].generation < u32::MAX by {
                        if x != i {
                            assert(cur.paths.is_live(x));
                        }
                    }
                    let e_set = emptied_entries(pids@, k as int, *old(self), set![id]);
                    let e_set2 = emptied_entries(pids@, k as int + 1, *old(self), set![id]);
                    assert(e_set =~= e_set2) by {
                        assert forall|e: ElementRef| #[trigger] e_set2.contains(e) implies e_set.contains(e) by {
                            let j = choose|j: int| 0 <= j < k + 1 && e == ElementRef::Path(#[trigger] pids@[j])
                                && old(self).ph(pids@[j]).unwrap().segments@.filter(outside(set![id])).len() == 0;
                            if j == k {
                                assert(false);
                            }
                        }
                    }
                }
            }
            proof {
                assert(self.paths.slots@.len() == old(self).paths.slots@.len());
                assert forall|x: int| 0 <= x < old(self).paths.slots@.len() implies path_slot_after(old(self).paths.slots@[x], #[trigger] self.paths.slots@[x], path_touched(old(self).paths, x, set![id], path_prefix(pids@, k as int + 1)), set![id], doc0) by {
                    assert(path_slot_after(old(self).paths.slots@[x], cur.paths.slots@[x], path_touched(old(self).paths, x, set![id], path_prefix(pids@, k as int)), set![id], doc0));
                    if x == i {
                        assert(path_prefix(pids@, k as int + 1)(x));
                    } else {
                        assert(self.paths.slots@[x] == cur.paths.slots@[x]);
                        assert(path_prefix(pids@, k as int + 1)(x) == path_prefix(pids@, k as int)(x)) by {
                            if path_prefix(pids@, k as int + 1)(x) {
                                let j = choose|j: int| 0 <= j < k + 1 && (#[trigger] pids@[j]).idx == x;
                            }
                        }
                    }
                }
                assert(self.paths.free@.take(old(self).paths.free@.len() as int) =~= old(self).paths.free@) by {
                    assert forall|q: int| 0 <= q < old(self).paths.free@.len() implies self.paths.free@[q] == old(self).paths.free@[q] by {
                        assert(cur.paths.free@.take(old(self).paths.free@.len() as int)[q] == old(self).paths.free@[q]);
                    }
                }
                assert forall|q: int| old(self).paths.free@.len() <= q < self.paths.free@.len() implies {
                    let x = #[trigger] self.paths.free@[q] as int;
                    &&& path_touched(old(self).paths, x, set![id], path_prefix(pids@, k as int + 1))
                    &&& old(self).paths.slots@[x].value.unwrap().segments@.filter(outside(set![id])).len() == 0
                } by {
                    let x = self.paths.free@[q] as int;
                    if q < cur.paths.free@.len() {
                        assert(path_touched(old(self).paths, x, set![id], path_prefix(pids@, k as int)));
                        let j = choose|j: int| 0 <= j < k && (#[trigger] pids@[j]).idx == x;
                        assert(path_prefix(pids@, k as int + 1)(x));
                    } else {
                        assert(x == i);
                        assert(path_prefix(pids@, k as int + 1)(x));
                    }
                }
                assert forall|q: int, r: int| old(self).paths.free@.len() <= q < r < self.paths.free@.len() implies #[trigger] self.paths.free@[q] != #[trigger] self.paths.free@[r] by {
                    if r >= cur.paths.free@.len() {
                        let x = self.paths.free@[q] as int;
                        assert(path_touched(old(self).paths, x, set![id], path_prefix(pids@, k as int)));
                    }
                }
            }
            k = k + 1;
        }
        proof {
            assert forall|x: int| #[trigger] old(self).paths.is_live(x) && touches(old(self).paths.slots@[x].value.unwrap().segments@, set![id])
                implies (path_prefix(pids@, k as int)(x) == all_slots()(x)) by {
                let pid = PathId { idx: x as u32, generation: old(self).paths.slots@[x].generation };
                assert(old(self).ph(pid) is Some);
                lemma_touches_single(old(self).paths.slots@[x].value.unwrap().segments@, id);
                assert(pids@.contains(pid));
                let j = choose|j: int| 0 <= j < pids@.len() && pids@[j] == pid;
                assert(pids@[j].idx == x);
            }
            lemma_paths_spliced_congruent(old(self).paths, self.paths, set![id], doc0, path_prefix(pids@, k as int), all_slots());
            let e_set = emptied_entries(pids@, k as int, *old(self), set![id]);
            assert(e_set =~= old(self).paths_gone(set![id])) by {
                assert forall|e: ElementRef| e_set.contains(e) implies #[trigger] old(self).paths_gone(set![id]).contains(e) by {
                    let j = choose|j: int| 0 <= j < k && e == ElementRef::Path(#[trigger] pids@[j])
                        && old(self).ph(pids@[j]).unwrap().segments@.filter(outside(set![id])).len() == 0;
                    lemma_touches_single(old(self).ph(pids@[j]).unwrap().segments@, id);
                }
                assert forall|e: ElementRef| #[trigger] old(self).paths_gone(set![id]).contains(e) implies e_set.contains(e) by {
                    if let ElementRef::Path(p) = e {
                        lemma_touches_single(old(self).ph(p).unwrap().segments@, id);
                        let j = choose|j: int| 0 <= j < pids@.len() && pids@[j] == p;
                    }
                }
            }
        }
    }
}

/// Members of `s.filter(outside(d))` lie outside `d`.
pub proof fn lemma_filter_outside_members<A>(s: Seq<A>, d: Set<A>)
    ensures
        forall|k: int| 0 <= k < s.filter(outside(d)).len() ==> !d.contains(#[trigger] s.filter(outside(d))[k]),
{
    broadcast use vstd::seq_lib::group_filter_ensures;
    assert forall|k: int| 0 <= k < s.filter(outside(d)).len() implies !d.contains(#[trigger] s.filter(outside(d))[k]) by {
        assert(outside(d)(s.filter(outside(d))[k]));
    }
}

/// The anchor document of a splice can be swapped for one resolving every
/// surviving segment id the same way.
pub proof fn lemma_paths_spliced_doc_swap(
    a: Arena<Path>,
    b: Arena<Path>,
    dead: Set<SegmentId>,
    d1: Document,
    d2: Document,
    sel: spec_fn(int) -> bool,
)
    requires
        paths_spliced(a, b, dead, d1, sel),
        forall|s: SegmentId| !dead.contains(s) ==> #[trigger] d1.sg(s) == d2.sg(s),
    ensures
        paths_spliced(a, b, dead, d2, sel),
{
    assert forall|i: int| 0 <= i < a.slots@.len() implies path_slot_after(a.slots@[i], #[trigger] b.slots@[i], path_touched(a, i, dead, sel), dead, d2) by {
        assert(path_slot_after(a.slots@[i], b.slots@[i], path_touched(a, i, dead, sel), dead, d1));
        if a.slots@[i].value is Some {
            let segs = a.slots@[i].value.unwrap().segments@.filter(outside(dead));
            lemma_filter_outside_members(a.slots@[i].value.unwrap().segments@, dead);
            assert forall|k: int| 0 <= k < segs.len() implies d1.sg(#[trigger] segs[k]) == d2.sg(segs[k]) by {
                assert(!dead.contains(segs[k]));
            }
            Document::lemma_strict_anchors_frame(d1, d2, segs, a.slots@[i].value.unwrap().closed);
        }
    }
}

pub proof fn lemma_touches_union(segs: Seq<SegmentId>, d1: Set<SegmentId>, d2: Set<SegmentId>)
    ensures
        touches(segs, d1.union(d2)) == (touches(segs, d1) || touches(segs, d2)),
{
    if touches(segs, d1.union(d2)) {
        let k = choose|k: int| 0 <= k < segs.len() && d1.union(d2).contains(#[trigger] segs[k]);
        if d1.contains(segs[k]) {
        } else {
            assert(d2.contains(segs[k]));
        }
    }
    if touches(segs, d1) {
        let k = choose|k: int| 0 <= k < segs.len() && d1.contains(#[trigger] segs[k]);
        assert(d1.union(d2).contains(segs[k]));
    }
    if touches(segs, d2) {
        let k = choose|k: int| 0 <= k < segs.len() && d2.contains(#[trigger] segs[k]);
        assert(d1.union(d2).contains(segs[k]));
    }
}

/// A non-empty chain that filtering empties runs through the set.
pub proof fn lemma_filter_emptied_touches(segs: Seq<SegmentId>, d: Set<SegmentId>)
    requires
        segs.len() > 0,
        segs.filter(outside(d)).len() == 0,
    ensures
        touches(segs, d),
{
    if !touches(segs, d) {
        assert forall|k: int| 0 <= k < segs.len() implies !d.contains(#[trigger] segs[k]) by {}
        lemma_filter_outside_noop(segs, d);
    }
}

/// Splicing out nothing changes nothing.
pub proof fn lemma_paths_spliced_refl(a: Arena<Path>, d: Document)
    ensures
        paths_spliced(a, a, Set::empty(), d, all_slots()),
{
    assert(a.free@.take(a.free@.len() as int) =~= a.free@);
    assert forall|i: int| 0 <= i < a.slots@.len() implies path_slot_after(a.slots@[i], #[trigger] a.slots@[i], path_touched(a, i, Set::empty(), all_slots()), Set::empty(), d) by {
        if path_touched(a, i, Set::empty(), all_slots()) {
            let segs = a.slots@[i].value.unwrap().segments@;
            let k = choose|k: int| 0 <= k < segs.len() && Set::<SegmentId>::empty().contains(#[trigger] segs[k]);
        }
    }
}

/// Two splicing passes make one.
pub proof fn lemma_paths_spliced_compose(
    a: Arena<Path>,
    b: Arena<Path>,
    c: Arena<Path>,
    d1: Set<SegmentId>,
    d2: Set<SegmentId>,
    doc: Document,
)
    requires
        paths_spliced(a, b, d1, doc, all_slots()),
        paths_spliced(b, c, d2, doc, all_slots()),
    ensures
        paths_spliced(a, c, d1.union(d2), doc, all_slots()),
{
    let du = d1.union(d2);
    assert forall|i: int| 0 <= i < a.slots@.len() implies path_slot_after(a.slots@[i], #[trigger] c.slots@[i], path_touched(a, i, du, all_slots()), du, doc) by {
        let x = a.slots@[i];
        let y = b.slots@[i];
        let z = c.slots@[i];
        assert(path_slot_after(x, y, path_touched(a, i, d1, all_slots()), d1, doc));
        assert(path_slot_after(y, z, path_touched(b, i, d2, all_slots()), d2, doc));
        if a.is_live(i) {
            let xs = x.value.unwrap().segments@;
            lemma_touches_union(xs, d1, d2);
            lemma_filter_outside_compose(xs, d1, d2);
            if touches(xs, d1) {
                if xs.filter(outside(d1)).len() == 0 {
                    assert(!b.is_live(i));
                    reveal(Seq::filter);
                    assert(xs.filter(outside(d1)).filter(outside(d2)) =~= Seq::<SegmentId>::empty());
                } else {
                    let ys = y.value.unwrap().segments@;
                    assert(b.is_live(i));
                    lemma_touches_union(ys, d1, d2);
                    if !touches(ys, d2) {
                        assert forall|k: int| 0 <= k < ys.len() implies !d2.contains(#[trigger] ys[k]) by {}
                        lemma_filter_outside_noop(ys, d2);
                    }
                }
            } else {
                assert forall|k: int| 0 <= k < xs.len() implies !d1.contains(#[trigger] xs[k]) by {}
                lemma_filter_outside_noop(xs, d1);
                assert(y == x);
            }
        } else {
            assert(y == x);
        }
    }
    assert(c.free@.take(a.free@.len() as int) =~= a.free@) by {
        assert forall|q: int| 0 <= q < a.free@.len() implies c.free@[q] == a.free@[q] by {
            assert(c.free@.take(b.free@.len() as int)[q] == b.free@[q]);
            assert(b.free@.take(a.free@.len() as int)[q] == a.free@[q]);
        }
    }
    assert forall|q: int| a.free@.len() <= q < c.free@.len() implies {
        let i = #[trigger] c.free@[q] as int;
        &&& path_touched(a, i, du, all_slots())
        &&& a.slots@[i].value.unwrap().segments@.filter(outside(du)).len() == 0
    } by {
        let i = c.free@[q] as int;
        let xs = a.slots@[i].value.unwrap().segments@;
        lemma_touches_union(xs, d1, d2);
        lemma_filter_outside_compose(xs, d1, d2);
        if q < b.free@.len() {
            assert(c.free@.take(b.free@.len() as int)[q] == b.free@[q]);
            assert(path_touched(a, i, d1, all_slots()));
            reveal(Seq::filter);
            assert(xs.filter(outside(d1)).filter(outside(d2)) =~= Seq::<SegmentId>::empty());
        } else {
            assert(path_touched(b, i, d2, all_slots()));
            assert(path_slot_after(a.slots@[i], b.slots@[i], path_touched(a, i, d1, all_slots()), d1, doc));
            if touches(xs, d1) {
                assert(b.slots@[i].value.unwrap().segments@ == xs.filter(outside(d1)));
            } else {
                assert forall|k: int| 0 <= k < xs.len() implies !d1.contains(#[trigger] xs[k]) by {}
                lemma_filter_outside_noop(xs, d1);
            }
        }
    }
    assert forall|q: int, r: int| a.free@.len() <= q < r < c.free@.len() implies #[trigger] c.free@[q] != #[trigger] c.free@[r] by {
        if r >= b.free@.len() && q < b.free@.len() {
            assert(c.free@.take(b.free@.len() as int)[q] == b.free@[q]);
            let i = b.free@[q] as int;
            assert(path_slot_after(a.slots@[i], b.slots@[i], path_touched(a, i, d1, all_slots()), d1, doc));
            assert(path_touched(b, c.free@[r] as int, d2, all_slots()));
        } else if r < b.free@.len() {
            assert(c.free@.take(b.free@.len() as int)[q] == b.free@[q]);
            assert(c.free@.take(b.free@.len() as int)[r] == b.free@[r]);
        }
    }
}

impl Document {
    /// Removes a segment: fill loops through `id` die, paths splice `id`
    /// out (a path left with no segments dies with it), and `id`, the dead
    /// fills and the dead paths leave every layer. The segment slot is
    /// vacated only when `id` resolves, which is what the result says.
    pub fn remove_segment(&mut self, id: SegmentId) -> (r: bool)
        requires
            old(self).wf(),
            old(self).live_gens_ok(),
        ensures
            final(self).wf(),
            final(self).live_gens_ok(),
            r == (old(self).sg(id) is Some),
            Arena::removed(old(self).segments, final(self).segments, id.idx, id.generation),
            Arena::vacated_where(old(self).fills, final(self).fills, fill_touched(old(self).fills, set![id])),
            paths_spliced(old(self).paths, final(self).paths, set![id], *old(self), all_slots()),
            layers_detached(old(self).layers@, final(self).layers@, old(self).cascade_gone(set![id])),
            final(self).points == old(self).points,
            final(self).same_records(old(self)),
    {
        let ghost d0 = *self;
        self.remove_fills_through(id);
        let ghost d1 = *self;
        self.splice_paths(id);
        let ghost d2 = *self;
        self.detach_from_layers(ElementRef::Segment(id));
        proof {
            lemma_paths_spliced_doc_swap(d0.paths, d2.paths, set![id], d1, d0, all_slots());
            lemma_layers_detached_compose(d0.layers@, d1.layers@, d2.layers@, d0.fills_gone(set![id]), d1.paths_gone(set![id]));
            lemma_layers_detached_compose(d0.layers@, d2.layers@, self.layers@,
                d0.fills_gone(set![id]).union(d1.paths_gone(set![id])), set![ElementRef::Segment(id)]);
            assert(d0.fills_gone(set![id]).union(d1.paths_gone(set![id])).union(set![ElementRef::Segment(id)]) =~= d0.cascade_gone(set![id])) by {
                assert forall|e: ElementRef| #[trigger] d0.cascade_gone(set![id]).contains(e) == d0.fills_gone(set![id]).union(d1.paths_gone(set![id])).union(set![ElementRef::Segment(id)]).contains(e) by {
                    match e {
                        ElementRef::Path(p) => {
                            assert(d1.ph(p) == d0.ph(p));
                        },
                        _ => {},
                    }
                }
            }
            assert(self.segments.gens_ok());
            assert(self.segments.is_live(id.idx as int) ==> self.segments.slots@[id.idx as int].generation < u32::MAX);
        }
        let r = self.segments.remove((id.idx, id.generation)).is_some();
        proof {
            assert forall|i: int| #[trigger] self.segments.is_live(i) implies self.segments.slots@[i].generation < u32::MAX by {
                assert(d2.segments.is_live(i));
            }
        }
        r
    }
}

/// Slots named by the first `k` ids of `ids`.
pub open spec fn seg_prefix(ids: Seq<SegmentId>, k: int) -> spec_fn(int) -> bool {
    |i: int| exists|j: int| 0 <= j < k && (#[trigger] ids[j]).idx == i
}

/// The first `k` ids of `ids`, as a set.
pub open spec fn seg_set(ids: Seq<SegmentId>, k: int) -> Set<SegmentId> {
    Set::new(|s: SegmentId| exists|j: int| 0 <= j < k && #[trigger] ids[j] == s)
}

/// Whether a dimension stays when point `p` is deleted.
pub open spec fn dim_keeps_point(d: Dimension, p: PointId) -> bool {
    match d.target {
        DimTarget::Points { a, b, .. } => a != p && b != p,
        DimTarget::PointLine { p: q, .. } => q != p,
        _ => true,
    }
}

pub open spec fn dims_keeping(p: PointId) -> spec_fn(Dimension) -> bool {
    |d: Dimension| dim_keeps_point(d, p)
}

pub open spec fn constraints_keeping(p: PointId) -> spec_fn(Constraint) -> bool {
    |c: Constraint| c.a != p && c.b != p
}

/// Segment slots whose segment uses point `p`.
pub open spec fn seg_uses_at(a: Arena<Segment>, p: PointId) -> spec_fn(int) -> bool {
    |i: int| seg_uses(a.slots@[i].value.unwrap(), p)
}

impl Document {
    /// Live segments that use point `p`.
    pub open spec fn segments_using(&self, p: PointId) -> Set<SegmentId> {
        Set::new(|s: SegmentId| self.sg(s) is Some && seg_uses(self.sg(s).unwrap(), p))
    }

    proof fn lemma_cascade_gone_step(old: Document, cur: Document, d: Set<SegmentId>, s: SegmentId)
        requires
            old.fills.wf(),
            old.fills.gens_ok(),
            Arena::vacated_where(old.fills, cur.fills, fill_touched(old.fills, d)),
            paths_spliced(old.paths, cur.paths, d, cur, all_slots()),
        ensures
            old.cascade_gone(d).union(cur.cascade_gone(set![s])) =~= old.cascade_gone(d.union(set![s])),
    {
        Arena::lemma_vacated_where_facts(old.fills, cur.fills, fill_touched(old.fills, d));
        assert forall|e: ElementRef| #[trigger] old.cascade_gone(d.union(set![s])).contains(e)
            == old.cascade_gone(d).union(cur.cascade_gone(set![s])).contains(e) by {
            match e {
                ElementRef::Fill(f) => {
                    if old.fl(f) is Some {
                        lemma_touches_union(old.fl(f).unwrap().segments@, d, set![s]);
                        assert(old.fills.is_live(f.idx as int));
                    }
                    assert(cur.fills.lookup(f.idx, f.generation) == (if old.fills.is_live(f.idx as int) && fill_touched(old.fills, d)(f.idx as int) {
                        None
                    } else {
                        old.fills.lookup(f.idx, f.generation)
                    }));
                },
                ElementRef::Path(p) => {
                    let i = p.idx as int;
                    if i < old.paths.slots@.len() {
                        let x = old.paths.slots@[i];
                        let y = cur.paths.slots@[i];
                        assert(path_slot_after(x, y, path_touched(old.paths, i, d, all_slots()), d, cur));
                        if old.ph(p) is Some {
                            let xs = x.value.unwrap().segments@;
                            lemma_touches_union(xs, d, set![s]);
                            lemma_filter_outside_compose(xs, d, set![s]);
                            if touches(xs, d) {
                                if xs.filter(outside(d)).len() == 0 {
                                    reveal(Seq::filter);
                                    assert(xs.filter(outside(d)).filter(outside(set![s])) =~= Seq::<SegmentId>::empty());
                                } else {
                                    assert(cur.ph(p) is Some);
                                    let ys = y.value.unwrap().segments@;
                                    if ys.filter(outside(set![s])).len() == 0 {
                                        lemma_filter_emptied_touches(ys, set![s]);
                                    }
                                }
                            } else {
                                assert forall|k: int| 0 <= k < xs.len() implies !d.contains(#[trigger] xs[k]) by {}
                                lemma_filter_outside_noop(xs, d);
                                assert(y == x);
                            }
                        } else {
                            assert(cur.ph(p) is None);
                        }
                    }
                },
                _ => {},
            }
        }
    }

    /// Removes a point plus everything that depends on it: every segment
    /// using it (with the fills and path spans through those segments),
    /// the constraints and dimensions on it, and its layer entries. The
    /// point slot is vacated only when `id` resolves, which is what the
    /// result says.
    pub fn remove_point(&mut self, id: PointId) -> (r: bool)
        requires
            old(self).wf(),
            old(self).live_gens_ok(),
        ensures
            final(self).wf(),
            final(self).live_gens_ok(),
            r == (old(self).pt(id) is Some),
            Arena::removed(old(self).points, final(self).points, id.idx, id.generation),
            Arena::vacated_where(old(self).segments, final(self).segments, seg_uses_at(old(self).segments, id)),
            Arena::vacated_where(old(self).fills, final(self).fills, fill_touched(old(self).fills, old(self).segments_using(id))),
            paths_spliced(old(self).paths, final(self).paths, old(self).segments_using(id), *final(self), all_slots()),
            layers_detached(old(self).layers@, final(self).layers@,
                old(self).cascade_gone(old(self).segments_using(id)).union(set![ElementRef::Point(id)])),
            final(self).constraints@ == old(self).constraints@.filter(constraints_keeping(id)),
            final(self).dimensions@ == old(self).dimensions@.filter(dims_keeping(id)),
            final(self).settings == old(self).settings,
            // nothing left depends on the deleted point
            forall|s: SegmentId| #[trigger] final(self).sg(s) is Some ==> !seg_uses(final(self).sg(s).unwrap(), id),
            forall|k: int| 0 <= k < final(self).constraints@.len() ==>
                (#[trigger] final(self).constraints@[k]).a != id && final(self).constraints@[k].b != id,
            forall|k: int| 0 <= k < final(self).dimensions@.len() ==> dim_keeps_point(#[trigger] final(self).dimensions@[k], id),
            forall|i: int| 0 <= i < final(self).layers@.len() ==> !(#[trigger] final(self).layers@[i]).elements@.contains(ElementRef::Point(id)),
    {
        let all = self.all_segments();
        let mut dead: Vec<SegmentId> = Vec::new();
        let mut k: usize = 0;
        while k < all.len()
            invariant
                k <= all@.len(),
                forall|j: int| 0 <= j < all@.len() ==> self.sg((#[trigger] all@[j]).0) == Some(all@[j].1),
                forall|a: int, b: int| 0 <= a < b < all@.len() ==> (#[trigger] all@[a]).0.idx < (#[trigger] all@[b]).0.idx,
                forall|s: SegmentId| #[trigger] self.sg(s) is Some ==> exists|j: int| 0 <= j < all@.len() && (#[trigger] all@[j]).0 == s,
                forall|j: int| 0 <= j < dead@.len() ==> #[trigger] self.sg(dead@[j]) is Some && seg_uses(self.sg(dead@[j]).unwrap(), id),
                forall|j: int| 0 <= j < dead@.len() ==> exists|a: int| 0 <= a < k && all@[a].0 == #[trigger] dead@[j],
                forall|a: int, b: int| 0 <= a < b < dead@.len() ==> (#[trigger] dead@[a]).idx < (#[trigger] dead@[b]).idx,
                forall|a: int| 0 <= a < k && seg_uses((#[trigger] all@[a]).1, id) ==> dead@.contains(all@[a].0),
            decreases all@.len() - k,
        {
            let (sid, seg) = all[k];
            if seg.uses(id) {
                let ghost prev = dead@;
                dead.push(sid);
                proof {
                    assert forall|j: int| 0 <= j < dead@.len() implies exists|a: int| 0 <= a < k + 1 && all@[a].0 == #[trigger] dead@[j] by {
                        if j < prev.len() {
                            assert(dead@[j] == prev[j]);
                        } else {
                            assert(all@[k as int].0 == dead@[j]);
                        }
                    }
                    assert forall|a: int, b: int| 0 <= a < b < dead@.len() implies (#[trigger] dead@[a]).idx < (#[trigger] dead@[b]).idx by {
                        if b == dead@.len() - 1 {
                            assert(dead@[a] == prev[a]);
                            let x = choose|x: int| 0 <= x < k && all@[x].0 == prev[a];
                        }
                    }
                    assert forall|a: int| 0 <= a < k + 1 && seg_uses((#[trigger] all@[a]).1, id) implies dead@.contains(all@[a].0) by {
                        if a < k {
                            let j = choose|j: int| 0 <= j < prev.len() && prev[j] == all@[a].0;
                            assert(dead@[j] == all@[a].0);
                        } else {
                            assert(dead@[dead@.len() - 1] == all@[a].0);
                        }
                    }
                }
            }
            k = k + 1;
        }
        proof {
            assert(seg_set(dead@, dead@.len() as int) =~= self.segments_using(id)) by {
                assert forall|s: SegmentId| #[trigger] self.segments_using(id).contains(s) implies seg_set(dead@, dead@.len() as int).contains(s) by {
                    let a = choose|a: int| 0 <= a < all@.len() && (#[trigger] all@[a]).0 == s;
                    assert(dead@.contains(s));
                    let j = choose|j: int| 0 <= j < dead@.len() && dead@[j] == s;
                }
            }
        }
        let ghost d0 = *self;
        let mut k: usize = 0;
        proof {
            Arena::lemma_vacated_where_refl(self.segments, seg_prefix(dead@, 0));
            Arena::lemma_vacated_where_refl(self.fills, fill_touched(self.fills, seg_set(dead@, 0)));
            lemma_paths_spliced_refl(self.paths, *self);
            assert(seg_set(dead@, 0) =~= Set::<SegmentId>::empty());
            lemma_layers_detached_refl(self.layers@);
            assert(self.cascade_gone(seg_set(dead@, 0)) =~= Set::<ElementRef>::empty());
        }
        while k < dead.len()
            invariant
                k <= dead@.len(),
                d0 == *old(self),
                self.wf(),
                self.live_gens_ok(),
                old(self).wf(),
                old(self).live_gens_ok(),
                forall|j: int| 0 <= j < dead@.len() ==> #[trigger] old(self).sg(dead@[j]) is Some && seg_uses(old(self).sg(dead@[j]).unwrap(), id),
                forall|a: int, b: int| 0 <= a < b < dead@.len() ==> (#[trigger] dead@[a]).idx < (#[trigger] dead@[b]).idx,
                Arena::vacated_where(old(self).segments, self.segments, seg_prefix(dead@, k as int)),
                Arena::vacated_where(old(self).fills, self.fills, fill_touched(old(self).fills, seg_set(dead@, k as int))),
                paths_spliced(old(self).paths, self.paths, seg_set(dead@, k as int), *self, all_slots()),
                layers_detached(old(self).layers@, self.layers@, old(self).cascade_gone(seg_set(dead@, k as int))),
                self.points == old(self).points,
                self.same_records(old(self)),
            decreases dead@.len() - k,
        {
            let sid = dead[k];
            let ghost cur = *self;
            let ghost dk = seg_set(dead@, k as int);
            proof {
                assert(old(self).sg(dead@[k as int]) is Some);
                Arena::lemma_vacated_where_facts(old(self).segments, self.segments, seg_prefix(dead@, k as int));
                assert(!seg_prefix(dead@, k as int)(sid.idx as int)) by {
                    if seg_prefix(dead@, k as int)(sid.idx as int) {
                        let j = choose|j: int| 0 <= j < k && (#[trigger] dead@[j]).idx == sid.idx;
                        assert(dead@[j].idx < dead@[k as int].idx);
                    }
                }
                assert(old(self).segments.is_live(sid.idx as int));
                assert(self.sg(sid) == old(self).sg(sid));
            }
            self.remove_segment(sid);
            proof {
                // segments
                Arena::lemma_vacated_single(cur.segments, self.segments, sid.idx);
                Arena::lemma_vacated_where_compose(old(self).segments, cur.segments, self.segments, seg_prefix(dead@, k as int), |i: int| i == sid.idx as int);
                Arena::lemma_vacated_where_congruent(
                    old(self).segments,
                    self.segments,
                    |i: int| seg_prefix(dead@, k as int)(i) || (|i: int| i == sid.idx as int)(i),
                    seg_prefix(dead@, k as int + 1),
                );
                assert(seg_set(dead@, k as int + 1) =~= dk.union(set![sid]));
                // fills
                Arena::lemma_vacated_where_facts(old(self).fills, cur.fills, fill_touched(old(self).fills, dk));
                Arena::lemma_vacated_where_compose(old(self).fills, cur.fills, self.fills, fill_touched(old(self).fills, dk), fill_touched(cur.fills, set![sid]));
                assert forall|i: int| #[trigger] old(self).fills.is_live(i) implies
                    ((|i: int| fill_touched(old(self).fills, dk)(i) || fill_touched(cur.fills, set![sid])(i))(i)
                        == fill_touched(old(self).fills, dk.union(set![sid]))(i)) by {
                    lemma_touches_union(old(self).fills.slots@[i].value.unwrap().segments@, dk, set![sid]);
                    assert(cur.fills.slots@[i] == (if old(self).fills.is_live(i) && fill_touched(old(self).fills, dk)(i) {
                        Slot { generation: (old(self).fills.slots@[i].generation + 1) as u32, value: None }
                    } else {
                        old(self).fills.slots@[i]
                    }));
                }
                Arena::lemma_vacated_where_congruent(
                    old(self).fills,
                    self.fills,
                    |i: int| fill_touched(old(self).fills, dk)(i) || fill_touched(cur.fills, set![sid])(i),
                    fill_touched(old(self).fills, dk.union(set![sid])),
                );
                // paths
                lemma_paths_spliced_doc_swap(cur.paths, self.paths, set![sid], cur, cur, all_slots());
                lemma_paths_spliced_compose(old(self).paths, cur.paths, self.paths, dk, set![sid], cur);
                assert forall|t: SegmentId| !dk.union(set![sid]).contains(t) implies #[trigger] cur.sg(t) == self.sg(t) by {
                    assert(self.segments.lookup(t.idx, t.generation) == (if cur.segments.is_live(t.idx as int) && (|i: int| i == sid.idx as int)(t.idx as int) {
                        None
                    } else {
                        cur.segments.lookup(t.idx, t.generation)
                    }));
                }
                lemma_paths_spliced_doc_swap(old(self).paths, self.paths, dk.union(set![sid]), cur, *self, all_slots());
                // layers
                Self::lemma_cascade_gone_step(*old(self), cur, dk, sid);
                lemma_layers_detached_compose(old(self).layers@, cur.layers@, self.layers@, old(self).cascade_gone(dk), cur.cascade_gone(set![sid]));
            }
            k = k + 1;
        }
        let ghost d1 = *self;
        proof {
            let du = seg_set(dead@, k as int);
            assert(du =~= old(self).segments_using(id));
            assert forall|i: int| #[trigger] old(self).segments.is_live(i) implies
                (seg_prefix(dead@, k as int)(i) == seg_uses_at(old(self).segments, id)(i)) by {
                let sid = SegmentId { idx: i as u32, generation: old(self).segments.slots@[i].generation };
                assert(old(self).sg(sid) is Some);
                if seg_prefix(dead@, k as int)(i) {
                    let j = choose|j: int| 0 <= j < k && (#[trigger] dead@[j]).idx == i;
                    assert(old(self).sg(dead@[j]) is Some);
                    assert(dead@[j] == sid);
                }
                if seg_uses_at(old(self).segments, id)(i) {
                    assert(old(self).segments_using(id).contains(sid));
                    assert(du.contains(sid));
                    let j = choose|j: int| 0 <= j < k && #[trigger] dead@[j] == sid;
                    assert(dead@[j].idx == i);
                }
            }
            Arena::lemma_vacated_where_congruent(old(self).segments, self.segments, seg_prefix(dead@, k as int), seg_uses_at(old(self).segments, id));
        }
        self.retain_constraints_without(id);
        self.retain_dims_without(id);
        self.detach_from_layers(ElementRef::Point(id));
        proof {
            lemma_layers_detached_compose(old(self).layers@, d1.layers@, self.layers@,
                old(self).cascade_gone(old(self).segments_using(id)), set![ElementRef::Point(id)]);
            assert(self.points.is_live(id.idx as int) ==> self.points.slots@[id.idx as int].generation < u32::MAX);
        }
        let ghost d2 = *self;
        let r = self.points.remove((id.idx, id.generation)).is_some();
        proof {
            assert forall|i: int| #[trigger] self.points.is_live(i) implies self.points.slots@[i].generation < u32::MAX by {
                assert(d2.points.is_live(i));
            }
            assert(seg_set(dead@, dead@.len() as int) == old(self).segments_using(id));
            lemma_paths_spliced_doc_swap(old(self).paths, self.paths, old(self).segments_using(id), d1, *self, all_slots());
            Arena::lemma_vacated_where_facts(old(self).segments, self.segments, seg_uses_at(old(self).segments, id));
            assert forall|s: SegmentId| #[trigger] self.sg(s) is Some implies !seg_uses(self.sg(s).unwrap(), id) by {
                assert(self.segments.is_live(s.idx as int));
            }
            broadcast use vstd::seq_lib::group_filter_ensures;
            assert forall|k: int| 0 <= k < self.constraints@.len() implies
                (#[trigger] self.constraints@[k]).a != id && self.constraints@[k].b != id by {
                assert(constraints_keeping(id)(self.constraints@[k]));
            }
            assert forall|k: int| 0 <= k < self.dimensions@.len() implies dim_keeps_point(#[trigger] self.dimensions@[k], id) by {
                assert(dims_keeping(id)(self.dimensions@[k]));
            }
            assert forall|i: int| 0 <= i < self.layers@.len() implies !(#[trigger] self.layers@[i]).elements@.contains(ElementRef::Point(id)) by {
                let g = old(self).cascade_gone(old(self).segments_using(id)).union(set![ElementRef::Point(id)]);
                let els = old(self).layers@[i].elements@;
                if self.layers@[i].elements@.contains(ElementRef::Point(id)) {
                    let q = choose|q: int| 0 <= q < els.filter(outside(g)).len() && els.filter(outside(g))[q] == ElementRef::Point(id);
                    assert(outside(g)(els.filter(outside(g))[q]));
                }
            }
        }
        r
    }

    /// Drops the constraints on point `p`.
    fn retain_constraints_without(&mut self, p: PointId)
        ensures
            final(self).constraints@ == old(self).constraints@.filter(constraints_keeping(p)),
            final(self).same_geometry(old(self)),
            final(self).layers == old(self).layers,
            final(self).settings == old(self).settings,
            final(self).dimensions == old(self).dimensions,
    {
        let ghost pred = constraints_keeping(p);
        let mut kept: Vec<Constraint> = Vec::new();
        let mut i: usize = 0;
        while i < self.constraints.len()
            invariant
                i <= self.constraints@.len(),
                pred == constraints_keeping(p),
                kept@ == self.constraints@.take(i as int).filter(pred),
            decreases self.constraints@.len() - i,
        {
            proof {
                assert(self.constraints@.take(i as int + 1) == self.constraints@.take(i as int).push(self.constraints@[i as int]));
                self.constraints@.take(i as int).lemma_filter_push(self.constraints@[i as int], pred);
            }
            let c = self.constraints[i];
            if c.a != p && c.b != p {
                kept.push(c);
            }
            i = i + 1;
        }
        proof {
            assert(self.constraints@.take(i as int) == self.constraints@);
        }
        self.constraints = kept;
    }

    /// Drops the dimensions on point `p`.
    fn retain_dims_without(&mut self, p: PointId)
        ensures
            final(self).dimensions@ == old(self).dimensions@.filter(dims_keeping(p)),
            final(self).same_geometry(old(self)),
            final(self).layers == old(self).layers,
            final(self).settings == old(self).settings,
            final(self).constraints == old(self).constraints,
    {
        let ghost pred = dims_keeping(p);
        let mut kept: Vec<Dimension> = Vec::new();
        let mut i: usize = 0;
        while i < self.dimensions.len()
            invariant
                i <= self.dimensions@.len(),
                pred == dims_keeping(p),
                kept@ == self.dimensions@.take(i as int).filter(pred),
            decreases self.dimensions@.len() - i,
        {
            proof {
                assert(self.dimensions@.take(i as int + 1) == self.dimensions@.take(i as int).push(self.dimensions@[i as int]));
                self.dimensions@.take(i as int).lemma_filter_push(self.dimensions@[i as int], pred);
            }
            let d = self.dimensions[i];
            let keep = match d.target {
                DimTarget::Points { a, b, .. } => a != p && b != p,
                DimTarget::PointLine { p: q, .. } => q != p,
                _ => true,
            };
            if keep {
                kept.push(d);
            }
            i = i + 1;
        }
        proof {
            assert(self.dimensions@.take(i as int) == self.dimensions@);
        }
        self.dimensions = kept;
    }
}

/// `p` with `drop` replaced by `keep`.
pub open spec fn swap_pt(p: PointId, drop: PointId, keep: PointId) -> PointId {
    if p == drop {
        keep
    } else {
        p
    }
}

pub open spec fn swap_opt(o: Option<PointId>, drop: PointId, keep: PointId) -> Option<PointId> {
    match o {
        Some(p) => Some(swap_pt(p, drop, keep)),
        None => None,
    }
}

/// Segment `s` with every reference to `drop` rewritten to `keep`.
pub open spec fn rewrite_seg(s: Segment, drop: PointId, keep: PointId) -> Segment {
    Segment {
        start: swap_pt(s.start, drop, keep),
        end: swap_pt(s.end, drop, keep),
        kind: s.kind,
        stroke_width_bits: s.stroke_width_bits,
        ctrl: swap_opt(s.ctrl, drop, keep),
        center: swap_opt(s.center, drop, keep),
        handle_out: swap_opt(s.handle_out, drop, keep),
        handle_in: swap_opt(s.handle_in, drop, keep),
    }
}

pub open spec fn rewrite_slot(x: Slot<Segment>, drop: PointId, keep: PointId) -> Slot<Segment> {
    Slot {
        generation: x.generation,
        value: match x.value {
            Some(s) => Some(rewrite_seg(s, drop, keep)),
            None => None,
        },
    }
}

pub open spec fn rewrite_constraint(c: Constraint, drop: PointId, keep: PointId) -> Constraint {
    Constraint { a: swap_pt(c.a, drop, keep), b: swap_pt(c.b, drop, keep), ..c }
}

pub open spec fn rewrite_dim(d: Dimension, drop: PointId, keep: PointId) -> Dimension {
    match d.target {
        DimTarget::Points { a, b, mode } => Dimension {
            target: DimTarget::Points { a: swap_pt(a, drop, keep), b: swap_pt(b, drop, keep), mode },
            ..d
        },
        DimTarget::PointLine { p, line } => Dimension { target: DimTarget::PointLine { p: swap_pt(p, drop, keep), line }, ..d },
        _ => d,
    }
}

/// A constraint between two distinct points.
pub open spec fn constraint_nondegenerate() -> spec_fn(Constraint) -> bool {
    |c: Constraint| c.a != c.b
}

/// A dimension not measuring a point against itself.
pub open spec fn dim_nondegenerate() -> spec_fn(Dimension) -> bool {
    |d: Dimension| match d.target {
        DimTarget::Points { a, b, .. } => a != b,
        _ => true,
    }
}

pub open spec fn rewrite_constraints(s: Seq<Constraint>, drop: PointId, keep: PointId) -> Seq<Constraint> {
    Seq::new(s.len(), |i: int| rewrite_constraint(s[i], drop, keep))
}

pub open spec fn rewrite_dims(s: Seq<Dimension>, drop: PointId, keep: PointId) -> Seq<Dimension> {
    Seq::new(s.len(), |i: int| rewrite_dim(s[i], drop, keep))
}

/// Whether a dimension references point `p`.
pub open spec fn dim_mentions(d: Dimension, p: PointId) -> bool {
    match d.target {
        DimTarget::Points { a, b, .. } => a == p || b == p,
        DimTarget::PointLine { p: q, .. } => q == p,
        _ => false,
    }
}

impl Document {
    /// Fuses `drop` into `keep`: every reference to `drop` (segments,
    /// constraints, dimensions, layer listings) is rewritten to `keep`,
    /// constraints and point-pair dimensions that collapse onto one point
    /// are dropped, and the slot of `drop` is vacated. Nothing happens
    /// when the two ids are equal or `drop` does not resolve.
    pub fn merge_point(&mut self, keep: PointId, drop: PointId)
        requires
            old(self).wf(),
            old(self).live_gens_ok(),
        ensures
            final(self).wf(),
            final(self).live_gens_ok(),
            (keep == drop || old(self).pt(drop) is None) ==> *final(self) == *old(self),
            (keep != drop && old(self).pt(drop) is Some) ==> {
                &&& Arena::vacated(old(self).points, final(self).points, drop.idx)
                &&& final(self).segments.free@ == old(self).segments.free@
                &&& final(self).segments.slots@.len() == old(self).segments.slots@.len()
                &&& forall|i: int| 0 <= i < old(self).segments.slots@.len() ==>
                    #[trigger] final(self).segments.slots@[i] == rewrite_slot(old(self).segments.slots@[i], drop, keep)
                &&& final(self).fills == old(self).fills
                &&& final(self).paths == old(self).paths
                &&& final(self).settings == old(self).settings
                &&& final(self).constraints@ == rewrite_constraints(old(self).constraints@, drop, keep).filter(constraint_nondegenerate())
                &&& final(self).dimensions@ == rewrite_dims(old(self).dimensions@, drop, keep).filter(dim_nondegenerate())
                &&& layers_renamed(old(self).layers@, final(self).layers@, ElementRef::Point(drop), ElementRef::Point(keep))
                // nothing refers to the merged-away point any more
                &&& forall|s: SegmentId| #[trigger] final(self).sg(s) is Some ==> !seg_uses(final(self).sg(s).unwrap(), drop)
                &&& forall|k: int| 0 <= k < final(self).constraints@.len() ==>
                    (#[trigger] final(self).constraints@[k]).a != drop && final(self).constraints@[k].b != drop
                &&& forall|k: int| 0 <= k < final(self).dimensions@.len() ==> !dim_mentions(#[trigger] final(self).dimensions@[k], drop)
            },
    {
        if keep == drop || self.point(drop).is_none() {
            return;
        }
        let ghost d0 = *self;
        let mut i: usize = 0;
        while i < self.segments.slots.len()
            invariant
                i <= self.segments.slots@.len(),
                self.segments.slots@.len() == d0.segments.slots@.len(),
                self.segments.free@ == d0.segments.free@,
                forall|j: int| 0 <= j < i ==> #[trigger] self.segments.slots@[j] == rewrite_slot(d0.segments.slots@[j], drop, keep),
                forall|j: int| i <= j < self.segments.slots@.len() ==> #[trigger] self.segments.slots@[j] == d0.segments.slots@[j],
                self.points == d0.points,
                self.fills == d0.fills,
                self.paths == d0.paths,
                self.layers == d0.layers,
                self.same_records(&d0),
            decreases self.segments.slots@.len() - i,
        {
            if let Some(s) = self.segments.slots[i].value {
                let mut t = s;
                if t.start == drop {
                    t.start = keep;
                }
                if t.end == drop {
                    t.end = keep;
                }
                if t.ctrl == Some(drop) {
                    t.ctrl = Some(keep);
                }
                if t.center == Some(drop) {
                    t.center = Some(keep);
                }
                if t.handle_out == Some(drop) {
                    t.handle_out = Some(keep);
                }
                if t.handle_in == Some(drop) {
                    t.handle_in = Some(keep);
                }
                self.segments.slots[i].value = Some(t);
                proof {
                    assert(t == rewrite_seg(s, drop, keep));
                }
            }
            i = i + 1;
        }
        let mut i: usize = 0;
        while i < self.constraints.len()
            invariant
                i <= self.constraints@.len(),
                self.constraints@.len() == d0.constraints@.len(),
                forall|j: int| 0 <= j < i ==> #[trigger] self.constraints@[j] == rewrite_constraint(d0.constraints@[j], drop, keep),
                forall|j: int| i <= j < self.constraints@.len() ==> #[trigger] self.constraints@[j] == d0.constraints@[j],
                self.dimensions == d0.dimensions,
                self.settings == d0.settings,
                self.points == d0.points,
                self.fills == d0.fills,
                self.paths == d0.paths,
                self.layers == d0.layers,
                self.segments.slots@.len() == d0.segments.slots@.len(),
                self.segments.free@ == d0.segments.free@,
                forall|j: int| 0 <= j < self.segments.slots@.len() ==> #[trigger] self.segments.slots@[j] == rewrite_slot(d0.segments.slots@[j], drop, keep),
            decreases self.constraints@.len() - i,
        {
            let mut c = self.constraints[i];
            if c.a == drop {
                c.a = keep;
            }
            if c.b == drop {
                c.b = keep;
            }
            self.constraints.set(i, c);
            i = i + 1;
        }
        proof {
            assert(self.constraints@ =~= rewrite_constraints(d0.constraints@, drop, keep));
        }
        let mut i: usize = 0;
        while i < self.dimensions.len()
            invariant
                i <= self.dimensions@.len(),
                self.dimensions@.len() == d0.dimensions@.len(),
                forall|j: int| 0 <= j < i ==> #[trigger] self.dimensions@[j] == rewrite_dim(d0.dimensions@[j], drop, keep),
                forall|j: int| i <= j < self.dimensions@.len() ==> #[trigger] self.dimensions@[j] == d0.dimensions@[j],
                self.constraints@ == rewrite_constraints(d0.constraints@, drop, keep),
                self.settings == d0.settings,
                self.points == d0.points,
                self.fills == d0.fills,
                self.paths == d0.paths,
                self.layers == d0.layers,
                self.segments.slots@.len() == d0.segments.slots@.len(),
                self.segments.free@ == d0.segments.free@,
                forall|j: int| 0 <= j < self.segments.slots@.len() ==> #[trigger] self.segments.slots@[j] == rewrite_slot(d0.segments.slots@[j], drop, keep),
            decreases self.dimensions@.len() - i,
        {
            let mut d = self.dimensions[i];
            match d.target {
                DimTarget::Points { a, b, mode } => {
                    d.target = DimTarget::Points {
                        a: if a == drop { keep } else { a },
                        b: if b == drop { keep } else { b },
                        mode,
                    };
                },
                DimTarget::PointLine { p, line } => {
                    d.target = DimTarget::PointLine { p: if p == drop { keep } else { p }, line };
                },
                _ => {},
            }
            self.dimensions.set(i, d);
            i = i + 1;
        }
        proof {
            assert(self.dimensions@ =~= rewrite_dims(d0.dimensions@, drop, keep));
        }
        self.retain_nondegenerate_constraints();
        self.retain_nondegenerate_dims();
        self.rename_in_layers(ElementRef::Point(drop), ElementRef::Point(keep));
        proof {
            assert(self.points.is_live(drop.idx as int));
            assert(self.points.slots@[drop.idx as int].generation < u32::MAX);
            assert forall|j: int| #[trigger] self.segments.is_live(j) implies self.segments.slots@[j].generation < u32::MAX by {
                assert(d0.segments.is_live(j));
            }
        }
        let ghost d1 = *self;
        self.points.remove((drop.idx, drop.generation));
        proof {
            assert forall|j: int| #[trigger] self.points.is_live(j) implies self.points.slots@[j].generation < u32::MAX by {
                assert(d1.points.is_live(j));
            }
            assert forall|s: SegmentId| #[trigger] self.sg(s) is Some implies !seg_uses(self.sg(s).unwrap(), drop) by {
                assert(self.segments.slots@[s.idx as int] == rewrite_slot(d0.segments.slots@[s.idx as int], drop, keep));
            }
            broadcast use vstd::seq_lib::group_filter_ensures;
            let rc = rewrite_constraints(d0.constraints@, drop, keep);
            assert forall|k: int| 0 <= k < self.constraints@.len() implies
                (#[trigger] self.constraints@[k]).a != drop && self.constraints@[k].b != drop by {
                let c = self.constraints@[k];
                assert(rc.filter(constraint_nondegenerate()).contains(c));
                rc.lemma_filter_contains_rev(constraint_nondegenerate(), c);
                let j = choose|j: int| 0 <= j < rc.len() && rc[j] == c;
            }
            let rd = rewrite_dims(d0.dimensions@, drop, keep);
            assert forall|k: int| 0 <= k < self.dimensions@.len() implies !dim_mentions(#[trigger] self.dimensions@[k], drop) by {
                let d = self.dimensions@[k];
                assert(rd.filter(dim_nondegenerate()).contains(d));
                rd.lemma_filter_contains_rev(dim_nondegenerate(), d);
                let j = choose|j: int| 0 <= j < rd.len() && rd[j] == d;
            }
        }
    }

    fn retain_nondegenerate_constraints(&mut self)
        ensures
            final(self).constraints@ == old(self).constraints@.filter(constraint_nondegenerate()),
            final(self).same_geometry(old(self)),
            final(self).layers == old(self).layers,
            final(self).settings == old(self).settings,
            final(self).dimensions == old(self).dimensions,
    {
        let ghost pred = constraint_nondegenerate();
        let mut kept: Vec<Constraint> = Vec::new();
        let mut i: usize = 0;
        while i < self.constraints.len()
            invariant
                i <= self.constraints@.len(),
                pred == constraint_nondegenerate(),
                kept@ == self.constraints@.take(i as int).filter(pred),
            decreases self.constraints@.len() - i,
        {
            proof {
                assert(self.constraints@.take(i as int + 1) == self.constraints@.take(i as int).push(self.constraints@[i as int]));
                self.constraints@.take(i as int).lemma_filter_push(self.constraints@[i as int], pred);
            }
            let c = self.constraints[i];
            if c.a != c.b {
                kept.push(c);
            }
            i = i + 1;
        }
        proof {
            assert(self.constraints@.take(i as int) == self.constraints@);
        }
        self.constraints = kept;
    }

    fn retain_nondegenerate_dims(&mut self)
        ensures
            final(self).dimensions@ == old(self).dimensions@.filter(dim_nondegenerate()),
            final(self).same_geometry(old(self)),
            final(self).layers == old(self).layers,
            final(self).settings == old(self).settings,
            final(self).constraints == old(self).constraints,
    {
        let ghost pred = dim_nondegenerate();
        let mut kept: Vec<Dimension> = Vec::new();
        let mut i: usize = 0;
        while i < self.dimensions.len()
            invariant
                i <= self.dimensions@.len(),
                pred == dim_nondegenerate(),
                kept@ == self.dimensions@.take(i as int).filter(pred),
            decreases self.dimensions@.len() - i,
        {
            proof {
                assert(self.dimensions@.take(i as int + 1) == self.dimensions@.take(i as int).push(self.dimensions@[i as int]));
                self.dimensions@.take(i as int).lemma_filter_push(self.dimensions@[i as int], pred);
            }
            let d = self.dimensions[i];
            let keep = match d.target {
                DimTarget::Points { a, b, .. } => a != b,
                _ => true,
            };
            if keep {
                kept.push(d);
            }
            i = i + 1;
        }
        proof {
            assert(self.dimensions@.take(i as int) == self.dimensions@);
        }
        self.dimensions = kept;
    }
}

/// Whether a pair list holds point `p` on either side.
pub open spec fn pairs_hold(h: Seq<(PointId, PointId)>, p: PointId) -> bool {
    exists|k: int| 0 <= k < h.len() && ((#[trigger] h[k]).0 == p || h[k].1 == p)
}

impl Document {
    /// Whether the geometry a dimension measures still exists.
    pub open spec fn dim_resolves(&self, d: Dimension) -> bool {
        match d.target {
            DimTarget::Points { a, b, .. } => self.pt(a) is Some && self.pt(b) is Some,
            DimTarget::PointLine { p, line } => self.pt(p) is Some && self.sg(line) is Some,
            DimTarget::Lines { a, b } => self.sg(a) is Some && self.sg(b) is Some,
            DimTarget::Angle { a, b } => self.sg(a) is Some && self.sg(b) is Some,
            DimTarget::Radius { seg } => self.sg(seg) is Some,
        }
    }

    pub open spec fn dims_resolving(&self) -> spec_fn(Dimension) -> bool {
        |d: Dimension| self.dim_resolves(d)
    }

    /// Whether something pins point `p`: a live segment using it, a live
    /// path's handle pair, a constraint, or one of `dims`.
    pub open spec fn point_referenced(&self, dims: Seq<Dimension>, p: PointId) -> bool {
        ||| exists|s: SegmentId| #[trigger] self.sg(s) is Some && seg_uses(self.sg(s).unwrap(), p)
        ||| exists|q: PathId| #[trigger] self.ph(q) is Some && pairs_hold(self.ph(q).unwrap().handles@, p)
        ||| exists|k: int| 0 <= k < self.constraints@.len() && ((#[trigger] self.constraints@[k]).a == p || self.constraints@[k].b == p)
        ||| exists|k: int| 0 <= k < dims.len() && dim_mentions(#[trigger] dims[k], p)
    }

    /// Point slots whose point nothing pins.
    pub open spec fn orphan_at(&self, dims: Seq<Dimension>) -> spec_fn(int) -> bool {
        |i: int| !self.point_referenced(dims, PointId { idx: i as u32, generation: self.points.slots@[i].generation })
    }

    /// Layer entries of the live points nothing pins.
    pub open spec fn orphans_gone(&self, dims: Seq<Dimension>) -> Set<ElementRef> {
        Set::new(|e: ElementRef| match e {
            ElementRef::Point(p) => self.pt(p) is Some && !self.point_referenced(dims, p),
            _ => false,
        })
    }

    proof fn lemma_point_referenced_frame(d1: Document, d2: Document, dims: Seq<Dimension>, p: PointId)
        requires
            d1.segments == d2.segments,
            d1.paths == d2.paths,
            d1.constraints == d2.constraints,
        ensures
            d1.point_referenced(dims, p) == d2.point_referenced(dims, p),
    {
        if exists|s: SegmentId| #[trigger] d1.sg(s) is Some && seg_uses(d1.sg(s).unwrap(), p) {
            let s = choose|s: SegmentId| #[trigger] d1.sg(s) is Some && seg_uses(d1.sg(s).unwrap(), p);
            assert(d2.sg(s) == d1.sg(s));
        }
        if exists|s: SegmentId| #[trigger] d2.sg(s) is Some && seg_uses(d2.sg(s).unwrap(), p) {
            let s = choose|s: SegmentId| #[trigger] d2.sg(s) is Some && seg_uses(d2.sg(s).unwrap(), p);
            assert(d2.sg(s) == d1.sg(s));
        }
        if exists|q: PathId| #[trigger] d1.ph(q) is Some && pairs_hold(d1.ph(q).unwrap().handles@, p) {
            let q = choose|q: PathId| #[trigger] d1.ph(q) is Some && pairs_hold(d1.ph(q).unwrap().handles@, p);
            assert(d2.ph(q) == d1.ph(q));
        }
        if exists|q: PathId| #[trigger] d2.ph(q) is Some && pairs_hold(d2.ph(q).unwrap().handles@, p) {
            let q = choose|q: PathId| #[trigger] d2.ph(q) is Some && pairs_hold(d2.ph(q).unwrap().handles@, p);
            assert(d2.ph(q) == d1.ph(q));
        }
    }

    fn dim_target_resolves(&self, d: &Dimension) -> (r: bool)
        ensures
            r == self.dim_resolves(*d),
    {
        match d.target {
            DimTarget::Points { a, b, .. } => self.point(a).is_some() && self.point(b).is_some(),
            DimTarget::PointLine { p, line } => self.point(p).is_some() && self.segment(line).is_some(),
            DimTarget::Lines { a, b } => self.segment(a).is_some() && self.segment(b).is_some(),
            DimTarget::Angle { a, b } => self.segment(a).is_some() && self.segment(b).is_some(),
            DimTarget::Radius { seg } => self.segment(seg).is_some(),
        }
    }

    /// Whether point `p` is pinned, given the document's segment and path
    /// listings.
    fn referenced_in(
        &self,
        segs: &Vec<(SegmentId, Segment)>,
        pids: &Vec<PathId>,
        dims: &Vec<Dimension>,
        p: PointId,
    ) -> (r: bool)
        requires
            forall|k: int| 0 <= k < segs@.len() ==> self.sg((#[trigger] segs@[k]).0) == Some(segs@[k].1),
            forall|s: SegmentId| #[trigger] self.sg(s) is Some ==> exists|k: int| 0 <= k < segs@.len() && (#[trigger] segs@[k]).0 == s,
            forall|k: int| 0 <= k < pids@.len() ==> self.ph(#[trigger] pids@[k]) is Some,
            forall|q: PathId| #[trigger] self.ph(q) is Some ==> pids@.contains(q),
        ensures
            r == self.point_referenced(dims@, p),
    {
        let mut k: usize = 0;
        while k < segs.len()
            invariant
                k <= segs@.len(),
                forall|j: int| 0 <= j < segs@.len() ==> self.sg((#[trigger] segs@[j]).0) == Some(segs@[j].1),
                forall|s: SegmentId| #[trigger] self.sg(s) is Some ==> exists|j: int| 0 <= j < segs@.len() && (#[trigger] segs@[j]).0 == s,
                forall|j: int| 0 <= j < pids@.len() ==> self.ph(#[trigger] pids@[j]) is Some,
                forall|q: PathId| #[trigger] self.ph(q) is Some ==> pids@.contains(q),
                forall|j: int| 0 <= j < k ==> !seg_uses((#[trigger] segs@[j]).1, p),
            decreases segs@.len() - k,
        {
            if segs[k].1.uses(p) {
                assert(self.sg(segs@[k as int].0) == Some(segs@[k as int].1));
                return true;
            }
            k = k + 1;
        }
        let mut k: usize = 0;
        while k < pids.len()
            invariant
                k <= pids@.len(),
                forall|j: int| 0 <= j < segs@.len() ==> self.sg((#[trigger] segs@[j]).0) == Some(segs@[j].1),
                forall|s: SegmentId| #[trigger] self.sg(s) is Some ==> exists|j: int| 0 <= j < segs@.len() && (#[trigger] segs@[j]).0 == s,
                forall|j: int| 0 <= j < pids@.len() ==> self.ph(#[trigger] pids@[j]) is Some,
                forall|q: PathId| #[trigger] self.ph(q) is Some ==> pids@.contains(q),
                forall|j: int| 0 <= j < k ==> !pairs_hold(self.ph(#[trigger] pids@[j]).unwrap().handles@, p),
            decreases pids@.len() - k,
        {
            assert(self.ph(pids@[k as int]) is Some);
            let path = self.path(pids[k]).unwrap();
            let mut j: usize = 0;
            while j < path.handles.len()
                invariant
                    j <= path.handles@.len(),
                    self.ph(pids@[k as int]) == Some(*path),
                    forall|x: int| 0 <= x < j ==> !((#[trigger] path.handles@[x]).0 == p || path.handles@[x].1 == p),
                decreases path.handles@.len() - j,
            {
                let (h0, h1) = path.handles[j];
                if h0 == p || h1 == p {
                    assert(self.ph(pids@[k as int]) is Some);
                    assert(pairs_hold(self.ph(pids@[k as int]).unwrap().handles@, p));
                    return true;
                }
                j = j + 1;
            }
            k = k + 1;
        }
        let mut k: usize = 0;
        while k < self.constraints.len()
            invariant
                k <= self.constraints@.len(),
                forall|j: int| 0 <= j < segs@.len() ==> self.sg((#[trigger] segs@[j]).0) == Some(segs@[j].1),
                forall|s: SegmentId| #[trigger] self.sg(s) is Some ==> exists|j: int| 0 <= j < segs@.len() && (#[trigger] segs@[j]).0 == s,
                forall|j: int| 0 <= j < pids@.len() ==> self.ph(#[trigger] pids@[j]) is Some,
                forall|q: PathId| #[trigger] self.ph(q) is Some ==> pids@.contains(q),
                forall|j: int| 0 <= j < segs@.len() ==> !seg_uses((#[trigger] segs@[j]).1, p),
                forall|j: int| 0 <= j < pids@.len() ==> !pairs_hold(self.ph(#[trigger] pids@[j]).unwrap().handles@, p),
                forall|j: int| 0 <= j < k ==> !((#[trigger] self.constraints@[j]).a == p || self.constraints@[j].b == p),
            decreases self.constraints@.len() - k,
        {
            if self.constraints[k].a == p || self.constraints[k].b == p {
                return true;
            }
            k = k + 1;
        }
        let mut k: usize = 0;
        while k < dims.len()
            invariant
                k <= dims@.len(),
                forall|j: int| 0 <= j < segs@.len() ==> self.sg((#[trigger] segs@[j]).0) == Some(segs@[j].1),
                forall|s: SegmentId| #[trigger] self.sg(s) is Some ==> exists|j: int| 0 <= j < segs@.len() && (#[trigger] segs@[j]).0 == s,
                forall|j: int| 0 <= j < pids@.len() ==> self.ph(#[trigger] pids@[j]) is Some,
                forall|q: PathId| #[trigger] self.ph(q) is Some ==> pids@.contains(q),
                forall|j: int| 0 <= j < segs@.len() ==> !seg_uses((#[trigger] segs@[j]).1, p),
                forall|j: int| 0 <= j < pids@.len() ==> !pairs_hold(self.ph(#[trigger] pids@[j]).unwrap().handles@, p),
                forall|j: int| 0 <= j < self.constraints@.len() ==> !((#[trigger] self.constraints@[j]).a == p || self.constraints@[j].b == p),
                forall|j: int| 0 <= j < k ==> !dim_mentions(#[trigger] dims@[j], p),
            decreases dims@.len() - k,
        {
            let hit = match dims[k].target {
                DimTarget::Points { a, b, .. } => a == p || b == p,
                DimTarget::PointLine { p: q, .. } => q == p,
                _ => false,
            };
            if hit {
                return true;
            }
            k = k + 1;
        }
        proof {
            if exists|s: SegmentId| #[trigger] self.sg(s) is Some && seg_uses(self.sg(s).unwrap(), p) {
                let s = choose|s: SegmentId| #[trigger] self.sg(s) is Some && seg_uses(self.sg(s).unwrap(), p);
                let k = choose|k: int| 0 <= k < segs@.len() && (#[trigger] segs@[k]).0 == s;
            }
            if exists|q: PathId| #[trigger] self.ph(q) is Some && pairs_hold(self.ph(q).unwrap().handles@, p) {
                let q = choose|q: PathId| #[trigger] self.ph(q) is Some && pairs_hold(self.ph(q).unwrap().handles@, p);
                let k = choose|k: int| 0 <= k < pids@.len() && pids@[k] == q;
            }
        }
        false
    }

    /// Drops dimensions whose measured geometry is gone, then removes the
    /// points nothing pins any more (no segment, path handle pair,
    /// constraint or surviving dimension), taking them out of every layer.
    pub fn sweep_orphans(&mut self)
        requires
            old(self).wf(),
            old(self).live_gens_ok(),
        ensures
            final(self).wf(),
            final(self).live_gens_ok(),
            final(self).dimensions@ == old(self).dimensions@.filter(old(self).dims_resolving()),
            Arena::vacated_where(old(self).points, final(self).points, old(self).orphan_at(final(self).dimensions@)),
            layers_detached(old(self).layers@, final(self).layers@, old(self).orphans_gone(final(self).dimensions@)),
            final(self).segments == old(self).segments,
            final(self).fills == old(self).fills,
            final(self).paths == old(self).paths,
            final(self).constraints == old(self).constraints,
            final(self).settings == old(self).settings,
            // afterwards every point is pinned and every dimension resolves
            forall|p: PointId| #[trigger] final(self).pt(p) is Some ==> final(self).point_referenced(final(self).dimensions@, p),
            forall|k: int| 0 <= k < final(self).dimensions@.len() ==> final(self).dim_resolves(#[trigger] final(self).dimensions@[k]),
    {
        let ghost pred = self.dims_resolving();
        let mut kept: Vec<Dimension> = Vec::new();
        let mut i: usize = 0;
        while i < self.dimensions.len()
            invariant
                i <= self.dimensions@.len(),
                pred == old(self).dims_resolving(),
                *self == *old(self),
                kept@ == self.dimensions@.take(i as int).filter(pred),
            decreases self.dimensions@.len() - i,
        {
            proof {
                assert(self.dimensions@.take(i as int + 1) == self.dimensions@.take(i as int).push(self.dimensions@[i as int]));
                self.dimensions@.take(i as int).lemma_filter_push(self.dimensions@[i as int], pred);
            }
            let d = self.dimensions[i];
            if self.dim_target_resolves(&d) {
                kept.push(d);
            }
            i = i + 1;
        }
        proof {
            assert(self.dimensions@.take(i as int) == self.dimensions@);
        }
        self.dimensions = kept;
        let ghost d1 = *self;
        let segs = self.all_segments();
        let pids = self.all_paths();
        let pts = self.all_points();
        let mut orphans: Vec<PointId> = Vec::new();
        let mut k: usize = 0;
        while k < pts.len()
            invariant
                k <= pts@.len(),
                *self == d1,
                forall|j: int| 0 <= j < pts@.len() ==> self.pt((#[trigger] pts@[j]).0) == Some(pts@[j].1),
                forall|a: int, b: int| 0 <= a < b < pts@.len() ==> (#[trigger] pts@[a]).0.idx < (#[trigger] pts@[b]).0.idx,
                forall|q: PointId| #[trigger] self.pt(q) is Some ==> exists|j: int| 0 <= j < pts@.len() && (#[trigger] pts@[j]).0 == q,
                forall|j: int| 0 <= j < segs@.len() ==> self.sg((#[trigger] segs@[j]).0) == Some(segs@[j].1),
                forall|s: SegmentId| #[trigger] self.sg(s) is Some ==> exists|j: int| 0 <= j < segs@.len() && (#[trigger] segs@[j]).0 == s,
                forall|j: int| 0 <= j < pids@.len() ==> self.ph(#[trigger] pids@[j]) is Some,
                forall|q: PathId| #[trigger] self.ph(q) is Some ==> pids@.contains(q),
                forall|j: int| 0 <= j < orphans@.len() ==> #[trigger] self.pt(orphans@[j]) is Some && !self.point_referenced(self.dimensions@, orphans@[j]),
                forall|j: int| 0 <= j < orphans@.len() ==> exists|a: int| 0 <= a < k && pts@[a].0 == #[trigger] orphans@[j],
                forall|a: int, b: int| 0 <= a < b < orphans@.len() ==> (#[trigger] orphans@[a]).idx < (#[trigger] orphans@[b]).idx,
                forall|a: int| 0 <= a < k && !self.point_referenced(self.dimensions@, (#[trigger] pts@[a]).0) ==> orphans@.contains(pts@[a].0),
            decreases pts@.len() - k,
        {
            let pid = pts[k].0;
            if !self.referenced_in(&segs, &pids, &self.dimensions, pid) {
                let ghost prev = orphans@;
                orphans.push(pid);
                proof {
                    assert forall|j: int| 0 <= j < orphans@.len() implies exists|a: int| 0 <= a < k + 1 && pts@[a].0 == #[trigger] orphans@[j] by {
                        if j < prev.len() {
                            assert(orphans@[j] == prev[j]);
                        } else {
                            assert(pts@[k as int].0 == orphans@[j]);
                        }
                    }
                    assert forall|a: int, b: int| 0 <= a < b < orphans@.len() implies (#[trigger] orphans@[a]).idx < (#[trigger] orphans@[b]).idx by {
                        if b == orphans@.len() - 1 {
                            assert(orphans@[a] == prev[a]);
                            let x = choose|x: int| 0 <= x < k && pts@[x].0 == prev[a];
                        }
                    }
                    assert forall|a: int| 0 <= a < k + 1 && !self.point_referenced(self.dimensions@, (#[trigger] pts@[a]).0) implies orphans@.contains(pts@[a].0) by {
                        if a < k {
                            let j = choose|j: int| 0 <= j < prev.len() && prev[j] == pts@[a].0;
                            assert(orphans@[j] == pts@[a].0);
                        } else {
                            assert(orphans@[orphans@.len() - 1] == pts@[a].0);
                        }
                    }
                }
            }
            k = k + 1;
        }
        let mut k: usize = 0;
        proof {
            Arena::lemma_vacated_where_refl(self.points, point_prefix(orphans@, 0));
            lemma_layers_detached_refl(self.layers@);
            assert(point_entries(orphans@, 0) =~= Set::<ElementRef>::empty());
        }
        while k < orphans.len()
            invariant
                k <= orphans@.len(),
                self.wf(),
                self.live_gens_ok(),
                d1.wf(),
                d1.live_gens_ok(),
                forall|j: int| 0 <= j < orphans@.len() ==> #[trigger] d1.pt(orphans@[j]) is Some && !d1.point_referenced(d1.dimensions@, orphans@[j]),
                forall|a: int, b: int| 0 <= a < b < orphans@.len() ==> (#[trigger] orphans@[a]).idx < (#[trigger] orphans@[b]).idx,
                Arena::vacated_where(d1.points, self.points, point_prefix(orphans@, k as int)),
                layers_detached(d1.layers@, self.layers@, point_entries(orphans@, k as int)),
                forall|q: PointId| #[trigger] d1.pt(q) is Some ==> exists|j: int| 0 <= j < pts@.len() && (#[trigger] pts@[j]).0 == q,
                forall|a: int| 0 <= a < pts@.len() && !d1.point_referenced(d1.dimensions@, (#[trigger] pts@[a]).0) ==> orphans@.contains(pts@[a].0),
                self.segments == d1.segments,
                self.fills == d1.fills,
                self.paths == d1.paths,
                self.same_records(&d1),
            decreases orphans@.len() - k,
        {
            let pid = orphans[k];
            let ghost cur = *self;
            proof {
                assert(d1.pt(orphans@[k as int]) is Some);
                Arena::lemma_vacated_where_facts(d1.points, self.points, point_prefix(orphans@, k as int));
                assert(!point_prefix(orphans@, k as int)(pid.idx as int)) by {
                    if point_prefix(orphans@, k as int)(pid.idx as int) {
                        let j = choose|j: int| 0 <= j < k && (#[trigger] orphans@[j]).idx == pid.idx;
                        assert(orphans@[j].idx < orphans@[k as int].idx);
                    }
                }
                assert(d1.points.is_live(pid.idx as int));
                assert(self.points.is_live(pid.idx as int));
            }
            self.points.remove((pid.idx, pid.generation));
            let ghost mid = *self;
            self.detach_from_layers(ElementRef::Point(pid));
            proof {
                Arena::lemma_vacated_single(cur.points, self.points, pid.idx);
                Arena::lemma_vacated_where_compose(d1.points, cur.points, self.points, point_prefix(orphans@, k as int), |i: int| i == pid.idx as int);
                Arena::lemma_vacated_where_congruent(
                    d1.points,
                    self.points,
                    |i: int| point_prefix(orphans@, k as int)(i) || (|i: int| i == pid.idx as int)(i),
                    point_prefix(orphans@, k as int + 1),
                );
                Arena::lemma_vacated_where_facts(d1.points, self.points, point_prefix(orphans@, k as int + 1));
                lemma_layers_detached_compose(d1.layers@, cur.layers@, self.layers@, point_entries(orphans@, k as int), set![ElementRef::Point(pid)]);
                assert(point_entries(orphans@, k as int).union(set![ElementRef::Point(pid)]) =~= point_entries(orphans@, k as int + 1));
            }
            k = k + 1;
        }
        proof {
            assert forall|i: int| #[trigger] d1.points.is_live(i) implies
                (point_prefix(orphans@, k as int)(i) == old(self).orphan_at(d1.dimensions@)(i)) by {
                let q = PointId { idx: i as u32, generation: d1.points.slots@[i].generation };
                assert(d1.pt(q) is Some);
                Self::lemma_point_referenced_frame(d1, *old(self), d1.dimensions@, q);
                if point_prefix(orphans@, k as int)(i) {
                    let j = choose|j: int| 0 <= j < k && (#[trigger] orphans@[j]).idx == i;
                    assert(d1.pt(orphans@[j]) is Some);
                    assert(orphans@[j] == q);
                }
                if old(self).orphan_at(d1.dimensions@)(i) {
                    let a = choose|a: int| 0 <= a < pts@.len() && (#[trigger] pts@[a]).0 == q;
                    assert(orphans@.contains(q));
                    let j = choose|j: int| 0 <= j < orphans@.len() && orphans@[j] == q;
                    assert(orphans@[j].idx == i);
                }
            }
            Arena::lemma_vacated_where_congruent(d1.points, self.points, point_prefix(orphans@, k as int), old(self).orphan_at(d1.dimensions@));
            assert(point_entries(orphans@, k as int) =~= old(self).orphans_gone(d1.dimensions@)) by {
                assert forall|e: ElementRef| #[trigger] old(self).orphans_gone(d1.dimensions@).contains(e) == point_entries(orphans@, k as int).contains(e) by {
                    if let ElementRef::Point(q) = e {
                        Self::lemma_point_referenced_frame(d1, *old(self), d1.dimensions@, q);
                        if old(self).orphans_gone(d1.dimensions@).contains(e) {
                            assert(d1.pt(q) is Some);
                            let a = choose|a: int| 0 <= a < pts@.len() && (#[trigger] pts@[a]).0 == q;
                            assert(orphans@.contains(q));
                        }
                    }
                }
            }
            // every surviving point is pinned
            assert forall|q: PointId| #[trigger] self.pt(q) is Some implies self.point_referenced(self.dimensions@, q) by {
                assert(self.points.is_live(q.idx as int));
                assert(d1.pt(q) is Some);
                assert(d1.point_referenced(d1.dimensions@, q));
                if exists|s: SegmentId| #[trigger] d1.sg(s) is Some && seg_uses(d1.sg(s).unwrap(), q) {
                    let s = choose|s: SegmentId| #[trigger] d1.sg(s) is Some && seg_uses(d1.sg(s).unwrap(), q);
                    assert(self.sg(s) is Some);
                }
                if exists|x: PathId| #[trigger] d1.ph(x) is Some && pairs_hold(d1.ph(x).unwrap().handles@, q) {
                    let x = choose|x: PathId| #[trigger] d1.ph(x) is Some && pairs_hold(d1.ph(x).unwrap().handles@, q);
                    assert(self.ph(x) is Some);
                }
            }
            // every surviving dimension resolves: its points are pinned by it
            broadcast use vstd::seq_lib::group_filter_ensures;
            assert forall|k: int| 0 <= k < self.dimensions@.len() implies self.dim_resolves(#[trigger] self.dimensions@[k]) by {
                let d = self.dimensions@[k];
                assert(old(self).dims_resolving()(d));
                match d.target {
                    DimTarget::Points { a, b, .. } => {
                        assert(dim_mentions(d, a) && dim_mentions(d, b));
                        Self::lemma_point_referenced_frame(d1, *old(self), d1.dimensions@, a);
                        Self::lemma_point_referenced_frame(d1, *old(self), d1.dimensions@, b);
                        assert(old(self).point_referenced(d1.dimensions@, a));
                        assert(old(self).point_referenced(d1.dimensions@, b));
                        assert(!old(self).orphan_at(d1.dimensions@)(a.idx as int));
                        assert(!old(self).orphan_at(d1.dimensions@)(b.idx as int));
                    },
                    DimTarget::PointLine { p, .. } => {
                        assert(dim_mentions(d, p));
                        Self::lemma_point_referenced_frame(d1, *old(self), d1.dimensions@, p);
                        assert(old(self).point_referenced(d1.dimensions@, p));
                        assert(!old(self).orphan_at(d1.dimensions@)(p.idx as int));
                    },
                    _ => {},
                }
            }
        }
    }
}

/// Slots named by the first `k` ids of `ids`.
pub open spec fn point_prefix(ids: Seq<PointId>, k: int) -> spec_fn(int) -> bool {
    |i: int| exists|j: int| 0 <= j < k && (#[trigger] ids[j]).idx == i
}

/// The point entries named by the first `k` ids of `ids`.
pub open spec fn point_entries(ids: Seq<PointId>, k: int) -> Set<ElementRef> {
    Set::new(|e: ElementRef| exists|j: int| 0 <= j < k && e == ElementRef::Point(#[trigger] ids[j]))
}

/// Same layer, compared by content.
pub open spec fn layer_same(a: Layer, b: Layer) -> bool {
    a.id == b.id && a.name@ == b.name@ && a.elements@ == b.elements@
}

pub open spec fn fill_slot_same(a: Slot<Fill>, b: Slot<Fill>) -> bool {
    &&& a.generation == b.generation
    &&& (a.value is Some) == (b.value is Some)
    &&& a.value is Some ==> a.value.unwrap().segments@ == b.value.unwrap().segments@
}

pub open spec fn path_same(a: Path, b: Path) -> bool {
    &&& a.segments@ == b.segments@
    &&& a.closed == b.closed
    &&& a.continuity@ == b.continuity@
    &&& a.handles@ == b.handles@
}

pub open spec fn path_slot_same(a: Slot<Path>, b: Slot<Path>) -> bool {
    &&& a.generation == b.generation
    &&& (a.value is Some) == (b.value is Some)
    &&& a.value is Some ==> path_same(a.value.unwrap(), b.value.unwrap())
}

/// Two positions compare equal as numbers, coordinate by coordinate.
pub open spec fn pos_num_eq(a: PointPos, b: PointPos) -> bool {
    num_eq(a.x_bits, b.x_bits) && num_eq(a.y_bits, b.y_bits)
}

pub open spec fn point_slot_num_eq(a: Slot<PointPos>, b: Slot<PointPos>) -> bool {
    &&& a.generation == b.generation
    &&& (a.value is Some) == (b.value is Some)
    &&& a.value is Some ==> pos_num_eq(a.value.unwrap(), b.value.unwrap())
}

/// Two segments agree field by field, the stroke width compared as a number.
pub open spec fn segment_num_eq(a: Segment, b: Segment) -> bool {
    &&& a.start == b.start
    &&& a.end == b.end
    &&& a.kind == b.kind
    &&& num_eq(a.stroke_width_bits, b.stroke_width_bits)
    &&& a.ctrl == b.ctrl
    &&& a.center == b.center
    &&& a.handle_out == b.handle_out
    &&& a.handle_in == b.handle_in
}

pub open spec fn segment_slot_num_eq(a: Slot<Segment>, b: Slot<Segment>) -> bool {
    &&& a.generation == b.generation
    &&& (a.value is Some) == (b.value is Some)
    &&& a.value is Some ==> segment_num_eq(a.value.unwrap(), b.value.unwrap())
}

/// Two dimensions share a target and their four measurements compare equal
/// as numbers.
pub open spec fn dim_num_eq(a: Dimension, b: Dimension) -> bool {
    &&& a.target == b.target
    &&& num_eq(a.value_bits, b.value_bits)
    &&& num_eq(a.offset_bits, b.offset_bits)
    &&& num_eq(a.slide_bits, b.slide_bits)
    &&& num_eq(a.sweep_bits, b.sweep_bits)
}

impl Document {
    /// The parts that hold no numbers agree: settings, layers, free lists,
    /// fills, paths and constraints.
    pub open spec fn same_frame(&self, o: &Document) -> bool {
        &&& self.settings == o.settings
        &&& self.layers@.len() == o.layers@.len()
        &&& forall|i: int| 0 <= i < self.layers@.len() ==> layer_same(#[trigger] self.layers@[i], o.layers@[i])
        &&& self.points.free@ == o.points.free@
        &&& self.segments.free@ == o.segments.free@
        &&& self.fills.slots@.len() == o.fills.slots@.len()
        &&& forall|i: int| 0 <= i < self.fills.slots@.len() ==> fill_slot_same(#[trigger] self.fills.slots@[i], o.fills.slots@[i])
        &&& self.fills.free@ == o.fills.free@
        &&& self.paths.slots@.len() == o.paths.slots@.len()
        &&& forall|i: int| 0 <= i < self.paths.slots@.len() ==> path_slot_same(#[trigger] self.paths.slots@[i], o.paths.slots@[i])
        &&& self.paths.free@ == o.paths.free@
        &&& self.constraints@ == o.constraints@
    }

    /// Content equality: same settings, layers, slots (generations and
    /// values, numbers by bit pattern), free lists, constraints and
    /// dimensions. A duplicate is the same as its source.
    pub open spec fn same(&self, o: &Document) -> bool {
        &&& self.same_frame(o)
        &&& self.points.slots@ == o.points.slots@
        &&& self.segments.slots@ == o.segments.slots@
        &&& self.dimensions@ == o.dimensions@
    }

    /// Value equality: as `same`, but coordinates, stroke widths and
    /// dimension measurements compare as IEEE-754 numbers, so a NaN makes
    /// a document unequal even to itself and -0.0 equals 0.0.
    pub open spec fn equals(&self, o: &Document) -> bool {
        &&& self.same_frame(o)
        &&& self.points.slots@.len() == o.points.slots@.len()
        &&& forall|i: int| 0 <= i < self.points.slots@.len()
            ==> point_slot_num_eq(#[trigger] self.points.slots@[i], o.points.slots@[i])
        &&& self.segments.slots@.len() == o.segments.slots@.len()
        &&& forall|i: int| 0 <= i < self.segments.slots@.len()
            ==> segment_slot_num_eq(#[trigger] self.segments.slots@[i], o.segments.slots@[i])
        &&& self.dimensions@.len() == o.dimensions@.len()
        &&& forall|i: int| 0 <= i < self.dimensions@.len() ==> dim_num_eq(#[trigger] self.dimensions@[i], o.dimensions@[i])
    }

    /// No stored number is a NaN: no live coordinate, no live stroke width,
    /// no dimension measurement.
    pub open spec fn nan_free(&self) -> bool {
        &&& forall|i: int| 0 <= i < self.points.slots@.len() && (#[trigger] self.points.slots@[i]).value is Some
            ==> !is_nan(self.points.slots@[i].value.unwrap().x_bits) && !is_nan(self.points.slots@[i].value.unwrap().y_bits)
        &&& forall|i: int| 0 <= i < self.segments.slots@.len() && (#[trigger] self.segments.slots@[i]).value is Some
            ==> !is_nan(self.segments.slots@[i].value.unwrap().stroke_width_bits)
        &&& forall|i: int| 0 <= i < self.dimensions@.len() ==> {
            let d = #[trigger] self.dimensions@[i];
            !is_nan(d.value_bits) && !is_nan(d.offset_bits) && !is_nan(d.slide_bits) && !is_nan(d.sweep_bits)
        }
    }
}

/// What value equality of two documents means for everything they hold:
/// the same settings, layers, constraints, fills and paths; the same live
/// point ids at numerically equal coordinates; the same live segments,
/// stroke widths numerically equal; and the same dimensions, one for one,
/// on the same targets with numerically equal measurements.
pub proof fn law_equal_documents_agree(a: Document, b: Document)
    requires
        a.equals(&b),
    ensures
        a.settings == b.settings,
        a.layers@.len() == b.layers@.len(),
        a.constraints@ == b.constraints@,
        forall|f: FillId| (#[trigger] a.fl(f) is Some) == (b.fl(f) is Some),
        forall|f: FillId| #[trigger] a.fl(f) is Some ==> a.fl(f).unwrap().segments@ == b.fl(f).unwrap().segments@,
        forall|q: PathId| (#[trigger] a.ph(q) is Some) == (b.ph(q) is Some),
        forall|p: PointId| (#[trigger] a.pt(p) is Some) == (b.pt(p) is Some),
        forall|p: PointId| #[trigger] a.pt(p) is Some ==> num_eq(a.pt(p).unwrap().x_bits, b.pt(p).unwrap().x_bits)
            && num_eq(a.pt(p).unwrap().y_bits, b.pt(p).unwrap().y_bits),
        forall|s: SegmentId| (#[trigger] a.sg(s) is Some) == (b.sg(s) is Some),
        forall|s: SegmentId| #[trigger] a.sg(s) is Some ==> {
            let (x, y) = (a.sg(s).unwrap(), b.sg(s).unwrap());
            &&& x.start == y.start && x.end == y.end && x.kind == y.kind
            &&& x.ctrl == y.ctrl && x.center == y.center && x.handle_out == y.handle_out && x.handle_in == y.handle_in
            &&& num_eq(x.stroke_width_bits, y.stroke_width_bits)
        },
        a.dimensions@.len() == b.dimensions@.len(),
        forall|i: int| 0 <= i < a.dimensions@.len() ==> {
            let (x, y) = (#[trigger] a.dimensions@[i], b.dimensions@[i]);
            &&& x.target == y.target
            &&& num_eq(x.value_bits, y.value_bits) && num_eq(x.offset_bits, y.offset_bits)
            &&& num_eq(x.slide_bits, y.slide_bits) && num_eq(x.sweep_bits, y.sweep_bits)
        },
{
    assert forall|f: FillId| (#[trigger] a.fl(f) is Some) == (b.fl(f) is Some) by {
        if (f.idx as int) < a.fills.slots@.len() {
            assert(fill_slot_same(a.fills.slots@[f.idx as int], b.fills.slots@[f.idx as int]));
        }
    }
    assert forall|f: FillId| #[trigger] a.fl(f) is Some implies a.fl(f).unwrap().segments@ == b.fl(f).unwrap().segments@ by {
        assert(fill_slot_same(a.fills.slots@[f.idx as int], b.fills.slots@[f.idx as int]));
    }
    assert forall|q: PathId| (#[trigger] a.ph(q) is Some) == (b.ph(q) is Some) by {
        if (q.idx as int) < a.paths.slots@.len() {
            assert(path_slot_same(a.paths.slots@[q.idx as int], b.paths.slots@[q.idx as int]));
        }
    }
    assert forall|p: PointId| (#[trigger] a.pt(p) is Some) == (b.pt(p) is Some) by {
        if (p.idx as int) < a.points.slots@.len() {
            assert(point_slot_num_eq(a.points.slots@[p.idx as int], b.points.slots@[p.idx as int]));
        }
    }
    assert forall|p: PointId| #[trigger] a.pt(p) is Some implies num_eq(a.pt(p).unwrap().x_bits, b.pt(p).unwrap().x_bits)
        && num_eq(a.pt(p).unwrap().y_bits, b.pt(p).unwrap().y_bits) by {
        assert(point_slot_num_eq(a.points.slots@[p.idx as int], b.points.slots@[p.idx as int]));
    }
    assert forall|s: SegmentId| (#[trigger] a.sg(s) is Some) == (b.sg(s) is Some) by {
        if (s.idx as int) < a.segments.slots@.len() {
            assert(segment_slot_num_eq(a.segments.slots@[s.idx as int], b.segments.slots@[s.idx as int]));
        }
    }
    assert forall|s: SegmentId| #[trigger] a.sg(s) is Some implies segment_num_eq(a.sg(s).unwrap(), b.sg(s).unwrap()) by {
        assert(segment_slot_num_eq(a.segments.slots@[s.idx as int], b.segments.slots@[s.idx as int]));
    }
    assert forall|i: int| 0 <= i < a.dimensions@.len() implies dim_num_eq(#[trigger] a.dimensions@[i], b.dimensions@[i]) by {
    }
}

/// A document without NaNs equals (as numbers) whatever is the same as it.
pub proof fn law_same_without_nan_equals(a: Document, b: Document)
    requires
        a.same(&b),
        b.nan_free(),
    ensures
        a.equals(&b),
{
    assert forall|i: int| 0 <= i < a.points.slots@.len() implies point_slot_num_eq(#[trigger] a.points.slots@[i], b.points.slots@[i]) by {
        if b.points.slots@[i].value is Some {
            let p = b.points.slots@[i].value.unwrap();
            law_num_eq_reflexive(p.x_bits);
            law_num_eq_reflexive(p.y_bits);
        }
    }
    assert forall|i: int| 0 <= i < a.segments.slots@.len() implies segment_slot_num_eq(#[trigger] a.segments.slots@[i], b.segments.slots@[i]) by {
        if b.segments.slots@[i].value is Some {
            law_num_eq_reflexive(b.segments.slots@[i].value.unwrap().stroke_width_bits);
        }
    }
    assert forall|i: int| 0 <= i < a.dimensions@.len() implies dim_num_eq(#[trigger] a.dimensions@[i], b.dimensions@[i]) by {
        let d = b.dimensions@[i];
        law_num_eq_reflexive(d.value_bits);
        law_num_eq_reflexive(d.offset_bits);
        law_num_eq_reflexive(d.slide_bits);
        law_num_eq_reflexive(d.sweep_bits);
    }
}

/// Content equality is an equivalence.
pub proof fn law_same_equivalence(a: Document, b: Document, c: Document)
    ensures
        a.same(&a),
        a.same(&b) ==> b.same(&a),
        a.same(&b) && b.same(&c) ==> a.same(&c),
{
    if a.same(&b) && b.same(&c) {
        assert forall|i: int| 0 <= i < a.layers@.len() implies layer_same(#[trigger] a.layers@[i], c.layers@[i]) by {
            assert(layer_same(a.layers@[i], b.layers@[i]));
            assert(layer_same(b.layers@[i], c.layers@[i]));
        }
        assert forall|i: int| 0 <= i < a.fills.slots@.len() implies fill_slot_same(#[trigger] a.fills.slots@[i], c.fills.slots@[i]) by {
            assert(fill_slot_same(a.fills.slots@[i], b.fills.slots@[i]));
            assert(fill_slot_same(b.fills.slots@[i], c.fills.slots@[i]));
        }
        assert forall|i: int| 0 <= i < a.paths.slots@.len() implies path_slot_same(#[trigger] a.paths.slots@[i], c.paths.slots@[i]) by {
            assert(path_slot_same(a.paths.slots@[i], b.paths.slots@[i]));
            assert(path_slot_same(b.paths.slots@[i], c.paths.slots@[i]));
        }
    }
    if a.same(&b) {
        assert forall|i: int| 0 <= i < b.layers@.len() implies layer_same(#[trigger] b.layers@[i], a.layers@[i]) by {
            assert(layer_same(a.layers@[i], b.layers@[i]));
        }
        assert forall|i: int| 0 <= i < b.fills.slots@.len() implies fill_slot_same(#[trigger] b.fills.slots@[i], a.fills.slots@[i]) by {
            assert(fill_slot_same(a.fills.slots@[i], b.fills.slots@[i]));
        }
        assert forall|i: int| 0 <= i < b.paths.slots@.len() implies path_slot_same(#[trigger] b.paths.slots@[i], a.paths.slots@[i]) by {
            assert(path_slot_same(a.paths.slots@[i], b.paths.slots@[i]));
        }
    }
}

fn vec_eq_segment_ids(a: &Vec<SegmentId>, b: &Vec<SegmentId>) -> (r: bool)
    ensures
        r == (a@ == b@),
{
    if a.len() != b.len() {
        return false;
    }
    let mut i: usize = 0;
    while i < a.len()
        invariant
            i <= a@.len(),
            a@.len() == b@.len(),
            forall|j: int| 0 <= j < i ==> a@[j] == b@[j],
        decreases a@.len() - i,
    {
        if a[i] != b[i] {
            return false;
        }
        i = i + 1;
    }
    assert(a@ =~= b@);
    true
}

fn vec_eq_elements(a: &Vec<ElementRef>, b: &Vec<ElementRef>) -> (r: bool)
    ensures
        r == (a@ == b@),
{
    if a.len() != b.len() {
        return false;
    }
    let mut i: usize = 0;
    while i < a.len()
        invariant
            i <= a@.len(),
            a@.len() == b@.len(),
            forall|j: int| 0 <= j < i ==> a@[j] == b@[j],
        decreases a@.len() - i,
    {
        if a[i] != b[i] {
            return false;
        }
        i = i + 1;
    }
    assert(a@ =~= b@);
    true
}

fn vec_eq_u32(a: &Vec<u32>, b: &Vec<u32>) -> (r: bool)
    ensures
        r == (a@ == b@),
{
    if a.len() != b.len() {
        return false;
    }
    let mut i: usize = 0;
    while i < a.len()
        invariant
            i <= a@.len(),
            a@.len() == b@.len(),
            forall|j: int| 0 <= j < i ==> a@[j] == b@[j],
        decreases a@.len() - i,
    {
        if a[i] != b[i] {
            return false;
        }
        i = i + 1;
    }
    assert(a@ =~= b@);
    true
}

fn vec_eq_modes(a: &Vec<ContinuityMode>, b: &Vec<ContinuityMode>) -> (r: bool)
    ensures
        r == (a@ == b@),
{
    if a.len() != b.len() {
        return false;
    }
    let mut i: usize = 0;
    while i < a.len()
        invariant
            i <= a@.len(),
            a@.len() == b@.len(),
            forall|j: int| 0 <= j < i ==> a@[j] == b@[j],
        decreases a@.len() - i,
    {
        if a[i] != b[i] {
            return false;
        }
        i = i + 1;
    }
    assert(a@ =~= b@);
    true
}

fn vec_eq_pairs(a: &Vec<(PointId, PointId)>, b: &Vec<(PointId, PointId)>) -> (r: bool)
    ensures
        r == (a@ == b@),
{
    if a.len() != b.len() {
        return false;
    }
    let mut i: usize = 0;
    while i < a.len()
        invariant
            i <= a@.len(),
            a@.len() == b@.len(),
            forall|j: int| 0 <= j < i ==> a@[j] == b@[j],
        decreases a@.len() - i,
    {
        let (x0, x1) = a[i];
        let (y0, y1) = b[i];
        if x0 != y0 || x1 != y1 {
            return false;
        }
        i = i + 1;
    }
    assert(a@ =~= b@);
    true
}

fn vec_eq_constraints(a: &Vec<Constraint>, b: &Vec<Constraint>) -> (r: bool)
    ensures
        r == (a@ == b@),
{
    if a.len() != b.len() {
        return false;
    }
    let mut i: usize = 0;
    while i < a.len()
        invariant
            i <= a@.len(),
            a@.len() == b@.len(),
            forall|j: int| 0 <= j < i ==> a@[j] == b@[j],
        decreases a@.len() - i,
    {
        if a[i] != b[i] {
            return false;
        }
        i = i + 1;
    }
    assert(a@ =~= b@);
    true
}

fn vec_eq_dims(a: &Vec<Dimension>, b: &Vec<Dimension>) -> (r: bool)
    ensures
        r == (a@ == b@),
{
    if a.len() != b.len() {
        return false;
    }
    let mut i: usize = 0;
    while i < a.len()
        invariant
            i <= a@.len(),
            a@.len() == b@.len(),
            forall|j: int| 0 <= j < i ==> a@[j] == b@[j],
        decreases a@.len() - i,
    {
        if a[i] != b[i] {
            return false;
        }
        i = i + 1;
    }
    assert(a@ =~= b@);
    true
}

fn slots_eq_points(a: &Vec<Slot<PointPos>>, b: &Vec<Slot<PointPos>>) -> (r: bool)
    ensures
        r == (a@ == b@),
{
    if a.len() != b.len() {
        return false;
    }
    let mut i: usize = 0;
    while i < a.len()
        invariant
            i <= a@.len(),
            a@.len() == b@.len(),
            forall|j: int| 0 <= j < i ==> a@[j] == b@[j],
        decreases a@.len() - i,
    {
        if a[i].generation != b[i].generation || a[i].value != b[i].value {
            return false;
        }
        i = i + 1;
    }
    assert(a@ =~= b@);
    true
}

fn slots_eq_segments(a: &Vec<Slot<Segment>>, b: &Vec<Slot<Segment>>) -> (r: bool)
    ensures
        r == (a@ == b@),
{
    if a.len() != b.len() {
        return false;
    }
    let mut i: usize = 0;
    while i < a.len()
        invariant
            i <= a@.len(),
            a@.len() == b@.len(),
            forall|j: int| 0 <= j < i ==> a@[j] == b@[j],
        decreases a@.len() - i,
    {
        if a[i].generation != b[i].generation || a[i].value != b[i].value {
            return false;
        }
        i = i + 1;
    }
    assert(a@ =~= b@);
    true
}

impl Document {
    fn frame_same_as(&self, o: &Document) -> (r: bool)
        ensures
            r == self.same_frame(o),
    {
        if self.settings != o.settings {
            return false;
        }
        if self.layers.len() != o.layers.len() {
            return false;
        }
        let mut i: usize = 0;
        while i < self.layers.len()
            invariant
                i <= self.layers@.len(),
                self.layers@.len() == o.layers@.len(),
                forall|j: int| 0 <= j < i ==> layer_same(#[trigger] self.layers@[j], o.layers@[j]),
            decreases self.layers@.len() - i,
        {
            let a = &self.layers[i];
            let b = &o.layers[i];
            if a.id != b.id || a.name != b.name || !vec_eq_elements(&a.elements, &b.elements) {
                return false;
            }
            i = i + 1;
        }
        if !vec_eq_u32(&self.points.free, &o.points.free) || !vec_eq_u32(&self.segments.free, &o.segments.free) {
            return false;
        }
        if self.fills.slots.len() != o.fills.slots.len() || !vec_eq_u32(&self.fills.free, &o.fills.free) {
            return false;
        }
        let mut i: usize = 0;
        while i < self.fills.slots.len()
            invariant
                i <= self.fills.slots@.len(),
                self.fills.slots@.len() == o.fills.slots@.len(),
                forall|j: int| 0 <= j < i ==> fill_slot_same(#[trigger] self.fills.slots@[j], o.fills.slots@[j]),
            decreases self.fills.slots@.len() - i,
        {
            let a = &self.fills.slots[i];
            let b = &o.fills.slots[i];
            if a.generation != b.generation {
                return false;
            }
            match (&a.value, &b.value) {
                (Some(x), Some(y)) => {
                    if !vec_eq_segment_ids(&x.segments, &y.segments) {
                        return false;
                    }
                },
                (None, None) => {},
                _ => return false,
            }
            i = i + 1;
        }
        if self.paths.slots.len() != o.paths.slots.len() || !vec_eq_u32(&self.paths.free, &o.paths.free) {
            return false;
        }
        let mut i: usize = 0;
        while i < self.paths.slots.len()
            invariant
                i <= self.paths.slots@.len(),
                self.paths.slots@.len() == o.paths.slots@.len(),
                forall|j: int| 0 <= j < i ==> path_slot_same(#[trigger] self.paths.slots@[j], o.paths.slots@[j]),
            decreases self.paths.slots@.len() - i,
        {
            let a = &self.paths.slots[i];
            let b = &o.paths.slots[i];
            if a.generation != b.generation {
                return false;
            }
            match (&a.value, &b.value) {
                (Some(x), Some(y)) => {
                    if !vec_eq_segment_ids(&x.segments, &y.segments) || x.closed != y.closed
                        || !vec_eq_modes(&x.continuity, &y.continuity) || !vec_eq_pairs(&x.handles, &y.handles) {
                        return false;
                    }
                },
                (None, None) => {},
                _ => return false,
            }
            i = i + 1;
        }
        vec_eq_constraints(&self.constraints, &o.constraints)
    }

    /// Content equality of two documents.
    pub fn same_as(&self, o: &Document) -> (r: bool)
        ensures
            r == self.same(o),
    {
        self.frame_same_as(o) && slots_eq_points(&self.points.slots, &o.points.slots)
            && slots_eq_segments(&self.segments.slots, &o.segments.slots) && vec_eq_dims(&self.dimensions, &o.dimensions)
    }

    /// Value equality of two documents: numbers compare as IEEE-754 values.
    pub fn equal_to(&self, o: &Document) -> (r: bool)
        ensures
            r == self.equals(o),
    {
        self.frame_same_as(o) && slots_num_eq_points(&self.points.slots, &o.points.slots)
            && slots_num_eq_segments(&self.segments.slots, &o.segments.slots) && dims_num_eq(&self.dimensions, &o.dimensions)
    }
}

fn slots_num_eq_points(a: &Vec<Slot<PointPos>>, b: &Vec<Slot<PointPos>>) -> (r: bool)
    ensures
        r == (a@.len() == b@.len() && forall|i: int| 0 <= i < a@.len() ==> point_slot_num_eq(#[trigger] a@[i], b@[i])),
{
    if a.len() != b.len() {
        return false;
    }
    let mut i: usize = 0;
    while i < a.len()
        invariant
            i <= a@.len(),
            a@.len() == b@.len(),
            forall|j: int| 0 <= j < i ==> point_slot_num_eq(#[trigger] a@[j], b@[j]),
        decreases a@.len() - i,
    {
        let x = &a[i];
        let y = &b[i];
        if x.generation != y.generation {
            return false;
        }
        match (&x.value, &y.value) {
            (Some(p), Some(q)) => {
                if !bits_num_eq(p.x_bits, q.x_bits) || !bits_num_eq(p.y_bits, q.y_bits) {
                    return false;
                }
            },
            (None, None) => {},
            _ => return false,
        }
        i = i + 1;
    }
    true
}

fn slots_num_eq_segments(a: &Vec<Slot<Segment>>, b: &Vec<Slot<Segment>>) -> (r: bool)
    ensures
        r == (a@.len() == b@.len() && forall|i: int| 0 <= i < a@.len() ==> segment_slot_num_eq(#[trigger] a@[i], b@[i])),
{
    if a.len() != b.len() {
        return false;
    }
    let mut i: usize = 0;
    while i < a.len()
        invariant
            i <= a@.len(),
            a@.len() == b@.len(),
            forall|j: int| 0 <= j < i ==> segment_slot_num_eq(#[trigger] a@[j], b@[j]),
        decreases a@.len() - i,
    {
        let x = &a[i];
        let y = &b[i];
        if x.generation != y.generation {
            return false;
        }
        match (&x.value, &y.value) {
            (Some(p), Some(q)) => {
                if p.start != q.start || p.end != q.end || p.kind != q.kind
                    || !bits_num_eq(p.stroke_width_bits, q.stroke_width_bits) || p.ctrl != q.ctrl
                    || p.center != q.center || p.handle_out != q.handle_out || p.handle_in != q.handle_in {
                    return false;
                }
            },
            (None, None) => {},
            _ => return false,
        }
        i = i + 1;
    }
    true
}

fn dims_num_eq(a: &Vec<Dimension>, b: &Vec<Dimension>) -> (r: bool)
    ensures
        r == (a@.len() == b@.len() && forall|i: int| 0 <= i < a@.len() ==> dim_num_eq(#[trigger] a@[i], b@[i])),
{
    if a.len() != b.len() {
        return false;
    }
    let mut i: usize = 0;
    while i < a.len()
        invariant
            i <= a@.len(),
            a@.len() == b@.len(),
            forall|j: int| 0 <= j < i ==> dim_num_eq(#[trigger] a@[j], b@[j]),
        decreases a@.len() - i,
    {
        let x = a[i];
        let y = b[i];
        if x.target != y.target || !bits_num_eq(x.value_bits, y.value_bits) || !bits_num_eq(x.offset_bits, y.offset_bits)
            || !bits_num_eq(x.slide_bits, y.slide_bits) || !bits_num_eq(x.sweep_bits, y.sweep_bits) {
            return false;
        }
        i = i + 1;
    }
    true
}

} // verus!
