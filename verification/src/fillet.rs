//! Fillets: a rounded corner between two segments, kept as a record of
//! the ids it derived (arc, tangent points, center, control). The fillet
//! geometry itself (tangent points, bisector center, arc) is derived from
//! floating-point positions by the caller. Committing a fillet splices the
//! arc into the fill loops through its corner.

use vstd::prelude::*;
use crate::constraints::{Constraint, ConstraintKind};
use crate::arena::Slot;
use crate::document::{contains_segment, Document, Fill};
use crate::editor::Editor;
use crate::ids::{PointId, SegmentId};

verus! {

/// Which wedge of the corner a fillet rounds: `Inner` is the wedge between
/// the two segments (the default), `Outer` mirrors across the corner.
#[derive(Clone, Copy, Debug, PartialEq, Eq, Structural)]
pub enum FilletSide {
    Inner,
    Outer,
}

pub open spec fn side_name(s: FilletSide) -> Seq<char> {
    match s {
        FilletSide::Inner => "Inner"@,
        FilletSide::Outer => "Outer"@,
    }
}

pub open spec fn other_side(s: FilletSide) -> FilletSide {
    match s {
        FilletSide::Inner => FilletSide::Outer,
        FilletSide::Outer => FilletSide::Inner,
    }
}

impl FilletSide {
    pub fn as_str(self) -> (r: &'static str)
        ensures
            r@ == side_name(self),
    {
        match self {
            FilletSide::Inner => "Inner",
            FilletSide::Outer => "Outer",
        }
    }

    /// The other side.
    pub fn flip(self) -> (r: Self)
        ensures
            r == other_side(self),
            r != self,
    {
        match self {
            FilletSide::Inner => FilletSide::Outer,
            FilletSide::Outer => FilletSide::Inner,
        }
    }
}

/// Flipping twice gives back the side.
pub proof fn law_flip_involution(s: FilletSide)
    ensures
        other_side(other_side(s)) == s,
        other_side(s) != s,
{
}

/// A fillet modifier: the two source segments and their corner, the
/// radius (bit pattern of an f64), the wedge side, and the ids of what it
/// derived.
#[derive(Clone, Copy, Debug)]
pub struct Fillet {
    pub first: SegmentId,
    pub second: SegmentId,
    pub corner: PointId,
    pub radius_bits: u64,
    pub side: FilletSide,
    pub arc: Option<SegmentId>,
    pub first_tangent: Option<PointId>,
    pub second_tangent: Option<PointId>,
    pub center: Option<PointId>,
    pub control: Option<PointId>,
}

/// `c` glues a tangent point of `m` onto its source segment.
pub open spec fn derived_glue(c: Constraint, m: Fillet) -> bool {
    &&& c.kind == ConstraintKind::Coincident
    &&& c.tangent_segments is None
    &&& (Some(c.a) == m.first_tangent && Some(c.b) == m.first_tangent && c.point_on_segment == Some(m.first))
        || (Some(c.a) == m.second_tangent && Some(c.b) == m.second_tangent && c.point_on_segment == Some(m.second))
}

/// `c` is a tangency between `arc` and a source segment of `m`, at one of
/// its tangent points.
pub open spec fn derived_tangent(c: Constraint, m: Fillet, arc: SegmentId) -> bool {
    &&& c.kind == ConstraintKind::Tangent
    &&& Some(c.a) == m.first_tangent || Some(c.a) == m.second_tangent
    &&& c.tangent_segments matches Some((x, y)) && ((x == m.first && y == arc) || (x == arc && y == m.first)
        || (x == m.second && y == arc) || (x == arc && y == m.second))
}

/// `c` was added when the fillet was created (matched on ids only).
pub open spec fn fillet_derived(c: Constraint, m: Fillet) -> bool {
    match m.arc {
        Some(arc) => derived_glue(c, m) || derived_tangent(c, m, arc),
        None => false,
    }
}

pub open spec fn not_derived(m: Fillet) -> spec_fn(Constraint) -> bool {
    |c: Constraint| !fillet_derived(c, m)
}

impl Editor {
    /// Drops exactly the constraints the fillet `m` added when created:
    /// the glues of its tangent points onto the source segments and the
    /// tangencies of its arc with them. A fillet without an arc drops
    /// nothing.
    pub fn drop_derived_constraints(&mut self, m: &Fillet)
        ensures
            final(self).doc.constraints@ == old(self).doc.constraints@.filter(not_derived(*m)),
            final(self).doc.same_geometry(&old(self).doc),
            final(self).doc.layers == old(self).doc.layers,
            final(self).doc.settings == old(self).doc.settings,
            final(self).doc.dimensions == old(self).doc.dimensions,
            Editor::doc_only(*old(self), *final(self)),
    {
        let ghost pred = not_derived(*m);
        let arc = match m.arc {
            Some(a) => a,
            None => {
                proof {
                    lemma_filter_keeps_all(self.doc.constraints@, pred);
                }
                return;
            },
        };
        let mut kept: Vec<Constraint> = Vec::new();
        let mut i: usize = 0;
        while i < self.doc.constraints.len()
            invariant
                i <= self.doc.constraints@.len(),
                pred == not_derived(*m),
                m.arc == Some(arc),
                kept@ == self.doc.constraints@.take(i as int).filter(pred),
            decreases self.doc.constraints@.len() - i,
        {
            proof {
                assert(self.doc.constraints@.take(i as int + 1) == self.doc.constraints@.take(i as int).push(self.doc.constraints@[i as int]));
                self.doc.constraints@.take(i as int).lemma_filter_push(self.doc.constraints@[i as int], pred);
            }
            let c = self.doc.constraints[i];
            let glue = c.kind == ConstraintKind::Coincident && c.tangent_segments.is_none() && ((opt_is(m.first_tangent, c.a)
                && opt_is(m.first_tangent, c.b) && opt_seg_is(c.point_on_segment, m.first)) || (opt_is(m.second_tangent, c.a)
                && opt_is(m.second_tangent, c.b) && opt_seg_is(c.point_on_segment, m.second)));
            let tangent = c.kind == ConstraintKind::Tangent && (opt_is(m.first_tangent, c.a) || opt_is(m.second_tangent, c.a))
                && match c.tangent_segments {
                Some((x, y)) => (x == m.first && y == arc) || (x == arc && y == m.first) || (x == m.second && y == arc) || (x
                    == arc && y == m.second),
                None => false,
            };
            if !(glue || tangent) {
                kept.push(c);
            }
            i = i + 1;
        }
        proof {
            assert(self.doc.constraints@.take(i as int) == self.doc.constraints@);
        }
        self.doc.constraints = kept;
    }
}

/// Filtering by a predicate every item meets keeps the sequence.
proof fn lemma_filter_keeps_all<A>(s: Seq<A>, p: spec_fn(A) -> bool)
    requires
        forall|k: int| 0 <= k < s.len() ==> p(#[trigger] s[k]),
    ensures
        s.filter(p) == s,
    decreases s.len(),
{
    if s.len() == 0 {
        reveal(Seq::filter);
    } else {
        let t = s.drop_last();
        assert(s == t.push(s.last()));
        assert forall|k: int| 0 <= k < t.len() implies p(#[trigger] t[k]) by {
            assert(t[k] == s[k]);
        }
        lemma_filter_keeps_all(t, p);
        t.lemma_filter_push(s.last(), p);
    }
}

/// Whether `o` is `Some(p)`.
fn opt_is(o: Option<PointId>, p: PointId) -> (r: bool)
    ensures
        r == (o == Some(p)),
{
    match o {
        Some(q) => q == p,
        None => false,
    }
}

/// Whether `o` is `Some(s)`.
fn opt_seg_is(o: Option<SegmentId>, s: SegmentId) -> (r: bool)
    ensures
        r == (o == Some(s)),
{
    match o {
        Some(q) => q == s,
        None => false,
    }
}

/// Whether segments `a` and `b` follow one another (either way round) at
/// position `i` of the loop `s`; the last position wraps to the first.
pub open spec fn adjacent_at(s: Seq<SegmentId>, i: int, a: SegmentId, b: SegmentId) -> bool {
    let x = s[i];
    let y = s[(i + 1) % (s.len() as int)];
    (x == a && y == b) || (x == b && y == a)
}

/// `i` is the first position of `s` where `a` and `b` meet.
pub open spec fn first_meeting(s: Seq<SegmentId>, i: int, a: SegmentId, b: SegmentId) -> bool {
    &&& 0 <= i < s.len()
    &&& adjacent_at(s, i, a, b)
    &&& forall|j: int| 0 <= j < i ==> !adjacent_at(s, j, a, b)
}

/// The loop `s` with `arc` inserted right after the first place where `a`
/// and `b` meet; unchanged when they never meet.
pub open spec fn with_arc(s: Seq<SegmentId>, a: SegmentId, b: SegmentId, arc: SegmentId) -> Seq<SegmentId> {
    if exists|i: int| first_meeting(s, i, a, b) {
        s.insert((choose|i: int| first_meeting(s, i, a, b)) + 1, arc)
    } else {
        s
    }
}

/// Whether a loop takes the arc: it holds both segments and not the arc.
pub open spec fn takes_arc(s: Seq<SegmentId>, a: SegmentId, b: SegmentId, arc: SegmentId) -> bool {
    s.contains(a) && s.contains(b) && !s.contains(arc)
}

/// How one fill slot fares when `arc` is spliced between `a` and `b`.
pub open spec fn fill_slot_spliced(x: Slot<Fill>, y: Slot<Fill>, a: SegmentId, b: SegmentId, arc: SegmentId) -> bool {
    if x.value is Some && takes_arc(x.value.unwrap().segments@, a, b, arc) {
        &&& y.generation == x.generation
        &&& y.value is Some
        &&& y.value.unwrap().segments@ == with_arc(x.value.unwrap().segments@, a, b, arc)
    } else {
        y == x
    }
}

/// The first position of `s` where `a` and `b` meet.
fn find_meeting(s: &Vec<SegmentId>, a: SegmentId, b: SegmentId) -> (r: Option<usize>)
    ensures
        r matches Some(i) ==> first_meeting(s@, i as int, a, b),
        r is None ==> forall|i: int| 0 <= i < s@.len() ==> !adjacent_at(s@, i, a, b),
{
    let n = s.len();
    let mut i: usize = 0;
    while i < n
        invariant
            i <= n,
            n == s@.len(),
            forall|j: int| 0 <= j < i ==> !adjacent_at(s@, j, a, b),
        decreases n - i,
    {
        let x = s[i];
        let y = s[(i + 1) % n];
        if (x == a && y == b) || (x == b && y == a) {
            return Some(i);
        }
        i = i + 1;
    }
    None
}

impl Document {
    /// Splices the fillet arc into every fill loop that holds both filleted
    /// segments but not the arc yet, right after the first place where the
    /// two meet, so the loop chains through the rounded corner. A loop in
    /// which they never meet is left as it is.
    pub fn splice_arc_into_loops(&mut self, first: SegmentId, second: SegmentId, arc: SegmentId)
        requires
            old(self).wf(),
        ensures
            final(self).wf(),
            final(self).fills.slots@.len() == old(self).fills.slots@.len(),
            forall|i: int| 0 <= i < old(self).fills.slots@.len()
                ==> fill_slot_spliced(old(self).fills.slots@[i], #[trigger] final(self).fills.slots@[i], first, second, arc),
            final(self).fills.free@ == old(self).fills.free@,
            final(self).points == old(self).points,
            final(self).segments == old(self).segments,
            final(self).paths == old(self).paths,
            final(self).layers == old(self).layers,
            final(self).same_records(old(self)),
    {
        let ghost d0 = *self;
        let n = self.fills.slots.len();
        let mut k: usize = 0;
        while k < n
            invariant
                k <= n,
                n == d0.fills.slots@.len(),
                self.wf(),
                self.fills.slots@.len() == n,
                forall|i: int| 0 <= i < k ==> fill_slot_spliced(d0.fills.slots@[i], #[trigger] self.fills.slots@[i], first, second, arc),
                forall|i: int| k <= i < n ==> #[trigger] self.fills.slots@[i] == d0.fills.slots@[i],
                self.fills.free@ == d0.fills.free@,
                self.points == d0.points,
                self.segments == d0.segments,
                self.paths == d0.paths,
                self.layers == d0.layers,
                self.same_records(&d0),
            decreases n - k,
        {
            let mut new_segs: Option<Vec<SegmentId>> = None;
            match &self.fills.slots[k].value {
                Some(f) => {
                    if contains_segment(&f.segments, first) && contains_segment(&f.segments, second)
                        && !contains_segment(&f.segments, arc) {
                        let mut segs = f.segments.clone();
                        match find_meeting(&f.segments, first, second) {
                            Some(i) => {
                                segs.insert(i + 1, arc);
                                proof {
                                    let w = choose|j: int| first_meeting(f.segments@, j, first, second);
                                    assert(first_meeting(f.segments@, w, first, second));
                                    assert(w == i);
                                }
                            },
                            None => {},
                        }
                        new_segs = Some(segs);
                    }
                },
                None => {},
            }
            match new_segs {
                Some(segs) => {
                    self.fills.set_at(k as u32, Fill { segments: segs });
                },
                None => {},
            }
            k = k + 1;
        }
    }
}

} // verus!
