//! How document elements hang together: glued vertices, selected line
//! pairs, H/V locks, bare stroked lines, and the component a set of points
//! drags along.

use vstd::prelude::*;
use crate::arena::Slot;
use crate::constraints::{Constraint, ConstraintKind, ElementRef};
use crate::document::{Document, Fill, Segment, SegmentKind};
use crate::editor::{fill_scan, Editor};
use crate::ids::{FillId, PointId, SegmentId};

verus! {

// ---- glued vertices ----

/// `c` glues `a` and `b` together, in either order.
pub open spec fn glues(c: Constraint, a: PointId, b: PointId) -> bool {
    &&& c.kind == ConstraintKind::Coincident
    &&& (c.a == a && c.b == b) || (c.a == b && c.b == a)
}

/// `a` and `b` are one vertex: the same id, or glued by a coincident
/// constraint.
pub open spec fn same_vertex(doc: Document, a: PointId, b: PointId) -> bool {
    a == b || exists|i: int| 0 <= i < doc.constraints@.len() && glues(#[trigger] doc.constraints@[i], a, b)
}

/// Whether two angle vertices are the same vertex.
pub fn equivalent_angle_vertex(doc: &Document, a: PointId, b: PointId) -> (r: bool)
    ensures
        r == same_vertex(*doc, a, b),
{
    if a == b {
        return true;
    }
    let mut i: usize = 0;
    while i < doc.constraints.len()
        invariant
            i <= doc.constraints@.len(),
            forall|j: int| 0 <= j < i ==> !glues(#[trigger] doc.constraints@[j], a, b),
        decreases doc.constraints@.len() - i,
    {
        let c = doc.constraints[i];
        if c.kind == ConstraintKind::Coincident && ((c.a == a && c.b == b) || (c.a == b && c.b == a)) {
            assert(glues(doc.constraints@[i as int], a, b));
            return true;
        }
        i = i + 1;
    }
    false
}

// ---- selected line pairs ----

/// The live lines the selection names, each once, in the order first named.
pub open spec fn selected_lines(doc: Document, sel: Seq<ElementRef>) -> Seq<SegmentId>
    decreases sel.len(),
{
    if sel.len() == 0 {
        seq![]
    } else {
        let pre = selected_lines(doc, sel.drop_last());
        match sel.last() {
            ElementRef::Segment(s) => if doc.sg(s) matches Some(g) && g.kind == SegmentKind::Line && !pre.contains(s) {
                pre.push(s)
            } else {
                pre
            },
            _ => pre,
        }
    }
}

proof fn lemma_selected_lines_prefix(doc: Document, sel: Seq<ElementRef>, k: int)
    requires
        0 <= k <= sel.len(),
    ensures
        selected_lines(doc, sel).len() >= selected_lines(doc, sel.take(k)).len(),
        forall|j: int| 0 <= j < selected_lines(doc, sel.take(k)).len()
            ==> selected_lines(doc, sel)[j] == #[trigger] selected_lines(doc, sel.take(k))[j],
    decreases sel.len(),
{
    if k == sel.len() {
        assert(sel.take(k) =~= sel);
    } else {
        lemma_selected_lines_prefix(doc, sel.drop_last(), k);
        assert(sel.drop_last().take(k) =~= sel.take(k));
    }
}

impl Editor {
    /// The first two distinct live lines of the selection, if it names two.
    pub fn line_pair(doc: &Document, selection: &[ElementRef]) -> (r: Option<(SegmentId, SegmentId)>)
        ensures
            r == (if selected_lines(*doc, selection@).len() >= 2 {
                Some((selected_lines(*doc, selection@)[0], selected_lines(*doc, selection@)[1]))
            } else {
                None::<(SegmentId, SegmentId)>
            }),
    {
        let mut lines: Vec<SegmentId> = Vec::new();
        let mut i: usize = 0;
        while i < selection.len()
            invariant
                i <= selection@.len(),
                lines@ == selected_lines(*doc, selection@.take(i as int)),
                lines@.len() < 2,
            decreases selection@.len() - i,
        {
            proof {
                assert(selection@.take(i + 1).drop_last() =~= selection@.take(i as int));
            }
            if let Some(sid) = selection[i].as_segment() {
                if let Some(s) = doc.segment(sid) {
                    if s.kind == SegmentKind::Line && !crate::document::contains_segment(&lines, sid) {
                        lines.push(sid);
                        if lines.len() == 2 {
                            proof {
                                lemma_selected_lines_prefix(*doc, selection@, i + 1);
                            }
                            return Some((lines[0], lines[1]));
                        }
                    }
                }
            }
            i = i + 1;
        }
        proof {
            assert(selection@.take(i as int) =~= selection@);
        }
        None
    }
}

// ---- H/V locks ----

/// `c` spans the two endpoints of `s`, in either order.
pub open spec fn spans(c: Constraint, s: Segment) -> bool {
    (c.a == s.start && c.b == s.end) || (c.a == s.end && c.b == s.start)
}

/// The kind of the first H or V constraint spanning `s`'s endpoints.
pub open spec fn first_lock(cs: Seq<Constraint>, s: Segment) -> Option<ConstraintKind>
    decreases cs.len(),
{
    if cs.len() == 0 {
        None
    } else {
        match first_lock(cs.drop_last(), s) {
            Some(k) => Some(k),
            None => {
                let c = cs.last();
                if spans(c, s) && (c.kind == ConstraintKind::Horizontal || c.kind == ConstraintKind::Vertical) {
                    Some(c.kind)
                } else {
                    None
                }
            },
        }
    }
}

/// Bit pattern of the f64 1.0.
pub const ONE_BITS: u64 = 0x3ff0_0000_0000_0000u64;

/// The unit direction (x, y bit patterns) an H or V lock holds.
pub open spec fn lock_dir(k: ConstraintKind) -> (u64, u64) {
    if k == ConstraintKind::Horizontal { (ONE_BITS, 0) } else { (0, ONE_BITS) }
}

/// The direction a live line's first H or V constraint locks it to.
pub open spec fn lock_of(doc: Document, sid: SegmentId) -> Option<(u64, u64)> {
    match doc.sg(sid) {
        Some(s) => if s.kind == SegmentKind::Line {
            match first_lock(doc.constraints@, s) {
                Some(k) => Some(lock_dir(k)),
                None => None,
            }
        } else {
            None
        },
        None => None,
    }
}

impl Editor {
    /// The direction a live line is locked to by its first H or V
    /// constraint, as bit patterns of (1, 0) or (0, 1); `None` for a free
    /// line, a curve or a stale id.
    pub fn locked_dir(doc: &Document, sid: SegmentId) -> (r: Option<(u64, u64)>)
        ensures
            r == lock_of(*doc, sid),
    {
        let s = match doc.segment(sid) {
            Some(s) => s,
            None => return None,
        };
        if s.kind != SegmentKind::Line {
            return None;
        }
        let mut i: usize = 0;
        while i < doc.constraints.len()
            invariant
                i <= doc.constraints@.len(),
                doc.sg(sid) == Some(s),
                s.kind == SegmentKind::Line,
                first_lock(doc.constraints@.take(i as int), s) is None,
            decreases doc.constraints@.len() - i,
        {
            proof {
                assert(doc.constraints@.take(i + 1).drop_last() =~= doc.constraints@.take(i as int));
            }
            let c = doc.constraints[i];
            let pair = (c.a == s.start && c.b == s.end) || (c.a == s.end && c.b == s.start);
            if pair {
                if c.kind == ConstraintKind::Horizontal {
                    proof {
                        assert(doc.constraints@.take(i + 1).last() == c);
                        assert(first_lock(doc.constraints@.take(i + 1), s) == Some(ConstraintKind::Horizontal));
                        lemma_first_lock_prefix(doc.constraints@, s, i + 1);
                    }
                    return Some((ONE_BITS, 0));
                } else if c.kind == ConstraintKind::Vertical {
                    proof {
                        assert(doc.constraints@.take(i + 1).last() == c);
                        assert(first_lock(doc.constraints@.take(i + 1), s) == Some(ConstraintKind::Vertical));
                        lemma_first_lock_prefix(doc.constraints@, s, i + 1);
                    }
                    return Some((0, ONE_BITS));
                }
            }
            i = i + 1;
        }
        proof {
            assert(doc.constraints@.take(i as int) =~= doc.constraints@);
        }
        None
    }
}

proof fn lemma_first_lock_prefix(cs: Seq<Constraint>, s: Segment, k: int)
    requires
        0 <= k <= cs.len(),
        first_lock(cs.take(k), s) is Some,
    ensures
        first_lock(cs, s) == first_lock(cs.take(k), s),
    decreases cs.len(),
{
    if k == cs.len() {
        assert(cs.take(k) =~= cs);
    } else {
        assert(cs.drop_last().take(k) =~= cs.take(k));
        lemma_first_lock_prefix(cs.drop_last(), s, k);
    }
}

// ---- bare stroked lines ----

/// The bit pattern of an f64 greater than zero: sign bit clear, not +0.0,
/// not a NaN.
pub open spec fn positive_bits(b: u64) -> bool {
    0 < b <= 0x7ff0_0000_0000_0000u64
}

/// Some live fill's loop holds `sid`.
pub open spec fn in_a_fill(doc: Document, sid: SegmentId) -> bool {
    exists|f: FillId| #[trigger] doc.fl(f) matches Some(fl) && fl.segments@.contains(sid)
}

/// `sid` is a live stroked line, in no fill, with `pid` at one end.
pub open spec fn bare_line(doc: Document, sid: SegmentId, pid: PointId) -> bool {
    match doc.sg(sid) {
        Some(s) => {
            &&& s.start == pid || s.end == pid
            &&& s.kind == SegmentKind::Line
            &&& positive_bits(s.stroke_width_bits)
            &&& !in_a_fill(doc, sid)
        },
        None => false,
    }
}

proof fn lemma_fill_scan_none(s: Seq<Slot<Fill>>, sid: SegmentId)
    requires
        fill_scan(s, sid) is None,
    ensures
        forall|i: int| 0 <= i < s.len() ==> !((#[trigger] s[i]).value is Some && s[i].value.unwrap().segments@.contains(sid)),
    decreases s.len(),
{
    if s.len() > 0 {
        lemma_fill_scan_none(s.drop_last(), sid);
        assert forall|i: int| 0 <= i < s.len() implies !((#[trigger] s[i]).value is Some && s[i].value.unwrap().segments@.contains(sid)) by {
            if i < s.len() - 1 {
                assert(s[i] == s.drop_last()[i]);
            }
        }
    }
}

impl Editor {
    /// Whether `pid` ends a standalone stroked line: a live line with a
    /// visible stroke that no fill's loop uses.
    pub fn pid_on_bare_line(&self, pid: PointId) -> (r: bool)
        requires
            self.doc.wf(),
        ensures
            r == exists|sid: SegmentId| #[trigger] bare_line(self.doc, sid, pid),
    {
        let segs = self.doc.all_segments();
        let mut k: usize = 0;
        while k < segs.len()
            invariant
                k <= segs@.len(),
                self.doc.wf(),
                forall|j: int| 0 <= j < segs@.len() ==> self.doc.sg((#[trigger] segs@[j]).0) == Some(segs@[j].1),
                forall|j: int| 0 <= j < k ==> !bare_line(self.doc, (#[trigger] segs@[j]).0, pid),
            decreases segs@.len() - k,
        {
            let (sid, s) = segs[k];
            if (s.start == pid || s.end == pid) && s.kind == SegmentKind::Line && 0 < s.stroke_width_bits
                && s.stroke_width_bits <= 0x7ff0_0000_0000_0000u64 {
                let f = self.fill_containing(sid);
                proof {
                    if f is None {
                        lemma_fill_scan_none(self.doc.fills.slots@, sid);
                        if in_a_fill(self.doc, sid) {
                            let g = choose|g: FillId| #[trigger] self.doc.fl(g) matches Some(fl) && fl.segments@.contains(sid);
                            assert(self.doc.fills.slots@[g.idx as int].value is Some);
                        }
                    } else {
                        assert(in_a_fill(self.doc, sid)) by {
                            let g = f.unwrap();
                            assert(self.doc.fl(g) is Some);
                        }
                    }
                }
                if f.is_none() {
                    assert(bare_line(self.doc, sid, pid));
                    return true;
                }
            }
            k = k + 1;
        }
        proof {
            assert forall|sid: SegmentId| !#[trigger] bare_line(self.doc, sid, pid) by {
                if bare_line(self.doc, sid, pid) {
                    assert(self.doc.sg(sid) is Some);
                    let j = choose|j: int| 0 <= j < segs@.len() && (#[trigger] segs@[j]).0 == sid;
                    assert(!bare_line(self.doc, segs@[j].0, pid));
                }
            }
        }
        false
    }
}

// ---- components ----

/// `p` fills one of `s`'s endpoint, control or center slots.
pub open spec fn in_slots(s: Segment, p: PointId) -> bool {
    s.start == p || s.end == p || s.ctrl == Some(p) || s.center == Some(p)
}

/// The live segment a point-on-segment constraint keeps its point on.
pub open spec fn held_on(doc: Document, c: Constraint) -> Option<Segment> {
    match c.point_on_segment {
        Some(sid) => doc.sg(sid),
        None => None,
    }
}

/// `c` involves `p`: as one of its two points, or as a slot point of the
/// live segment it keeps its point on.
pub open spec fn con_touches(doc: Document, c: Constraint, p: PointId) -> bool {
    c.a == p || c.b == p || (held_on(doc, c) matches Some(g) && in_slots(g, p))
}

/// The points a constraint drags along: its two points and the slot
/// points of the live segment it keeps its point on.
pub open spec fn con_reaches(doc: Document, c: Constraint, q: PointId) -> bool {
    q == c.a || q == c.b || (held_on(doc, c) matches Some(g) && in_slots(g, q))
}

/// Some live segment has both `p` and `q` in its slots.
pub open spec fn seg_linked(doc: Document, p: PointId, q: PointId) -> bool {
    exists|sid: SegmentId| #[trigger] doc.sg(sid) matches Some(s) && in_slots(s, p) && in_slots(s, q)
}

/// Some constraint that involves `p` drags `q` along.
pub open spec fn con_linked(doc: Document, p: PointId, q: PointId) -> bool {
    exists|i: int| 0 <= i < doc.constraints@.len() && con_touches(doc, #[trigger] doc.constraints@[i], p)
        && con_reaches(doc, doc.constraints@[i], q)
}

/// `q` is a live point that moves with `p`: through a segment they share,
/// or through a constraint.
pub open spec fn linked(doc: Document, p: PointId, q: PointId) -> bool {
    &&& doc.pt(q) is Some
    &&& seg_linked(doc, p, q) || con_linked(doc, p, q)
}

/// `out` starts with `seeds`; every later entry is a live point, new, and
/// linked to an entry before it.
pub open spec fn grown(doc: Document, seeds: Seq<PointId>, out: Seq<PointId>) -> bool {
    &&& out.len() >= seeds.len()
    &&& forall|m: int| 0 <= m < seeds.len() ==> #[trigger] out[m] == seeds[m]
    &&& forall|m: int| seeds.len() <= m < out.len() ==> {
        &&& doc.pt(#[trigger] out[m]) is Some
        &&& !out.take(m).contains(out[m])
        &&& exists|j: int| 0 <= j < m && linked(doc, #[trigger] out[j], out[m])
    }
}

/// Every live point linked to `p` is in `out`.
pub open spec fn closed_at(doc: Document, out: Seq<PointId>, p: PointId) -> bool {
    forall|q: PointId| #[trigger] linked(doc, p, q) ==> out.contains(q)
}

proof fn lemma_grown_push(doc: Document, seeds: Seq<PointId>, out: Seq<PointId>, i: int, q: PointId)
    requires
        grown(doc, seeds, out),
        0 <= i < out.len(),
        linked(doc, out[i], q),
        !out.contains(q),
    ensures
        grown(doc, seeds, out.push(q)),
{
    let o2 = out.push(q);
    assert forall|m: int| seeds.len() <= m < o2.len() implies {
        &&& doc.pt(#[trigger] o2[m]) is Some
        &&& !o2.take(m).contains(o2[m])
        &&& exists|j: int| 0 <= j < m && linked(doc, #[trigger] o2[j], o2[m])
    } by {
        if m < out.len() {
            assert(o2[m] == out[m]);
            assert(o2.take(m) =~= out.take(m));
            let j = choose|j: int| 0 <= j < m && linked(doc, #[trigger] out[j], out[m]);
            assert(o2[j] == out[j]);
        } else {
            assert(o2.take(m) =~= out);
            assert(o2[i] == out[i]);
        }
    }
}

/// A grown list holds each live point at most once past the seeds, so it
/// is no longer than the seeds plus the point slots.
proof fn lemma_grown_bound(doc: Document, seeds: Seq<PointId>, out: Seq<PointId>)
    requires
        grown(doc, seeds, out),
    ensures
        out.len() <= seeds.len() + doc.points.slots@.len(),
{
    let n = seeds.len() as int;
    let added = out.skip(n);
    let idxs = added.map_values(|p: PointId| p.idx as int);
    assert forall|a: int, b: int| 0 <= a < idxs.len() && 0 <= b < idxs.len() && a != b implies idxs[a] != idxs[b] by {
        let (x, y) = (added[a], added[b]);
        assert(x == out[n + a] && y == out[n + b]);
        assert(doc.pt(out[n + a]) is Some && doc.pt(out[n + b]) is Some);
        if x.idx == y.idx {
            if a < b {
                assert(out.take(n + b)[n + a] == x);
                assert(out.take(n + b).contains(out[n + b]));
            } else {
                assert(out.take(n + a)[n + b] == y);
                assert(out.take(n + a).contains(out[n + a]));
            }
        }
    }
    assert(idxs.no_duplicates());
    idxs.unique_seq_to_set();
    let range = vstd::set_lib::set_int_range(0, doc.points.slots@.len() as int);
    vstd::set_lib::lemma_int_range(0, doc.points.slots@.len() as int);
    assert forall|v: int| idxs.to_set().contains(v) implies range.contains(v) by {
        let a = choose|a: int| 0 <= a < idxs.len() && idxs[a] == v;
        assert(doc.pt(out[n + a]) is Some);
    }
    vstd::set_lib::lemma_len_subset(idxs.to_set(), range);
}

/// Pushes `q` when it is a live point not yet listed.
fn push_linked(doc: &Document, out: &mut Vec<PointId>, q: PointId, Ghost(seeds): Ghost<Seq<PointId>>, Ghost(i): Ghost<int>)
    requires
        grown(*doc, seeds, old(out)@),
        0 <= i < old(out)@.len(),
        doc.pt(q) is Some ==> linked(*doc, old(out)@[i], q),
    ensures
        grown(*doc, seeds, final(out)@),
        final(out)@ == (if doc.pt(q) is Some && !old(out)@.contains(q) { old(out)@.push(q) } else { old(out)@ }),
        doc.pt(q) is Some ==> final(out)@.contains(q),
        forall|x: PointId| old(out)@.contains(x) ==> #[trigger] final(out)@.contains(x),
{
    if doc.point(q).is_some() && !crate::document::contains_point(out, q) {
        proof {
            lemma_grown_push(*doc, seeds, out@, i, q);
        }
        out.push(q);
        proof {
            assert(out@[out@.len() - 1] == q);
            assert forall|x: PointId| old(out)@.contains(x) implies #[trigger] out@.contains(x) by {
                let k = choose|k: int| 0 <= k < old(out)@.len() && old(out)@[k] == x;
                assert(out@[k] == x);
            }
        }
    }
}

/// Lists the live points the `k`-th constraint drags along when it
/// involves `pid`.
fn absorb_constraint(
    doc: &Document,
    out: &mut Vec<PointId>,
    k: usize,
    pid: PointId,
    Ghost(seeds): Ghost<Seq<PointId>>,
    Ghost(i): Ghost<int>,
)
    requires
        grown(*doc, seeds, old(out)@),
        0 <= i < old(out)@.len(),
        old(out)@[i] == pid,
        k < doc.constraints@.len(),
    ensures
        grown(*doc, seeds, final(out)@),
        final(out)@.len() >= old(out)@.len(),
        forall|m: int| 0 <= m < old(out)@.len() ==> #[trigger] final(out)@[m] == old(out)@[m],
        forall|x: PointId| old(out)@.contains(x) ==> #[trigger] final(out)@.contains(x),
        forall|q: PointId|
            con_touches(*doc, doc.constraints@[k as int], pid) && #[trigger] con_reaches(*doc, doc.constraints@[k as int], q)
                && doc.pt(q) is Some ==> final(out)@.contains(q),
{
    let c = doc.constraints[k];
    let mut lk = c.a == pid || c.b == pid;
    if let Some(sgid) = c.point_on_segment {
        if let Some(seg) = doc.segment(sgid) {
            lk = lk || seg.start == pid || seg.end == pid || seg.ctrl == Some(pid) || seg.center == Some(pid);
            if lk {
                proof {
                    assert forall|q: PointId| con_reaches(*doc, c, q) && doc.pt(q) is Some implies linked(*doc, pid, q) by {
                        assert(con_touches(*doc, doc.constraints@[k as int], pid) && con_reaches(*doc, doc.constraints@[k as int], q));
                    }
                }
                push_linked(doc, out, seg.start, Ghost(seeds), Ghost(i));
                push_linked(doc, out, seg.end, Ghost(seeds), Ghost(i));
                if let Some(x) = seg.ctrl {
                    push_linked(doc, out, x, Ghost(seeds), Ghost(i));
                }
                if let Some(x) = seg.center {
                    push_linked(doc, out, x, Ghost(seeds), Ghost(i));
                }
            }
        }
    }
    proof {
        assert(lk == con_touches(*doc, c, pid));
    }
    if lk {
        proof {
            assert forall|q: PointId| con_reaches(*doc, c, q) && doc.pt(q) is Some implies linked(*doc, pid, q) by {
                assert(con_touches(*doc, doc.constraints@[k as int], pid) && con_reaches(*doc, doc.constraints@[k as int], q));
            }
        }
        push_linked(doc, out, c.a, Ghost(seeds), Ghost(i));
        push_linked(doc, out, c.b, Ghost(seeds), Ghost(i));
    }
}

/// Every live point that moves with `seeds`: the seeds first, then each
/// live point reached through shared segment slots (endpoints, arc control
/// and center) or through constraints (their two points, and the slot
/// points of the segment a point-on-segment constraint holds), closed
/// transitively, each listed once.
pub fn component_points(doc: &Document, seeds: Vec<PointId>) -> (r: Vec<PointId>)
    requires
        doc.wf(),
    ensures
        grown(*doc, seeds@, r@),
        forall|k: int| 0 <= k < r@.len() ==> closed_at(*doc, r@, #[trigger] r@[k]),
{
    let ghost s0 = seeds@;
    let segs = doc.all_segments();
    let mut out = seeds;
    let mut i: usize = 0;
    while i < out.len()
        invariant
            doc.wf(),
            forall|j: int| 0 <= j < segs@.len() ==> doc.sg((#[trigger] segs@[j]).0) == Some(segs@[j].1),
            forall|id: SegmentId| #[trigger] doc.sg(id) is Some ==> exists|j: int| 0 <= j < segs@.len() && (#[trigger] segs@[j]).0 == id,
            grown(*doc, s0, out@),
            i <= out@.len(),
            forall|k: int, q: PointId| 0 <= k < i && #[trigger] linked(*doc, out@[k], q) ==> out@.contains(q),
        decreases s0.len() + doc.points.slots@.len() - i,
    {
        let pid = out[i];
        let ghost start = out@;
        let mut j: usize = 0;
        while j < segs.len()
            invariant
                doc.wf(),
                forall|j: int| 0 <= j < segs@.len() ==> doc.sg((#[trigger] segs@[j]).0) == Some(segs@[j].1),
                grown(*doc, s0, out@),
                i < start.len(),
                start[i as int] == pid,
                out@.len() >= start.len(),
                forall|m: int| 0 <= m < start.len() ==> #[trigger] out@[m] == start[m],
                forall|k: int, q: PointId| 0 <= k < i && #[trigger] linked(*doc, start[k], q) ==> out@.contains(q),
                forall|jj: int, q: PointId|
                    0 <= jj < j && in_slots(segs@[jj].1, pid) && #[trigger] in_slots(segs@[jj].1, q) && doc.pt(q) is Some
                        ==> out@.contains(q),
            decreases segs@.len() - j,
        {
            let (sid, s) = segs[j];
            if s.start == pid || s.end == pid || s.ctrl == Some(pid) || s.center == Some(pid) {
                proof {
                    assert(doc.sg(sid) == Some(s));
                    assert(out@[i as int] == pid);
                    assert forall|q: PointId| in_slots(s, q) && doc.pt(q) is Some implies linked(*doc, pid, q) by {
                        assert(doc.sg(sid) matches Some(g) && in_slots(g, pid) && in_slots(g, q));
                    }
                }
                push_linked(doc, &mut out, s.start, Ghost(s0), Ghost(i as int));
                push_linked(doc, &mut out, s.end, Ghost(s0), Ghost(i as int));
                if let Some(c) = s.ctrl {
                    push_linked(doc, &mut out, c, Ghost(s0), Ghost(i as int));
                }
                if let Some(c) = s.center {
                    push_linked(doc, &mut out, c, Ghost(s0), Ghost(i as int));
                }
            }
            j = j + 1;
        }
        let mut k: usize = 0;
        while k < doc.constraints.len()
            invariant
                doc.wf(),
                grown(*doc, s0, out@),
                i < start.len(),
                start[i as int] == pid,
                out@.len() >= start.len(),
                forall|m: int| 0 <= m < start.len() ==> #[trigger] out@[m] == start[m],
                forall|k: int, q: PointId| 0 <= k < i && #[trigger] linked(*doc, start[k], q) ==> out@.contains(q),
                forall|jj: int, q: PointId|
                    0 <= jj < segs@.len() && in_slots(segs@[jj].1, pid) && #[trigger] in_slots(segs@[jj].1, q) && doc.pt(q) is Some
                        ==> out@.contains(q),
                k <= doc.constraints@.len(),
                forall|kk: int, q: PointId|
                    0 <= kk < k && con_touches(*doc, doc.constraints@[kk], pid) && #[trigger] con_reaches(*doc, doc.constraints@[kk], q)
                        && doc.pt(q) is Some ==> out@.contains(q),
            decreases doc.constraints@.len() - k,
        {
            proof {
                assert(out@[i as int] == pid);
            }
            absorb_constraint(doc, &mut out, k, pid, Ghost(s0), Ghost(i as int));
            k = k + 1;
        }
        proof {
            assert forall|q: PointId| #[trigger] linked(*doc, pid, q) implies out@.contains(q) by {
                if seg_linked(*doc, pid, q) {
                    let sid = choose|sid: SegmentId| #[trigger] doc.sg(sid) matches Some(s) && in_slots(s, pid) && in_slots(s, q);
                    let jj = choose|jj: int| 0 <= jj < segs@.len() && (#[trigger] segs@[jj]).0 == sid;
                    assert(in_slots(segs@[jj].1, q));
                } else {
                    let kk = choose|kk: int| 0 <= kk < doc.constraints@.len() && con_touches(*doc, #[trigger] doc.constraints@[kk], pid)
                        && con_reaches(*doc, doc.constraints@[kk], q);
                    assert(con_reaches(*doc, doc.constraints@[kk], q));
                }
            }
            assert forall|k: int, q: PointId| 0 <= k < i + 1 && #[trigger] linked(*doc, out@[k], q) implies out@.contains(q) by {
                if k < i {
                    assert(out@[k] == start[k]);
                    assert(linked(*doc, start[k], q));
                } else {
                    assert(out@[k] == pid);
                }
            }
            lemma_grown_bound(*doc, s0, out@);
        }
        i = i + 1;
    }
    out
}

} // verus!
