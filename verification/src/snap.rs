//! Which points a drag must never snap onto: its own geometry. The points
//! reachable from the dragged points along segment endpoints, then every
//! arc unit (start, end and control point) one of whose points is listed.

use vstd::prelude::*;
use crate::document::{contains_point, Document, Segment, SegmentKind};
use crate::ids::{PointId, SegmentId};

verus! {

// ---- counting distinct points ----

/// A list without repeats whose items all occur in `d` is no longer than
/// `d`.
proof fn lemma_distinct_within(a: Seq<PointId>, d: Seq<PointId>)
    requires
        a.no_duplicates(),
        forall|k: int| 0 <= k < a.len() ==> d.contains(#[trigger] a[k]),
    ensures
        a.len() <= d.len(),
{
    a.unique_seq_to_set();
    d.lemma_cardinality_of_set();
    assert forall|x: PointId| a.to_set().contains(x) implies d.to_set().contains(x) by {
        let k = choose|k: int| 0 <= k < a.len() && a[k] == x;
        assert(d.contains(a[k]));
    }
    vstd::set_lib::lemma_len_subset(a.to_set(), d.to_set());
}

/// Past its first `n` entries, `out` repeats nothing.
pub open spec fn new_past(out: Seq<PointId>, n: int) -> bool {
    forall|m: int| n <= m < out.len() ==> !out.take(m).contains(#[trigger] out[m])
}

proof fn lemma_new_past_distinct(out: Seq<PointId>, n: int)
    requires
        0 <= n <= out.len(),
        new_past(out, n),
    ensures
        out.skip(n).no_duplicates(),
{
    let a = out.skip(n);
    assert forall|i: int, j: int| 0 <= i < a.len() && 0 <= j < a.len() && i != j implies a[i] != a[j] by {
        if i < j {
            assert(out.take(n + j)[n + i] == a[i]);
            assert(out[n + j] == a[j]);
        } else {
            assert(out.take(n + i)[n + j] == a[j]);
            assert(out[n + i] == a[i]);
        }
    }
}

// ---- segment endpoints ----

/// Live segment `sid` runs between `p` and `q`.
pub open spec fn ends_join(doc: Document, sid: SegmentId, p: PointId, q: PointId) -> bool {
    match doc.sg(sid) {
        Some(s) => (s.start == p && s.end == q) || (s.end == p && s.start == q),
        None => false,
    }
}

/// `q` is a live point at the other end of a live segment from `p`.
pub open spec fn end_linked(doc: Document, p: PointId, q: PointId) -> bool {
    doc.pt(q) is Some && exists|sid: SegmentId| #[trigger] ends_join(doc, sid, p, q)
}

/// `out` starts with `seeds`; each later entry is new, live, and at the
/// other end of a segment from an earlier entry.
pub open spec fn end_grown(doc: Document, seeds: Seq<PointId>, out: Seq<PointId>) -> bool {
    &&& out.len() >= seeds.len()
    &&& out.take(seeds.len() as int) == seeds
    &&& new_past(out, seeds.len() as int)
    &&& forall|m: int| seeds.len() <= m < out.len() ==> doc.pt(#[trigger] out[m]) is Some
        && exists|j: int| 0 <= j < m && end_linked(doc, #[trigger] out[j], out[m])
}

/// Endpoints of the listed segments.
pub open spec fn endpoints(segs: Seq<(SegmentId, Segment)>) -> Seq<PointId>
    decreases segs.len(),
{
    if segs.len() == 0 { seq![] } else { endpoints(segs.drop_last()) + seq![segs.last().1.start, segs.last().1.end] }
}

proof fn lemma_endpoints(segs: Seq<(SegmentId, Segment)>)
    ensures
        endpoints(segs).len() == 2 * segs.len(),
        forall|k: int| 0 <= k < segs.len() ==> endpoints(segs).contains(#[trigger] segs[k].1.start)
            && endpoints(segs).contains(segs[k].1.end),
    decreases segs.len(),
{
    if segs.len() > 0 {
        lemma_endpoints(segs.drop_last());
        let e = endpoints(segs);
        let n = segs.len() - 1;
        assert forall|k: int| 0 <= k < segs.len() implies e.contains(#[trigger] segs[k].1.start) && e.contains(segs[k].1.end) by {
            if k < n {
                assert(segs[k] == segs.drop_last()[k]);
                let p = endpoints(segs.drop_last());
                let a = choose|a: int| 0 <= a < p.len() && p[a] == segs[k].1.start;
                let b = choose|b: int| 0 <= b < p.len() && p[b] == segs[k].1.end;
                assert(e[a] == p[a]);
                assert(e[b] == p[b]);
            } else {
                assert(e[2 * n] == segs[k].1.start);
                assert(e[2 * n + 1] == segs[k].1.end);
            }
        }
    }
}

/// Pushes `q` when it is a live point not yet listed.
fn push_end(doc: &Document, out: &mut Vec<PointId>, q: PointId, Ghost(seeds): Ghost<Seq<PointId>>, Ghost(i): Ghost<int>)
    requires
        end_grown(*doc, seeds, old(out)@),
        0 <= i < old(out)@.len(),
        doc.pt(q) is Some ==> end_linked(*doc, old(out)@[i], q),
    ensures
        end_grown(*doc, seeds, final(out)@),
        final(out)@ == (if doc.pt(q) is Some && !old(out)@.contains(q) { old(out)@.push(q) } else { old(out)@ }),
        doc.pt(q) is Some ==> final(out)@.contains(q),
        forall|x: PointId| old(out)@.contains(x) ==> #[trigger] final(out)@.contains(x),
{
    if doc.point(q).is_some() && !contains_point(out, q) {
        let ghost o = out@;
        out.push(q);
        proof {
            let n = seeds.len() as int;
            assert(out@.take(n) =~= o.take(n));
            assert(out@[o.len() as int] == q);
            assert(out@.take(o.len() as int) =~= o);
            assert forall|m: int| n <= m < out@.len() implies !out@.take(m).contains(#[trigger] out@[m]) by {
                if m < o.len() {
                    assert(out@.take(m) =~= o.take(m));
                }
            }
            assert forall|m: int| n <= m < out@.len() implies doc.pt(#[trigger] out@[m]) is Some
                && exists|j: int| 0 <= j < m && end_linked(*doc, #[trigger] out@[j], out@[m]) by {
                if m < o.len() {
                    let j = choose|j: int| 0 <= j < m && end_linked(*doc, #[trigger] o[j], o[m]);
                    assert(out@[j] == o[j]);
                } else {
                    assert(out@[i] == o[i]);
                }
            }
            assert forall|x: PointId| o.contains(x) implies #[trigger] out@.contains(x) by {
                let k = choose|k: int| 0 <= k < o.len() && o[k] == x;
                assert(out@[k] == x);
            }
        }
    }
}

/// The seeds, then every live point reachable from them along segment
/// endpoints, each once.
fn endpoint_closure(doc: &Document, seeds: Vec<PointId>) -> (r: Vec<PointId>)
    requires
        doc.wf(),
    ensures
        end_grown(*doc, seeds@, r@),
        forall|k: int, q: PointId| 0 <= k < r@.len() && #[trigger] end_linked(*doc, r@[k], q) ==> r@.contains(q),
{
    let ghost s0 = seeds@;
    let segs = doc.all_segments();
    let mut out = seeds;
    proof {
        assert(out@.take(s0.len() as int) =~= s0);
        lemma_endpoints(segs@);
    }
    let mut i: usize = 0;
    while i < out.len()
        invariant
            doc.wf(),
            forall|j: int| 0 <= j < segs@.len() ==> doc.sg((#[trigger] segs@[j]).0) == Some(segs@[j].1),
            forall|id: SegmentId| #[trigger] doc.sg(id) is Some ==> exists|j: int| 0 <= j < segs@.len() && (#[trigger] segs@[j]).0 == id,
            endpoints(segs@).len() == 2 * segs@.len(),
            forall|k: int| 0 <= k < segs@.len() ==> endpoints(segs@).contains(#[trigger] segs@[k].1.start)
                && endpoints(segs@).contains(segs@[k].1.end),
            end_grown(*doc, s0, out@),
            i <= out@.len(),
            forall|k: int, q: PointId| 0 <= k < i && #[trigger] end_linked(*doc, out@[k], q) ==> out@.contains(q),
            out@.len() <= s0.len() + 2 * segs@.len(),
        decreases s0.len() + 2 * segs@.len() - i,
    {
        let pid = out[i];
        let ghost start = out@;
        let mut j: usize = 0;
        while j < segs.len()
            invariant
                doc.wf(),
                forall|j: int| 0 <= j < segs@.len() ==> doc.sg((#[trigger] segs@[j]).0) == Some(segs@[j].1),
                end_grown(*doc, s0, out@),
                i < start.len(),
                start[i as int] == pid,
                out@.len() >= start.len(),
                forall|m: int| 0 <= m < start.len() ==> #[trigger] out@[m] == start[m],
                forall|k: int, q: PointId| 0 <= k < i && #[trigger] end_linked(*doc, start[k], q) ==> out@.contains(q),
                forall|jj: int, q: PointId| 0 <= jj < j && #[trigger] ends_join(*doc, segs@[jj].0, pid, q) && doc.pt(q) is Some
                    ==> out@.contains(q),
            decreases segs@.len() - j,
        {
            let (sid, s) = segs[j];
            proof {
                assert(doc.sg(sid) == Some(s));
                assert(out@[i as int] == pid);
            }
            if s.start == pid {
                proof {
                    assert(ends_join(*doc, sid, pid, s.end));
                }
                push_end(doc, &mut out, s.end, Ghost(s0), Ghost(i as int));
            } else if s.end == pid {
                proof {
                    assert(ends_join(*doc, sid, pid, s.start));
                }
                push_end(doc, &mut out, s.start, Ghost(s0), Ghost(i as int));
            }
            j = j + 1;
        }
        proof {
            assert forall|q: PointId| #[trigger] end_linked(*doc, pid, q) implies out@.contains(q) by {
                let sid = choose|sid: SegmentId| #[trigger] ends_join(*doc, sid, pid, q);
                assert(doc.sg(sid) is Some);
                let jj = choose|jj: int| 0 <= jj < segs@.len() && (#[trigger] segs@[jj]).0 == sid;
                assert(ends_join(*doc, segs@[jj].0, pid, q));
            }
            assert forall|k: int, q: PointId| 0 <= k < i + 1 && #[trigger] end_linked(*doc, out@[k], q) implies out@.contains(q) by {
                if k < i {
                    assert(out@[k] == start[k]);
                    assert(end_linked(*doc, start[k], q));
                } else {
                    assert(out@[k] == pid);
                }
            }
            let n = s0.len() as int;
            lemma_new_past_distinct(out@, n);
            let added = out@.skip(n);
            assert forall|k: int| 0 <= k < added.len() implies endpoints(segs@).contains(#[trigger] added[k]) by {
                assert(added[k] == out@[n + k]);
                let j = choose|j: int| 0 <= j < n + k && end_linked(*doc, #[trigger] out@[j], out@[n + k]);
                let sid = choose|sid: SegmentId| #[trigger] ends_join(*doc, sid, out@[j], out@[n + k]);
                assert(doc.sg(sid) is Some);
                let jj = choose|jj: int| 0 <= jj < segs@.len() && (#[trigger] segs@[jj]).0 == sid;
                assert(endpoints(segs@).contains(segs@[jj].1.start) && endpoints(segs@).contains(segs@[jj].1.end));
            }
            lemma_distinct_within(added, endpoints(segs@));
        }
        i = i + 1;
    }
    out
}

// ---- arc units ----

/// The start, end and control point of the live arc `sid`.
pub open spec fn arc_unit(doc: Document, sid: SegmentId) -> Option<(PointId, PointId, PointId)> {
    match doc.sg(sid) {
        Some(s) => unit_of(s),
        None => None,
    }
}

/// The start, end and control point of an arc with a control point.
pub open spec fn unit_of(s: Segment) -> Option<(PointId, PointId, PointId)> {
    if s.kind == SegmentKind::Arc {
        match s.ctrl {
            Some(c) => Some((s.start, s.end, c)),
            None => None,
        }
    } else {
        None
    }
}

pub open spec fn unit_has(t: (PointId, PointId, PointId), p: PointId) -> bool {
    t.0 == p || t.1 == p || t.2 == p
}

/// `p` is a point of the unit `u`, if there is one.
pub open spec fn in_unit(u: Option<(PointId, PointId, PointId)>, p: PointId) -> bool {
    match u {
        Some(t) => unit_has(t, p),
        None => false,
    }
}

/// Some point of `t` is listed.
pub open spec fn unit_touched(out: Seq<PointId>, t: (PointId, PointId, PointId)) -> bool {
    out.contains(t.0) || out.contains(t.1) || out.contains(t.2)
}

/// Every point of `t` is listed.
pub open spec fn unit_whole(out: Seq<PointId>, t: (PointId, PointId, PointId)) -> bool {
    out.contains(t.0) && out.contains(t.1) && out.contains(t.2)
}

/// `out` lists all of `t` or none of it.
pub open spec fn balanced(out: Seq<PointId>, u: Option<(PointId, PointId, PointId)>) -> bool {
    match u {
        Some(t) => unit_touched(out, t) ==> unit_whole(out, t),
        None => true,
    }
}

/// Every live arc unit is listed whole or not at all.
pub open spec fn arcs_closed(doc: Document, out: Seq<PointId>) -> bool {
    forall|sid: SegmentId| #[trigger] balanced(out, arc_unit(doc, sid))
}

/// Entry `m` of `out` belongs to the unit of arc `sid`, some point of which
/// is listed before it.
pub open spec fn pulled_by(doc: Document, sid: SegmentId, out: Seq<PointId>, m: int) -> bool {
    match arc_unit(doc, sid) {
        Some(t) => unit_has(t, out[m]) && unit_touched(out.take(m), t),
        None => false,
    }
}

/// Entry `m` of `out` is pulled in by some arc unit.
pub open spec fn pulled(doc: Document, out: Seq<PointId>, m: int) -> bool {
    exists|sid: SegmentId| #[trigger] pulled_by(doc, sid, out, m)
}

/// `out` starts with `base`; each later entry is new and completes an arc
/// unit already touched before it.
pub open spec fn arc_grown(doc: Document, base: Seq<PointId>, out: Seq<PointId>) -> bool {
    &&& out.len() >= base.len()
    &&& out.take(base.len() as int) == base
    &&& new_past(out, base.len() as int)
    &&& forall|m: int| base.len() <= m < out.len() ==> #[trigger] pulled(doc, out, m)
}

/// The unit points of the listed segments that are arcs.
pub open spec fn unit_points(segs: Seq<(SegmentId, Segment)>) -> Seq<PointId>
    decreases segs.len(),
{
    if segs.len() == 0 {
        seq![]
    } else {
        unit_points(segs.drop_last()) + match unit_of(segs.last().1) {
            Some(t) => seq![t.0, t.1, t.2],
            None => seq![],
        }
    }
}

proof fn lemma_unit_points(segs: Seq<(SegmentId, Segment)>)
    ensures
        unit_points(segs).len() <= 3 * segs.len(),
        forall|k: int, p: PointId| 0 <= k < segs.len() && #[trigger] in_unit(unit_of(segs[k].1), p)
            ==> unit_points(segs).contains(p),
    decreases segs.len(),
{
    if segs.len() > 0 {
        lemma_unit_points(segs.drop_last());
        let u = unit_points(segs);
        let pre = unit_points(segs.drop_last());
        let n = segs.len() - 1;
        assert forall|k: int, p: PointId| 0 <= k < segs.len() && #[trigger] in_unit(unit_of(segs[k].1), p)
            implies u.contains(p) by {
            if k < n {
                assert(segs[k] == segs.drop_last()[k]);
                assert(unit_of(segs.drop_last()[k].1) == unit_of(segs[k].1));
                let a = choose|a: int| 0 <= a < pre.len() && pre[a] == p;
                assert(u[a] == pre[a]);
            } else {
                let t = unit_of(segs[k].1).unwrap();
                let l = pre.len() as int;
                assert(u[l] == t.0 && u[l + 1] == t.1 && u[l + 2] == t.2);
            }
        }
    }
}

/// Pushes `d`, a point of the unit of arc `sid`, unless already listed.
fn push_unit_point(doc: &Document, out: &mut Vec<PointId>, d: PointId, Ghost(base): Ghost<Seq<PointId>>, Ghost(sid): Ghost<SegmentId>)
    requires
        arc_grown(*doc, base, old(out)@),
        arc_unit(*doc, sid) matches Some(t) && unit_has(t, d) && unit_touched(old(out)@, t),
    ensures
        arc_grown(*doc, base, final(out)@),
        final(out)@ == (if old(out)@.contains(d) { old(out)@ } else { old(out)@.push(d) }),
        final(out)@.contains(d),
        forall|x: PointId| old(out)@.contains(x) ==> #[trigger] final(out)@.contains(x),
{
    if !contains_point(out, d) {
        let ghost o = out@;
        out.push(d);
        proof {
            let n = base.len() as int;
            assert(out@.take(n) =~= o.take(n));
            assert(out@[o.len() as int] == d);
            assert(out@.take(o.len() as int) =~= o);
            assert forall|m: int| n <= m < out@.len() implies !out@.take(m).contains(#[trigger] out@[m]) by {
                if m < o.len() {
                    assert(out@.take(m) =~= o.take(m));
                }
            }
            assert forall|m: int| n <= m < out@.len() implies #[trigger] pulled(*doc, out@, m) by {
                if m < o.len() {
                    assert(pulled(*doc, o, m));
                    let x = choose|x: SegmentId| #[trigger] pulled_by(*doc, x, o, m);
                    assert(out@.take(m) =~= o.take(m));
                    assert(out@[m] == o[m]);
                    assert(pulled_by(*doc, x, out@, m));
                } else {
                    assert(out@.take(m) =~= o);
                    assert(pulled_by(*doc, sid, out@, m));
                }
            }
            assert forall|x: PointId| o.contains(x) implies #[trigger] out@.contains(x) by {
                let k = choose|k: int| 0 <= k < o.len() && o[k] == x;
                assert(out@[k] == x);
            }
            assert(out@.len() >= n);
            assert(out@.take(n) == base);
            assert(new_past(out@, n));
            assert(arc_grown(*doc, base, out@));
        }
    } else {
        proof {
            assert(out@ == old(out)@);
        }
    }
}

/// Lists the whole unit of arc `sid` (stored as `s`) when part of it is
/// listed; gives whether anything was added.
fn complete_unit(doc: &Document, out: &mut Vec<PointId>, sid: SegmentId, s: Segment, Ghost(base): Ghost<Seq<PointId>>) -> (changed: bool)
    requires
        arc_grown(*doc, base, old(out)@),
        doc.sg(sid) == Some(s),
    ensures
        arc_grown(*doc, base, final(out)@),
        final(out)@.len() >= old(out)@.len(),
        forall|m: int| 0 <= m < old(out)@.len() ==> #[trigger] final(out)@[m] == old(out)@[m],
        forall|x: PointId| old(out)@.contains(x) ==> #[trigger] final(out)@.contains(x),
        changed == (final(out)@.len() > old(out)@.len()),
        !changed ==> final(out)@ == old(out)@,
        !changed ==> balanced(old(out)@, unit_of(s)),
        balanced(final(out)@, unit_of(s)),
{
    if s.kind != SegmentKind::Arc {
        return false;
    }
    let c = match s.ctrl {
        Some(c) => c,
        None => return false,
    };
    let any_in = contains_point(out, s.start) || contains_point(out, s.end) || contains_point(out, c);
    let any_out = !contains_point(out, s.start) || !contains_point(out, s.end) || !contains_point(out, c);
    if any_in && any_out {
        let ghost o = out@;
        push_unit_point(doc, out, s.start, Ghost(base), Ghost(sid));
        push_unit_point(doc, out, s.end, Ghost(base), Ghost(sid));
        push_unit_point(doc, out, c, Ghost(base), Ghost(sid));
        proof {
            assert(out@.len() > o.len());
        }
        true
    } else {
        false
    }
}

/// The list, then every point of each live arc unit it touches, repeated
/// until every unit is listed whole or not at all.
fn arc_closure(doc: &Document, base: Vec<PointId>) -> (r: Vec<PointId>)
    requires
        doc.wf(),
    ensures
        arc_grown(*doc, base@, r@),
        arcs_closed(*doc, r@),
{
    let ghost b0 = base@;
    let segs = doc.all_segments();
    let mut out = base;
    proof {
        assert(out@.take(b0.len() as int) =~= b0);
        lemma_unit_points(segs@);
    }
    let mut changed = true;
    while changed
        invariant
            doc.wf(),
            forall|j: int| 0 <= j < segs@.len() ==> doc.sg((#[trigger] segs@[j]).0) == Some(segs@[j].1),
            forall|id: SegmentId| #[trigger] doc.sg(id) is Some ==> exists|j: int| 0 <= j < segs@.len() && (#[trigger] segs@[j]).0 == id,
            unit_points(segs@).len() <= 3 * segs@.len(),
            forall|k: int, p: PointId| 0 <= k < segs@.len() && #[trigger] in_unit(unit_of(segs@[k].1), p)
                ==> unit_points(segs@).contains(p),
            arc_grown(*doc, b0, out@),
            out@.len() <= b0.len() + 3 * segs@.len(),
            !changed ==> arcs_closed(*doc, out@),
        decreases 2 * (b0.len() + 3 * segs@.len() - out@.len()) + (if changed { 1int } else { 0int }),
    {
        changed = false;
        let ghost o0 = out@;
        let mut j: usize = 0;
        while j < segs.len()
            invariant
                forall|j: int| 0 <= j < segs@.len() ==> doc.sg((#[trigger] segs@[j]).0) == Some(segs@[j].1),
                arc_grown(*doc, b0, out@),
                out@.len() >= o0.len(),
                changed == (out@.len() > o0.len()),
                !changed ==> out@ == o0,
                !changed ==> forall|jj: int| 0 <= jj < j ==> #[trigger] balanced(o0, unit_of(segs@[jj].1)),
            decreases segs@.len() - j,
        {
            let (sid, s) = segs[j];
            proof {
                assert(doc.sg(sid) == Some(s));
            }
            let c = complete_unit(doc, &mut out, sid, s, Ghost(b0));
            changed = changed || c;
            j = j + 1;
        }
        proof {
            if !changed {
                assert forall|sid: SegmentId| #[trigger] balanced(out@, arc_unit(*doc, sid)) by {
                    if doc.sg(sid) is Some {
                        let jj = choose|jj: int| 0 <= jj < segs@.len() && (#[trigger] segs@[jj]).0 == sid;
                        assert(balanced(o0, unit_of(segs@[jj].1)));
                    }
                }
            }
            let n = b0.len() as int;
            lemma_new_past_distinct(out@, n);
            let added = out@.skip(n);
            assert forall|k: int| 0 <= k < added.len() implies unit_points(segs@).contains(#[trigger] added[k]) by {
                assert(added[k] == out@[n + k]);
                assert(pulled(*doc, out@, n + k));
                let sid = choose|sid: SegmentId| #[trigger] pulled_by(*doc, sid, out@, n + k);
                assert(doc.sg(sid) is Some);
                let jj = choose|jj: int| 0 <= jj < segs@.len() && (#[trigger] segs@[jj]).0 == sid;
                assert(unit_of(segs@[jj].1) == arc_unit(*doc, sid));
                assert(in_unit(unit_of(segs@[jj].1), out@[n + k]));
            }
            lemma_distinct_within(added, unit_points(segs@));
        }
    }
    out
}

/// The points a drag of `seeds` must not snap onto: the seeds, then every
/// live point reachable from them along segment endpoints (each once),
/// then every point of each live arc unit (start, end, control) that this
/// list touches, until each unit is listed whole or not at all.
pub fn snap_exclusion(doc: &Document, seeds: Vec<PointId>) -> (r: Vec<PointId>)
    requires
        doc.wf(),
    ensures
        exists|mid: Seq<PointId>| {
            &&& #[trigger] end_grown(*doc, seeds@, mid)
            &&& forall|k: int, q: PointId| 0 <= k < mid.len() && #[trigger] end_linked(*doc, mid[k], q) ==> mid.contains(q)
            &&& arc_grown(*doc, mid, r@)
        },
        arcs_closed(*doc, r@),
{
    let mid = endpoint_closure(doc, seeds);
    let ghost m = mid@;
    let r = arc_closure(doc, mid);
    proof {
        assert(end_grown(*doc, seeds@, m));
    }
    r
}

} // verus!
