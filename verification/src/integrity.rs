//! Reference integrity: every live segment's points, and every live fill's
//! and path's segments, are live. Removing any one element keeps it.

use vstd::prelude::*;
use crate::constraints::ElementRef;
use crate::delete::lemma_filter_member;
use crate::document::{
    all_slots, anchor_count, outside, path_slot_after, path_spliced, path_touched, seg_uses, touches, Document, Segment,
};
use crate::ids::{FillId, PathId, PointId, SegmentId};

verus! {

/// `o`, when present, names a live point.
pub open spec fn opt_live(d: Document, o: Option<PointId>) -> bool {
    match o {
        Some(p) => d.pt(p) is Some,
        None => true,
    }
}

/// Every point `g` uses is live in `d`.
pub open spec fn points_live(d: Document, g: Segment) -> bool {
    &&& d.pt(g.start) is Some
    &&& d.pt(g.end) is Some
    &&& opt_live(d, g.ctrl)
    &&& opt_live(d, g.center)
    &&& opt_live(d, g.handle_out)
    &&& opt_live(d, g.handle_in)
}

/// Every segment of `segs` is live in `d`.
pub open spec fn segs_live(d: Document, segs: Seq<SegmentId>) -> bool {
    forall|k: int| 0 <= k < segs.len() ==> (#[trigger] d.sg(segs[k])) is Some
}

/// Nothing live refers to a dead point or segment: live segments use live
/// points, live fills and paths run through live segments.
pub open spec fn linked_ok(d: Document) -> bool {
    &&& forall|s: SegmentId| #[trigger] d.sg(s) is Some ==> points_live(d, d.sg(s).unwrap())
    &&& forall|f: FillId| #[trigger] d.fl(f) is Some ==> segs_live(d, d.fl(f).unwrap().segments@)
    &&& forall|q: PathId| #[trigger] d.ph(q) is Some ==> segs_live(d, d.ph(q).unwrap().segments@)
}

/// `b` is `a` after removing `el` with the document's own removal.
pub open spec fn removed(a: Document, b: Document, el: ElementRef) -> bool {
    match el {
        ElementRef::Point(p) => Document::point_removed(a, b, p),
        ElementRef::Segment(s) => Document::segment_removed(a, b, s),
        ElementRef::Fill(f) => Document::fill_removed(a, b, f),
        ElementRef::Path(q) => Document::path_removed(a, b, q),
    }
}

/// Deleting any piece leaves the rest valid: removing a point, a segment,
/// a fill or a path from a document in which nothing live refers to a
/// dead element leaves a document in which nothing does.
pub proof fn law_removal_keeps_links(a: Document, b: Document, el: ElementRef)
    requires
        a.wf(),
        a.live_gens_ok(),
        linked_ok(a),
        removed(a, b, el),
    ensures
        linked_ok(b),
{
    match el {
        ElementRef::Point(p) => {
            lemma_point_removal(a, b, p);
        },
        ElementRef::Segment(s) => {
            lemma_segment_removal(a, b, s);
        },
        ElementRef::Fill(f) => {
            {
                assert forall|x: FillId| #[trigger] b.fl(x) is Some implies segs_live(b, b.fl(x).unwrap().segments@) by {
                    if x.idx == f.idx && a.fl(f) is Some {
                        assert(b.fills.slots@[f.idx as int].value is None);
                    }
                    assert(a.fl(x) == b.fl(x));
                    let segs = a.fl(x).unwrap().segments@;
                    assert(segs_live(a, segs));
                    assert forall|k: int| 0 <= k < segs.len() implies (#[trigger] b.sg(segs[k])) is Some by {
                        assert(a.sg(segs[k]) is Some);
                    }
                }
                assert forall|s: SegmentId| #[trigger] b.sg(s) is Some implies points_live(b, b.sg(s).unwrap()) by {
                    assert(points_live(a, a.sg(s).unwrap()));
                }
                assert forall|x: PathId| #[trigger] b.ph(x) is Some implies segs_live(b, b.ph(x).unwrap().segments@) by {
                    let segs = a.ph(x).unwrap().segments@;
                    assert(segs_live(a, segs));
                    assert forall|k: int| 0 <= k < segs.len() implies (#[trigger] b.sg(segs[k])) is Some by {
                        assert(a.sg(segs[k]) is Some);
                    }
                }
            }
        },
        ElementRef::Path(q) => {
            {
                assert forall|x: PathId| #[trigger] b.ph(x) is Some implies segs_live(b, b.ph(x).unwrap().segments@) by {
                    if x.idx == q.idx && a.ph(q) is Some {
                        assert(b.paths.slots@[q.idx as int].value is None);
                    }
                    assert(a.ph(x) == b.ph(x));
                    let segs = a.ph(x).unwrap().segments@;
                    assert(segs_live(a, segs));
                    assert forall|k: int| 0 <= k < segs.len() implies (#[trigger] b.sg(segs[k])) is Some by {
                        assert(a.sg(segs[k]) is Some);
                    }
                }
                assert forall|s: SegmentId| #[trigger] b.sg(s) is Some implies points_live(b, b.sg(s).unwrap()) by {
                    assert(points_live(a, a.sg(s).unwrap()));
                }
                assert forall|x: FillId| #[trigger] b.fl(x) is Some implies segs_live(b, b.fl(x).unwrap().segments@) by {
                    let segs = a.fl(x).unwrap().segments@;
                    assert(segs_live(a, segs));
                    assert forall|k: int| 0 <= k < segs.len() implies (#[trigger] b.sg(segs[k])) is Some by {
                        assert(a.sg(segs[k]) is Some);
                    }
                }
            }
        },
    }
}

/// A path that survives splicing `dead` segments out keeps only segments
/// it had, none of them dead.
proof fn lemma_spliced_path(a: Document, b: Document, dead: Set<SegmentId>, doc: Document, q: PathId)
    requires
        crate::document::paths_spliced(a.paths, b.paths, dead, doc, crate::document::all_slots()),
        b.ph(q) is Some,
    ensures
        a.ph(q) is Some,
        forall|k: int| 0 <= k < b.ph(q).unwrap().segments@.len() ==> {
            let x = #[trigger] b.ph(q).unwrap().segments@[k];
            &&& a.ph(q).unwrap().segments@.contains(x)
            &&& !dead.contains(x)
        },
{
    let i = q.idx as int;
    assert(b.paths.slots@[i] == b.paths.slots@[i]);
    let p = a.paths.slots@[i].value;
    let touched = crate::document::path_touched(a.paths, i, dead, crate::document::all_slots());
    assert(crate::document::path_slot_after(a.paths.slots@[i], b.paths.slots@[i], touched, dead, doc));
    if !touched {
        assert(b.paths.slots@[i] == a.paths.slots@[i]);
        assert forall|k: int| 0 <= k < b.ph(q).unwrap().segments@.len() implies {
            let x = #[trigger] b.ph(q).unwrap().segments@[k];
            &&& a.ph(q).unwrap().segments@.contains(x)
            &&& !dead.contains(x)
        } by {
            let x = b.ph(q).unwrap().segments@[k];
            assert(a.ph(q).unwrap().segments@[k] == x);
            if a.paths.is_live(i) && dead.contains(x) {
                assert(touches(a.paths.slots@[i].value.unwrap().segments@, dead));
            }
        }
    } else {
        let segs = a.paths.slots@[i].value.unwrap().segments@;
        assert forall|k: int| 0 <= k < b.ph(q).unwrap().segments@.len() implies {
            let x = #[trigger] b.ph(q).unwrap().segments@[k];
            &&& a.ph(q).unwrap().segments@.contains(x)
            &&& !dead.contains(x)
        } by {
            broadcast use vstd::seq_lib::group_filter_ensures;
            let x = b.ph(q).unwrap().segments@[k];
            assert(b.ph(q).unwrap().segments@ == segs.filter(outside(dead)));
            lemma_filter_member(segs, outside(dead), k);
            assert(outside(dead)(segs.filter(outside(dead))[k]));
        }
    }
}

proof fn lemma_segment_removal(a: Document, b: Document, id: SegmentId)
    requires
        a.wf(),
        a.live_gens_ok(),
        linked_ok(a),
        Document::segment_removed(a, b, id),
    ensures
        linked_ok(b),
{
    let dead = set![id];
    crate::arena::Arena::lemma_vacated_where_facts(a.fills, b.fills, crate::document::fill_touched(a.fills, dead));
    // a live segment of `b` is a live segment of `a` other than `id`
    assert forall|x: SegmentId| #[trigger] b.sg(x) is Some implies a.sg(x) == b.sg(x) && x != id by {
        if x.idx == id.idx && a.sg(id) is Some {
            assert(b.segments.slots@[x.idx as int].value is None);
        }
    }
    assert forall|x: SegmentId| a.sg(x) is Some && x != id implies #[trigger] b.sg(x) == a.sg(x) by {
        if x.idx == id.idx && a.sg(id) is Some {
            assert(a.segments.slots@[id.idx as int].generation == x.generation);
        }
    }
    assert forall|s: SegmentId| #[trigger] b.sg(s) is Some implies points_live(b, b.sg(s).unwrap()) by {
        assert(points_live(a, a.sg(s).unwrap()));
    }
    assert forall|f: FillId| #[trigger] b.fl(f) is Some implies segs_live(b, b.fl(f).unwrap().segments@) by {
        let i = f.idx as int;
        assert(b.fills.lookup(f.idx, f.generation) == a.fills.lookup(f.idx, f.generation));
        let segs = a.fl(f).unwrap().segments@;
        assert(segs_live(a, segs));
        assert forall|k: int| 0 <= k < segs.len() implies (#[trigger] b.sg(segs[k])) is Some by {
            assert(a.sg(segs[k]) is Some);
            if segs[k] == id {
                assert(touches(segs, dead));
            }
        }
    }
    assert forall|q: PathId| #[trigger] b.ph(q) is Some implies segs_live(b, b.ph(q).unwrap().segments@) by {
        lemma_spliced_path(a, b, dead, a, q);
        let segs = b.ph(q).unwrap().segments@;
        assert(segs_live(a, a.ph(q).unwrap().segments@));
        assert forall|k: int| 0 <= k < segs.len() implies (#[trigger] b.sg(segs[k])) is Some by {
            let x = segs[k];
            assert(a.ph(q).unwrap().segments@.contains(x));
            let j = choose|j: int| 0 <= j < a.ph(q).unwrap().segments@.len() && a.ph(q).unwrap().segments@[j] == x;
            assert(a.sg(a.ph(q).unwrap().segments@[j]) is Some);
        }
    }
}

proof fn lemma_point_removal(a: Document, b: Document, id: PointId)
    requires
        a.wf(),
        a.live_gens_ok(),
        linked_ok(a),
        Document::point_removed(a, b, id),
    ensures
        linked_ok(b),
{
    let dead = a.segments_using(id);
    crate::arena::Arena::lemma_vacated_where_facts(a.segments, b.segments, crate::document::seg_uses_at(a.segments, id));
    crate::arena::Arena::lemma_vacated_where_facts(a.fills, b.fills, crate::document::fill_touched(a.fills, dead));
    // live points of `b` are those of `a` other than `id`
    assert forall|x: PointId| a.pt(x) is Some && x != id implies #[trigger] b.pt(x) == a.pt(x) by {
        if x.idx == id.idx && a.pt(id) is Some {
            assert(a.points.slots@[id.idx as int].generation == x.generation);
        }
    }
    // live segments of `b` are live segments of `a` that do not use `id`
    assert forall|x: SegmentId| #[trigger] b.sg(x) is Some implies a.sg(x) == b.sg(x) && !dead.contains(x) by {
        assert(b.segments.lookup(x.idx, x.generation) == b.sg(x));
    }
    assert forall|x: SegmentId| a.sg(x) is Some && !dead.contains(x) implies #[trigger] b.sg(x) == a.sg(x) by {
        assert(b.segments.lookup(x.idx, x.generation) == b.sg(x));
    }
    assert forall|s: SegmentId| #[trigger] b.sg(s) is Some implies points_live(b, b.sg(s).unwrap()) by {
        let g = a.sg(s).unwrap();
        assert(points_live(a, g));
        assert(!seg_uses(g, id));
    }
    assert forall|f: FillId| #[trigger] b.fl(f) is Some implies segs_live(b, b.fl(f).unwrap().segments@) by {
        assert(b.fills.lookup(f.idx, f.generation) == a.fills.lookup(f.idx, f.generation));
        let segs = a.fl(f).unwrap().segments@;
        assert(segs_live(a, segs));
        assert forall|k: int| 0 <= k < segs.len() implies (#[trigger] b.sg(segs[k])) is Some by {
            assert(a.sg(segs[k]) is Some);
            if dead.contains(segs[k]) {
                assert(touches(segs, dead));
            }
        }
    }
    assert forall|q: PathId| #[trigger] b.ph(q) is Some implies segs_live(b, b.ph(q).unwrap().segments@) by {
        lemma_spliced_path(a, b, dead, b, q);
        let segs = b.ph(q).unwrap().segments@;
        assert(segs_live(a, a.ph(q).unwrap().segments@));
        assert forall|k: int| 0 <= k < segs.len() implies (#[trigger] b.sg(segs[k])) is Some by {
            let x = segs[k];
            let j = choose|j: int| 0 <= j < a.ph(q).unwrap().segments@.len() && a.ph(q).unwrap().segments@[j] == x;
            assert(a.sg(a.ph(q).unwrap().segments@[j]) is Some);
        }
    }
}

/// A chain of live segments has one anchor per segment start, plus the
/// final end when open.
proof fn lemma_live_chain_anchors(d: Document, segs: Seq<SegmentId>, closed: bool)
    requires
        segs_live(d, segs),
    ensures
        d.strict_starts(segs) is Some,
        d.strict_starts(segs).unwrap().len() == segs.len(),
        d.strict_anchors(segs, closed) is Some,
        segs.len() > 0 ==> d.strict_anchors(segs, closed).unwrap().len() == anchor_count(segs.len() as int, closed),
    decreases segs.len(),
{
    if segs.len() > 0 {
        let t = segs.drop_last();
        assert forall|k: int| 0 <= k < t.len() implies (#[trigger] d.sg(t[k])) is Some by {
            assert(t[k] == segs[k]);
        }
        lemma_live_chain_anchors(d, t, closed);
        assert(d.sg(segs[segs.len() - 1]) is Some);
    }
}

/// Removing a segment leaves every path that ran through it, and keeps
/// other segments that all resolve, with one continuity mode and one
/// handle pair per anchor.
pub proof fn law_spliced_path_stays_parallel(a: Document, b: Document, id: SegmentId, q: PathId)
    requires
        Document::segment_removed(a, b, id),
        a.ph(q) is Some,
        a.ph(q).unwrap().segments@.contains(id),
        segs_live(a, a.ph(q).unwrap().segments@.filter(outside(set![id]))),
        b.ph(q) is Some,
    ensures
        b.strict_anchors(b.ph(q).unwrap().segments@, b.ph(q).unwrap().closed) is Some,
        b.ph(q).unwrap().continuity@.len() == b.strict_anchors(b.ph(q).unwrap().segments@, b.ph(q).unwrap().closed).unwrap().len(),
        b.ph(q).unwrap().handles@.len() == b.strict_anchors(b.ph(q).unwrap().segments@, b.ph(q).unwrap().closed).unwrap().len(),
{
    let dead = set![id];
    let i = q.idx as int;
    let p = a.ph(q).unwrap();
    let segs = p.segments@.filter(outside(dead));
    let k = choose|k: int| 0 <= k < p.segments@.len() && p.segments@[k] == id;
    assert(dead.contains(p.segments@[k]));
    assert(touches(p.segments@, dead));
    assert(path_touched(a.paths, i, dead, all_slots()));
    assert(b.paths.slots@[i] == b.paths.slots@[i]);
    assert(path_slot_after(a.paths.slots@[i], b.paths.slots@[i], true, dead, a));
    assert(segs.len() > 0);
    let r = b.ph(q).unwrap();
    assert(path_spliced(a, p, r, dead));
    lemma_live_chain_anchors(a, segs, p.closed);
    assert forall|j: int| 0 <= j < segs.len() implies a.sg(#[trigger] segs[j]) == b.sg(segs[j]) by {
        p.segments@.lemma_filter_pred(outside(dead), j);
        assert(segs[j] != id);
    }
    Document::lemma_strict_anchors_frame(a, b, segs, p.closed);
}

} // verus!
