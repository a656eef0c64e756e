//! Copy/paste. Copying serializes the selected elements themselves (points,
//! segments, fills, paths, plus the constraints inside the copied point
//! set, with their segment pair when both segments were copied) into the
//! `parametric/v2` text format; pasting rebuilds them with fresh ids. The
//! numeric coordinate and stroke fields of the format are floating-point
//! text, written and read by the caller; this module owns everything else
//! about the format.

use vstd::prelude::*;
use crate::constraints::{kind_name, ConstraintKind, ElementRef};
use crate::arena::Arena;
use crate::create::{chain_from, layers_pushed, line_seg, plain, point_ids, segment_ids, with_constraint};
use crate::document::{
    continuity_code, contains_point, contains_segment, fit_handles, fit_modes, ContinuityMode, Document, Fill, Path, PointPos,
    Segment, SegmentKind,
};
use crate::editor::Editor;
use crate::ids::{FillId, PathId, PointId, SegmentId};
use crate::text::{decimal, push_decimal};
use vstd::string::StringExecFns;

verus! {

// ---- gathering the copied set ----

/// `pts` plus `p` when `p` is live and not listed yet.
pub open spec fn gather_pt(d: Document, pts: Seq<PointId>, p: PointId) -> Seq<PointId> {
    if !pts.contains(p) && d.pt(p) is Some { pts.push(p) } else { pts }
}

pub open spec fn gather_opt(d: Document, pts: Seq<PointId>, o: Option<PointId>) -> Seq<PointId> {
    match o {
        Some(p) => gather_pt(d, pts, p),
        None => pts,
    }
}

/// A live segment adds its points (endpoints, arc control and center,
/// bezier handles) and itself, each once.
pub open spec fn gather_seg(d: Document, acc: (Seq<PointId>, Seq<SegmentId>), s: SegmentId) -> (Seq<PointId>, Seq<SegmentId>) {
    match d.sg(s) {
        Some(g) => {
            let p = gather_opt(d, gather_opt(d, gather_opt(d, gather_opt(d, gather_pt(d, gather_pt(d, acc.0, g.start), g.end),
                g.ctrl), g.center), g.handle_out), g.handle_in);
            (p, if acc.1.contains(s) { acc.1 } else { acc.1.push(s) })
        },
        None => acc,
    }
}

pub open spec fn gather_segs(d: Document, acc: (Seq<PointId>, Seq<SegmentId>), ss: Seq<SegmentId>) -> (Seq<PointId>, Seq<SegmentId>)
    decreases ss.len(),
{
    if ss.len() == 0 {
        acc
    } else {
        gather_seg(d, gather_segs(d, acc, ss.drop_last()), ss.last())
    }
}

/// The copied set of a selection: points, segments, fills and paths, each
/// in first-reached order.
pub open spec fn gather(d: Document, sel: Seq<ElementRef>) -> (Seq<PointId>, Seq<SegmentId>, Seq<FillId>, Seq<PathId>)
    decreases sel.len(),
{
    if sel.len() == 0 {
        (seq![], seq![], seq![], seq![])
    } else {
        let (p, s, f, h) = gather(d, sel.drop_last());
        match sel.last() {
            ElementRef::Point(q) => (gather_pt(d, p, q), s, f, h),
            ElementRef::Segment(g) => {
                let ps = gather_seg(d, (p, s), g);
                (ps.0, ps.1, f, h)
            },
            ElementRef::Fill(x) => match d.fl(x) {
                Some(fl) => {
                    let ps = gather_segs(d, (p, s), fl.segments@);
                    (ps.0, ps.1, if f.contains(x) { f } else { f.push(x) }, h)
                },
                None => (p, s, f, h),
            },
            ElementRef::Path(x) => match d.ph(x) {
                Some(ph) => {
                    let ps = gather_segs(d, (p, s), ph.segments@);
                    (ps.0, ps.1, f, if h.contains(x) { h } else { h.push(x) })
                },
                None => (p, s, f, h),
            },
        }
    }
}

proof fn lemma_gather_seg_live(d: Document, acc: (Seq<PointId>, Seq<SegmentId>), s: SegmentId)
    requires
        forall|j: int| 0 <= j < acc.1.len() ==> d.sg(#[trigger] acc.1[j]) is Some,
    ensures
        forall|j: int| 0 <= j < gather_seg(d, acc, s).1.len() ==> d.sg(#[trigger] gather_seg(d, acc, s).1[j]) is Some,
{
}

proof fn lemma_gather_segs_live(d: Document, acc: (Seq<PointId>, Seq<SegmentId>), ss: Seq<SegmentId>)
    requires
        forall|j: int| 0 <= j < acc.1.len() ==> d.sg(#[trigger] acc.1[j]) is Some,
    ensures
        forall|j: int| 0 <= j < gather_segs(d, acc, ss).1.len() ==> d.sg(#[trigger] gather_segs(d, acc, ss).1[j]) is Some,
    decreases ss.len(),
{
    if ss.len() > 0 {
        lemma_gather_segs_live(d, acc, ss.drop_last());
        lemma_gather_seg_live(d, gather_segs(d, acc, ss.drop_last()), ss.last());
    }
}

/// Everything gathered is live.
pub proof fn lemma_gather_live(d: Document, sel: Seq<ElementRef>)
    ensures
        forall|j: int| 0 <= j < gather(d, sel).1.len() ==> d.sg(#[trigger] gather(d, sel).1[j]) is Some,
        forall|j: int| 0 <= j < gather(d, sel).2.len() ==> d.fl(#[trigger] gather(d, sel).2[j]) is Some,
        forall|j: int| 0 <= j < gather(d, sel).3.len() ==> d.ph(#[trigger] gather(d, sel).3[j]) is Some,
    decreases sel.len(),
{
    if sel.len() > 0 {
        lemma_gather_live(d, sel.drop_last());
        let (p, s, f, h) = gather(d, sel.drop_last());
        match sel.last() {
            ElementRef::Point(q) => {},
            ElementRef::Segment(g) => {
                lemma_gather_seg_live(d, (p, s), g);
            },
            ElementRef::Fill(x) => {
                if let Some(fl) = d.fl(x) {
                    lemma_gather_segs_live(d, (p, s), fl.segments@);
                }
            },
            ElementRef::Path(x) => {
                if let Some(ph) = d.ph(x) {
                    lemma_gather_segs_live(d, (p, s), ph.segments@);
                }
            },
        }
    }
}

/// The copied set.
pub struct ClipSet {
    pub points: Vec<PointId>,
    pub segments: Vec<SegmentId>,
    pub fills: Vec<FillId>,
    pub paths: Vec<PathId>,
}

fn contains_fill(v: &Vec<FillId>, x: FillId) -> (r: bool)
    ensures
        r == v@.contains(x),
{
    let mut i: usize = 0;
    while i < v.len()
        invariant
            i <= v@.len(),
            forall|j: int| 0 <= j < i ==> v@[j] != x,
        decreases v@.len() - i,
    {
        if v[i] == x {
            return true;
        }
        i = i + 1;
    }
    false
}

fn contains_path(v: &Vec<PathId>, x: PathId) -> (r: bool)
    ensures
        r == v@.contains(x),
{
    let mut i: usize = 0;
    while i < v.len()
        invariant
            i <= v@.len(),
            forall|j: int| 0 <= j < i ==> v@[j] != x,
        decreases v@.len() - i,
    {
        if v[i] == x {
            return true;
        }
        i = i + 1;
    }
    false
}

fn gather_point_into(d: &Document, pts: &mut Vec<PointId>, p: PointId)
    ensures
        final(pts)@ == gather_pt(*d, old(pts)@, p),
{
    if !contains_point(pts, p) && d.point(p).is_some() {
        pts.push(p);
    }
}

fn gather_opt_into(d: &Document, pts: &mut Vec<PointId>, o: Option<PointId>)
    ensures
        final(pts)@ == gather_opt(*d, old(pts)@, o),
{
    match o {
        Some(p) => gather_point_into(d, pts, p),
        None => {},
    }
}

fn gather_seg_into(d: &Document, pts: &mut Vec<PointId>, segs: &mut Vec<SegmentId>, s: SegmentId)
    ensures
        (final(pts)@, final(segs)@) == gather_seg(*d, (old(pts)@, old(segs)@), s),
{
    match d.segment(s) {
        Some(g) => {
            gather_point_into(d, pts, g.start);
            gather_point_into(d, pts, g.end);
            gather_opt_into(d, pts, g.ctrl);
            gather_opt_into(d, pts, g.center);
            gather_opt_into(d, pts, g.handle_out);
            gather_opt_into(d, pts, g.handle_in);
            if !contains_segment(segs, s) {
                segs.push(s);
            }
        },
        None => {},
    }
}

fn gather_segs_into(d: &Document, pts: &mut Vec<PointId>, segs: &mut Vec<SegmentId>, ss: &Vec<SegmentId>)
    ensures
        (final(pts)@, final(segs)@) == gather_segs(*d, (old(pts)@, old(segs)@), ss@),
{
    let mut i: usize = 0;
    while i < ss.len()
        invariant
            i <= ss@.len(),
            (pts@, segs@) == gather_segs(*d, (old(pts)@, old(segs)@), ss@.take(i as int)),
        decreases ss@.len() - i,
    {
        proof {
            assert(ss@.take(i as int + 1).drop_last() =~= ss@.take(i as int));
        }
        gather_seg_into(d, pts, segs, ss[i]);
        i = i + 1;
    }
    proof {
        assert(ss@.take(i as int) =~= ss@);
    }
}

impl Editor {
    /// The set copying the selection would serialize.
    pub fn clip_gather(&self) -> (r: ClipSet)
        ensures
            (r.points@, r.segments@, r.fills@, r.paths@) == gather(self.doc, self.selection@),
    {
        let mut pts: Vec<PointId> = Vec::new();
        let mut segs: Vec<SegmentId> = Vec::new();
        let mut fills: Vec<FillId> = Vec::new();
        let mut paths: Vec<PathId> = Vec::new();
        let d = &self.doc;
        let mut i: usize = 0;
        while i < self.selection.len()
            invariant
                i <= self.selection@.len(),
                d == &self.doc,
                (pts@, segs@, fills@, paths@) == gather(self.doc, self.selection@.take(i as int)),
            decreases self.selection@.len() - i,
        {
            proof {
                assert(self.selection@.take(i as int + 1).drop_last() =~= self.selection@.take(i as int));
            }
            match self.selection[i] {
                ElementRef::Point(p) => gather_point_into(d, &mut pts, p),
                ElementRef::Segment(s) => gather_seg_into(d, &mut pts, &mut segs, s),
                ElementRef::Fill(x) => {
                    match d.fill(x) {
                        Some(f) => {
                            gather_segs_into(d, &mut pts, &mut segs, &f.segments);
                            if !contains_fill(&fills, x) {
                                fills.push(x);
                            }
                        },
                        None => {},
                    }
                },
                ElementRef::Path(x) => {
                    match d.path(x) {
                        Some(p) => {
                            gather_segs_into(d, &mut pts, &mut segs, &p.segments);
                            if !contains_path(&paths, x) {
                                paths.push(x);
                            }
                        },
                        None => {},
                    }
                },
            }
            i = i + 1;
        }
        proof {
            assert(self.selection@.take(i as int) =~= self.selection@);
        }
        ClipSet { points: pts, segments: segs, fills, paths }
    }
}

// ---- the text format ----

/// Position of the first `x` in `s`, or -1.
pub open spec fn first_pos<A>(s: Seq<A>, x: A) -> int
    decreases s.len(),
{
    if s.len() == 0 {
        -1
    } else {
        let i = first_pos(s.drop_last(), x);
        if i >= 0 {
            i
        } else if s.last() == x {
            s.len() - 1
        } else {
            -1
        }
    }
}

pub proof fn lemma_first_pos_bounds<A>(s: Seq<A>, x: A)
    ensures
        -1 <= first_pos(s, x) < s.len(),
        first_pos(s, x) >= 0 ==> s[first_pos(s, x)] == x,
        first_pos(s, x) < 0 ==> !s.contains(x),
    decreases s.len(),
{
    if s.len() > 0 {
        lemma_first_pos_bounds(s.drop_last(), x);
        if first_pos(s, x) < 0 {
            assert forall|j: int| 0 <= j < s.len() implies s[j] != x by {
                if j < s.len() - 1 {
                    assert(s.drop_last()[j] == s[j]);
                }
            }
        }
    }
}

pub proof fn lemma_first_pos_step<A>(s: Seq<A>, x: A, k: int)
    requires
        0 <= k < s.len(),
        first_pos(s.take(k), x) < 0,
    ensures
        first_pos(s.take(k + 1), x) == (if s[k] == x { k } else { -1 }),
{
    assert(s.take(k + 1).drop_last() =~= s.take(k));
}

pub proof fn lemma_first_pos_keep<A>(s: Seq<A>, x: A, k: int)
    requires
        0 <= k <= s.len(),
        first_pos(s.take(k), x) >= 0,
    ensures
        first_pos(s, x) == first_pos(s.take(k), x),
    decreases s.len() - k,
{
    if k < s.len() {
        assert(s.take(k + 1).drop_last() =~= s.take(k));
        lemma_first_pos_keep(s, x, k + 1);
    } else {
        assert(s.take(k) =~= s);
    }
}

/// The text of an index field: the index in decimal, or "-1" for none.
pub open spec fn index_text(i: int) -> Seq<char> {
    if i < 0 { "-1"@ } else { decimal(i as nat) }
}

pub open spec fn opt_index_text(pts: Seq<PointId>, o: Option<PointId>) -> Seq<char> {
    match o {
        Some(p) => index_text(first_pos(pts, p)),
        None => "-1"@,
    }
}

pub open spec fn kind_letter(k: SegmentKind) -> Seq<char> {
    match k {
        SegmentKind::Line => "L"@,
        SegmentKind::Ruler => "M"@,
        SegmentKind::Arc => "A"@,
        SegmentKind::Bezier => "B"@,
    }
}

/// Items separated by commas ("" for none).
pub open spec fn joined(items: Seq<Seq<char>>) -> Seq<char>
    decreases items.len(),
{
    if items.len() == 0 {
        seq![]
    } else if items.len() == 1 {
        items[0]
    } else {
        joined(items.drop_last()) + ","@ + items.last()
    }
}

/// The fields of a segment record: kind, start, end, stroke, control,
/// center, handle out, handle in; point fields as indices into the copied
/// points.
pub open spec fn seg_fields(pts: Seq<PointId>, g: Segment, stroke: Seq<char>) -> Seq<Seq<char>> {
    seq![
        kind_letter(g.kind),
        index_text(first_pos(pts, g.start)),
        index_text(first_pos(pts, g.end)),
        stroke,
        opt_index_text(pts, g.ctrl),
        opt_index_text(pts, g.center),
        opt_index_text(pts, g.handle_out),
        opt_index_text(pts, g.handle_in),
    ]
}

/// "|S:" and the segment's fields, comma-separated.
pub open spec fn seg_record(pts: Seq<PointId>, g: Segment, stroke: Seq<char>) -> Seq<char> {
    "|S:"@ + joined(seg_fields(pts, g, stroke))
}

pub open spec fn point_records(ptext: Seq<Seq<char>>) -> Seq<char>
    decreases ptext.len(),
{
    if ptext.len() == 0 { seq![] } else { point_records(ptext.drop_last()) + "|P:"@ + ptext.last() }
}

pub open spec fn seg_records(d: Document, pts: Seq<PointId>, segs: Seq<SegmentId>, stext: Seq<Seq<char>>) -> Seq<char>
    decreases segs.len(),
{
    if segs.len() == 0 {
        seq![]
    } else {
        seg_records(d, pts, segs.drop_last(), stext) + seg_record(pts, d.sg(segs.last()).unwrap(), stext[segs.len() - 1])
    }
}

pub open spec fn seg_index_texts(segs: Seq<SegmentId>, list: Seq<SegmentId>) -> Seq<Seq<char>> {
    list.map_values(|s: SegmentId| index_text(first_pos(segs, s)))
}

pub open spec fn mode_texts(modes: Seq<ContinuityMode>) -> Seq<Seq<char>> {
    modes.map_values(|m: ContinuityMode| decimal(continuity_code(m) as nat))
}

/// Each handle pair as two point-index fields.
pub open spec fn handle_texts(pts: Seq<PointId>, hs: Seq<(PointId, PointId)>) -> Seq<Seq<char>>
    decreases hs.len(),
{
    if hs.len() == 0 {
        seq![]
    } else {
        handle_texts(pts, hs.drop_last()) + seq![index_text(first_pos(pts, hs.last().0)), index_text(first_pos(pts, hs.last().1))]
    }
}

pub open spec fn fill_records(d: Document, segs: Seq<SegmentId>, fills: Seq<FillId>) -> Seq<char>
    decreases fills.len(),
{
    if fills.len() == 0 {
        seq![]
    } else {
        fill_records(d, segs, fills.drop_last()) + "|F:"@ + joined(seg_index_texts(segs, d.fl(fills.last()).unwrap().segments@))
    }
}

pub open spec fn path_records(d: Document, pts: Seq<PointId>, segs: Seq<SegmentId>, paths: Seq<PathId>) -> Seq<char>
    decreases paths.len(),
{
    if paths.len() == 0 {
        seq![]
    } else {
        path_records(d, pts, segs, paths.drop_last()) + path_record(pts, segs, d.ph(paths.last()).unwrap())
    }
}

/// "|H:<closed>:<segment fields>:<mode codes>:<handle fields>".
pub open spec fn path_record(pts: Seq<PointId>, segs: Seq<SegmentId>, p: Path) -> Seq<char> {
    "|H:"@ + (if p.closed { "1"@ } else { "0"@ }) + ":"@ + joined(seg_index_texts(segs, p.segments@)) + ":"@
        + joined(mode_texts(p.continuity@)) + ":"@ + joined(handle_texts(pts, p.handles@))
}

/// The positions among the copied segments of a constraint's segment
/// pair, when it has one and both were copied.
pub open spec fn pair_pos(segs: Seq<SegmentId>, c: crate::constraints::Constraint) -> Option<(int, int)> {
    match c.tangent_segments {
        Some((x, y)) => if first_pos(segs, x) >= 0 && first_pos(segs, y) >= 0 {
            Some((first_pos(segs, x), first_pos(segs, y)))
        } else {
            None
        },
        None => None,
    }
}

/// ",<i>,<j>" for a copied segment pair, else nothing.
pub open spec fn pair_text(segs: Seq<SegmentId>, c: crate::constraints::Constraint) -> Seq<char> {
    match pair_pos(segs, c) {
        Some((i, j)) => ","@ + decimal(i as nat) + ","@ + decimal(j as nat),
        None => seq![],
    }
}

/// "|C:<kind>,<a>,<b>" for each constraint with both points copied,
/// followed by ",<i>,<j>" when its segment pair was copied too.
pub open spec fn constraint_records(pts: Seq<PointId>, segs: Seq<SegmentId>, cs: Seq<crate::constraints::Constraint>) -> Seq<char>
    decreases cs.len(),
{
    if cs.len() == 0 {
        seq![]
    } else {
        let c = cs.last();
        let (ia, ib) = (first_pos(pts, c.a), first_pos(pts, c.b));
        constraint_records(pts, segs, cs.drop_last()) + if ia >= 0 && ib >= 0 {
            "|C:"@ + kind_name(c.kind) + ","@ + decimal(ia as nat) + ","@ + decimal(ib as nat) + pair_text(segs, c)
        } else {
            seq![]
        }
    }
}

pub open spec fn clip_text(
    d: Document,
    set: (Seq<PointId>, Seq<SegmentId>, Seq<FillId>, Seq<PathId>),
    ptext: Seq<Seq<char>>,
    stext: Seq<Seq<char>>,
) -> Seq<char> {
    "parametric/v2"@ + point_records(ptext) + seg_records(d, set.0, set.1, stext) + fill_records(d, set.1, set.2)
        + path_records(d, set.0, set.1, set.3) + constraint_records(set.0, set.1, d.constraints@)
}

fn point_position(v: &Vec<PointId>, x: PointId) -> (r: Option<usize>)
    ensures
        r matches Some(i) ==> i as int == first_pos(v@, x),
        r is None ==> first_pos(v@, x) == -1,
{
    let mut i: usize = 0;
    while i < v.len()
        invariant
            i <= v@.len(),
            first_pos(v@.take(i as int), x) < 0,
        decreases v@.len() - i,
    {
        proof {
            lemma_first_pos_step(v@, x, i as int);
        }
        if v[i] == x {
            proof {
                lemma_first_pos_keep(v@, x, i as int + 1);
            }
            return Some(i);
        }
        i = i + 1;
    }
    proof {
        assert(v@.take(i as int) =~= v@);
        lemma_first_pos_bounds(v@, x);
    }
    None
}

fn segment_position(v: &Vec<SegmentId>, x: SegmentId) -> (r: Option<usize>)
    ensures
        r matches Some(i) ==> i as int == first_pos(v@, x),
        r is None ==> first_pos(v@, x) == -1,
{
    let mut i: usize = 0;
    while i < v.len()
        invariant
            i <= v@.len(),
            first_pos(v@.take(i as int), x) < 0,
        decreases v@.len() - i,
    {
        proof {
            lemma_first_pos_step(v@, x, i as int);
        }
        if v[i] == x {
            proof {
                lemma_first_pos_keep(v@, x, i as int + 1);
            }
            return Some(i);
        }
        i = i + 1;
    }
    proof {
        assert(v@.take(i as int) =~= v@);
        lemma_first_pos_bounds(v@, x);
    }
    None
}

/// Appends an index field.
fn push_index(out: &mut String, i: Option<usize>)
    ensures
        final(out)@ == old(out)@ + index_text(match i {
            Some(k) => k as int,
            None => -1,
        }),
{
    match i {
        Some(k) => push_decimal(out, k as u64),
        None => out.append("-1"),
    }
}

fn push_point_index(out: &mut String, pts: &Vec<PointId>, o: Option<PointId>)
    ensures
        final(out)@ == old(out)@ + opt_index_text(pts@, o),
{
    match o {
        Some(p) => push_index(out, point_position(pts, p)),
        None => out.append("-1"),
    }
}

fn push_seg_indices(out: &mut String, segs: &Vec<SegmentId>, list: &Vec<SegmentId>)
    ensures
        final(out)@ == old(out)@ + joined(seg_index_texts(segs@, list@)),
{
    let ghost texts = seg_index_texts(segs@, list@);
    let mut i: usize = 0;
    while i < list.len()
        invariant
            i <= list@.len(),
            texts == seg_index_texts(segs@, list@),
            out@ == old(out)@ + joined(texts.take(i as int)),
        decreases list@.len() - i,
    {
        proof {
            assert(texts.take(i as int + 1).drop_last() =~= texts.take(i as int));
        }
        if i > 0 {
            out.append(",");
        }
        push_index(out, segment_position(segs, list[i]));
        proof {
            if i == 0 {
                assert(texts.take(1) =~= seq![texts[0]]);
            }
            assert(out@ =~= old(out)@ + joined(texts.take(i as int + 1)));
        }
        i = i + 1;
    }
    proof {
        assert(texts.take(i as int) =~= texts);
    }
}

fn push_modes(out: &mut String, modes: &Vec<ContinuityMode>)
    ensures
        final(out)@ == old(out)@ + joined(mode_texts(modes@)),
{
    let ghost texts = mode_texts(modes@);
    let mut i: usize = 0;
    while i < modes.len()
        invariant
            i <= modes@.len(),
            texts == mode_texts(modes@),
            out@ == old(out)@ + joined(texts.take(i as int)),
        decreases modes@.len() - i,
    {
        proof {
            assert(texts.take(i as int + 1).drop_last() =~= texts.take(i as int));
        }
        if i > 0 {
            out.append(",");
        }
        push_decimal(out, modes[i].code() as u64);
        proof {
            if i == 0 {
                assert(texts.take(1) =~= seq![texts[0]]);
            }
            assert(out@ =~= old(out)@ + joined(texts.take(i as int + 1)));
        }
        i = i + 1;
    }
    proof {
        assert(texts.take(i as int) =~= texts);
    }
}

proof fn lemma_handle_texts_len(pts: Seq<PointId>, hs: Seq<(PointId, PointId)>)
    ensures
        handle_texts(pts, hs).len() == 2 * hs.len(),
    decreases hs.len(),
{
    if hs.len() > 0 {
        lemma_handle_texts_len(pts, hs.drop_last());
    }
}

fn push_handles(out: &mut String, pts: &Vec<PointId>, hs: &Vec<(PointId, PointId)>)
    ensures
        final(out)@ == old(out)@ + joined(handle_texts(pts@, hs@)),
{
    let mut i: usize = 0;
    while i < hs.len()
        invariant
            i <= hs@.len(),
            out@ == old(out)@ + joined(handle_texts(pts@, hs@.take(i as int))),
        decreases hs@.len() - i,
    {
        let ghost before = handle_texts(pts@, hs@.take(i as int));
        let (h0, h1) = hs[i];
        proof {
            assert(hs@.take(i as int + 1).drop_last() =~= hs@.take(i as int));
            lemma_handle_texts_len(pts@, hs@.take(i as int));
        }
        let ghost t0 = index_text(first_pos(pts@, h0));
        let ghost t1 = index_text(first_pos(pts@, h1));
        if i > 0 {
            out.append(",");
        }
        push_index(out, point_position(pts, h0));
        out.append(",");
        push_index(out, point_position(pts, h1));
        proof {
            let after = handle_texts(pts@, hs@.take(i as int + 1));
            assert(after == before + seq![t0, t1]);
            assert((before + seq![t0, t1]).drop_last() =~= before.push(t0));
            assert(before.push(t0).drop_last() =~= before);
            assert(joined(after) == joined(before.push(t0)) + ","@ + t1);
            if i == 0 {
                assert(before.len() == 0);
                assert(joined(before.push(t0)) == t0);
            } else {
                assert(joined(before.push(t0)) == joined(before) + ","@ + t0);
            }
            assert(out@ =~= old(out)@ + joined(after));
        }
        i = i + 1;
    }
    proof {
        assert(hs@.take(i as int) =~= hs@);
    }
}

fn index_string(i: Option<usize>) -> (r: String)
    ensures
        r@ == index_text(match i {
            Some(k) => k as int,
            None => -1,
        }),
{
    let mut s = String::new();
    push_index(&mut s, i);
    proof {
        assert(s@ =~= index_text(match i {
            Some(k) => k as int,
            None => -1,
        }));
    }
    s
}

fn point_index_string(pts: &Vec<PointId>, o: Option<PointId>) -> (r: String)
    ensures
        r@ == opt_index_text(pts@, o),
{
    let mut s = String::new();
    push_point_index(&mut s, pts, o);
    proof {
        assert(s@ =~= opt_index_text(pts@, o));
    }
    s
}

/// Appends the items, comma-separated.
fn push_joined(out: &mut String, items: &Vec<String>)
    ensures
        final(out)@ == old(out)@ + joined(items@.map_values(|t: String| t@)),
{
    let ghost texts = items@.map_values(|t: String| t@);
    let mut i: usize = 0;
    while i < items.len()
        invariant
            i <= items@.len(),
            texts == items@.map_values(|t: String| t@),
            out@ == old(out)@ + joined(texts.take(i as int)),
        decreases items@.len() - i,
    {
        proof {
            assert(texts.take(i as int + 1).drop_last() =~= texts.take(i as int));
        }
        if i > 0 {
            out.append(",");
        }
        out.append(items[i].as_str());
        proof {
            if i == 0 {
                assert(texts.take(1) =~= seq![texts[0]]);
            }
            assert(out@ =~= old(out)@ + joined(texts.take(i as int + 1)));
        }
        i = i + 1;
    }
    proof {
        assert(texts.take(i as int) =~= texts);
    }
}

fn push_seg_record(out: &mut String, pts: &Vec<PointId>, g: Segment, stroke: &str)
    ensures
        final(out)@ == old(out)@ + seg_record(pts@, g, stroke@),
{
    let letter = match g.kind {
        SegmentKind::Line => "L",
        SegmentKind::Ruler => "M",
        SegmentKind::Arc => "A",
        SegmentKind::Bezier => "B",
    };
    let mut fields: Vec<String> = Vec::new();
    fields.push(String::from_str(letter));
    fields.push(index_string(point_position(pts, g.start)));
    fields.push(index_string(point_position(pts, g.end)));
    fields.push(String::from_str(stroke));
    fields.push(point_index_string(pts, g.ctrl));
    fields.push(point_index_string(pts, g.center));
    fields.push(point_index_string(pts, g.handle_out));
    fields.push(point_index_string(pts, g.handle_in));
    proof {
        assert(fields@.map_values(|t: String| t@) =~= seg_fields(pts@, g, stroke@));
    }
    out.append("|S:");
    push_joined(out, &fields);
    proof {
        assert(out@ =~= old(out)@ + seg_record(pts@, g, stroke@));
    }
}

fn push_path_record(out: &mut String, pts: &Vec<PointId>, segs: &Vec<SegmentId>, p: &Path)
    ensures
        final(out)@ == old(out)@ + path_record(pts@, segs@, *p),
{
    out.append("|H:");
    if p.closed {
        out.append("1");
    } else {
        out.append("0");
    }
    out.append(":");
    push_seg_indices(out, segs, &p.segments);
    out.append(":");
    push_modes(out, &p.continuity);
    out.append(":");
    push_handles(out, pts, &p.handles);
    proof {
        assert(out@ =~= old(out)@ + path_record(pts@, segs@, *p));
    }
}

impl Editor {
    /// The clipboard text of the selection, or `None` when the selection is
    /// empty or holds no live point. `point_text[i]` is the "x,y" text of
    /// the `i`-th copied point and `stroke_text[j]` the stroke-width text of
    /// the `j`-th copied segment (see `clip_gather`).
    pub fn serialize_selection(&self, point_text: &Vec<String>, stroke_text: &Vec<String>) -> (r: Option<String>)
        requires
            point_text@.len() == gather(self.doc, self.selection@).0.len(),
            stroke_text@.len() == gather(self.doc, self.selection@).1.len(),
        ensures
            r is None <==> (self.selection@.len() == 0 || gather(self.doc, self.selection@).0.len() == 0),
            r matches Some(s) ==> s@ == clip_text(
                self.doc,
                gather(self.doc, self.selection@),
                point_text@.map_values(|t: String| t@),
                stroke_text@.map_values(|t: String| t@),
            ),
    {
        if self.selection.len() == 0 {
            return None;
        }
        let set = self.clip_gather();
        if set.points.len() == 0 {
            return None;
        }
        let ghost g = gather(self.doc, self.selection@);
        proof {
            lemma_gather_live(self.doc, self.selection@);
        }
        let ghost ptext = point_text@.map_values(|t: String| t@);
        let ghost stext = stroke_text@.map_values(|t: String| t@);
        let mut s = String::from_str("parametric/v2");
        let ghost start = s@;
        let mut i: usize = 0;
        while i < point_text.len()
            invariant
                i <= point_text@.len(),
                ptext == point_text@.map_values(|t: String| t@),
                s@ == start + point_records(ptext.take(i as int)),
            decreases point_text@.len() - i,
        {
            proof {
                assert(ptext.take(i as int + 1).drop_last() =~= ptext.take(i as int));
            }
            s.append("|P:");
            s.append(point_text[i].as_str());
            proof {
                assert(s@ =~= start + point_records(ptext.take(i as int + 1)));
            }
            i = i + 1;
        }
        proof {
            assert(ptext.take(i as int) =~= ptext);
        }
        let ghost after_points = s@;
        let mut k: usize = 0;
        while k < set.segments.len()
            invariant
                k <= set.segments@.len(),
                (set.points@, set.segments@, set.fills@, set.paths@) == g,
                g == gather(self.doc, self.selection@),
                stroke_text@.len() == g.1.len(),
                stext == stroke_text@.map_values(|t: String| t@),
                forall|j: int| 0 <= j < set.segments@.len() ==> self.doc.sg(#[trigger] set.segments@[j]) is Some,
                s@ == after_points + seg_records(self.doc, set.points@, set.segments@.take(k as int), stext),
            decreases set.segments@.len() - k,
        {
            proof {
                assert(set.segments@.take(k as int + 1).drop_last() =~= set.segments@.take(k as int));
            }
            let g_seg = self.doc.segment(set.segments[k]).unwrap();
            push_seg_record(&mut s, &set.points, g_seg, stroke_text[k].as_str());
            proof {
                assert(s@ =~= after_points + seg_records(self.doc, set.points@, set.segments@.take(k as int + 1), stext));
            }
            k = k + 1;
        }
        proof {
            assert(set.segments@.take(k as int) =~= set.segments@);
        }
        let ghost after_segs = s@;
        let mut f: usize = 0;
        while f < set.fills.len()
            invariant
                f <= set.fills@.len(),
                (set.points@, set.segments@, set.fills@, set.paths@) == g,
                forall|j: int| 0 <= j < set.fills@.len() ==> self.doc.fl(#[trigger] set.fills@[j]) is Some,
                s@ == after_segs + fill_records(self.doc, set.segments@, set.fills@.take(f as int)),
            decreases set.fills@.len() - f,
        {
            proof {
                assert(set.fills@.take(f as int + 1).drop_last() =~= set.fills@.take(f as int));
            }
            let fill = self.doc.fill(set.fills[f]).unwrap();
            s.append("|F:");
            push_seg_indices(&mut s, &set.segments, &fill.segments);
            proof {
                assert(s@ =~= after_segs + fill_records(self.doc, set.segments@, set.fills@.take(f as int + 1)));
            }
            f = f + 1;
        }
        proof {
            assert(set.fills@.take(f as int) =~= set.fills@);
        }
        let ghost after_fills = s@;
        let mut h: usize = 0;
        while h < set.paths.len()
            invariant
                h <= set.paths@.len(),
                (set.points@, set.segments@, set.fills@, set.paths@) == g,
                forall|j: int| 0 <= j < set.paths@.len() ==> self.doc.ph(#[trigger] set.paths@[j]) is Some,
                s@ == after_fills + path_records(self.doc, set.points@, set.segments@, set.paths@.take(h as int)),
            decreases set.paths@.len() - h,
        {
            proof {
                assert(set.paths@.take(h as int + 1).drop_last() =~= set.paths@.take(h as int));
            }
            let p = self.doc.path(set.paths[h]).unwrap();
            push_path_record(&mut s, &set.points, &set.segments, p);
            proof {
                assert(s@ =~= after_fills + path_records(self.doc, set.points@, set.segments@, set.paths@.take(h as int + 1)));
            }
            h = h + 1;
        }
        proof {
            assert(set.paths@.take(h as int) =~= set.paths@);
        }
        let ghost after_paths = s@;
        let mut c: usize = 0;
        while c < self.doc.constraints.len()
            invariant
                c <= self.doc.constraints@.len(),
                s@ == after_paths + constraint_records(set.points@, set.segments@, self.doc.constraints@.take(c as int)),
            decreases self.doc.constraints@.len() - c,
        {
            proof {
                assert(self.doc.constraints@.take(c as int + 1).drop_last() =~= self.doc.constraints@.take(c as int));
            }
            let con = self.doc.constraints[c];
            let ia = point_position(&set.points, con.a);
            let ib = point_position(&set.points, con.b);
            match (ia, ib) {
                (Some(x), Some(y)) => {
                    s.append("|C:");
                    s.append(con.kind.as_str());
                    s.append(",");
                    push_decimal(&mut s, x as u64);
                    s.append(",");
                    push_decimal(&mut s, y as u64);
                    if let Some((sx, sy)) = con.tangent_segments {
                        match (segment_position(&set.segments, sx), segment_position(&set.segments, sy)) {
                            (Some(i), Some(j)) => {
                                s.append(",");
                                push_decimal(&mut s, i as u64);
                                s.append(",");
                                push_decimal(&mut s, j as u64);
                            },
                            _ => {},
                        }
                    }
                },
                _ => {},
            }
            proof {
                reveal_strlit(",");
                assert(s@ =~= after_paths + constraint_records(set.points@, set.segments@, self.doc.constraints@.take(c as int + 1)));
            }
            c = c + 1;
        }
        proof {
            assert(self.doc.constraints@.take(c as int) =~= self.doc.constraints@);
        }
        Some(s)
    }
}

// ---- pasting ----

/// A pasted segment record: its kind, point fields as indices into the
/// pasted points, and its stroke width's bit pattern.
#[derive(Clone, Copy, Debug, PartialEq, Eq, Structural)]
pub struct ClipSegment {
    pub kind: SegmentKind,
    pub start: usize,
    pub end: usize,
    pub stroke_width_bits: u64,
    pub ctrl: Option<usize>,
    pub center: Option<usize>,
    pub handle_out: Option<usize>,
    pub handle_in: Option<usize>,
}

/// A pasted path record: segment fields as indices into the pasted
/// segments, handle fields as indices into the pasted points (two per
/// anchor).
#[derive(Clone, Debug)]
pub struct ClipPath {
    pub closed: bool,
    pub segments: Vec<usize>,
    pub continuity: Vec<ContinuityMode>,
    pub handles: Vec<usize>,
}

/// A decoded clipboard, with the point positions already offset and
/// clamped for pasting.
pub struct ClipPayload {
    pub points: Vec<PointPos>,
    pub segments: Vec<ClipSegment>,
    pub fills: Vec<Vec<usize>>,
    pub paths: Vec<ClipPath>,
    pub constraints: Vec<crate::clip_parse::ConRec>,
}

/// The segment a record yields over the pasted point ids, or `None` when a
/// point field it needs does not resolve. Rulers and beziers paste
/// unstroked.
pub open spec fn seg_value(cs: ClipSegment, ids: Seq<PointId>) -> Option<Segment> {
    if cs.start < ids.len() && cs.end < ids.len() {
        let (sp, ep) = (ids[cs.start as int], ids[cs.end as int]);
        match cs.kind {
            SegmentKind::Line => Some(line_seg(sp, ep, SegmentKind::Line, cs.stroke_width_bits)),
            SegmentKind::Ruler => Some(line_seg(sp, ep, SegmentKind::Ruler, 0)),
            SegmentKind::Arc => match (cs.ctrl, cs.center) {
                (Some(c), Some(e)) => if c < ids.len() && e < ids.len() {
                    Some(Segment {
                        start: sp,
                        end: ep,
                        kind: SegmentKind::Arc,
                        stroke_width_bits: 0,
                        ctrl: Some(ids[c as int]),
                        center: Some(ids[e as int]),
                        handle_out: None,
                        handle_in: None,
                    })
                } else {
                    None
                },
                _ => None,
            },
            SegmentKind::Bezier => match (cs.handle_out, cs.handle_in) {
                (Some(h0), Some(h1)) => if h0 < ids.len() && h1 < ids.len() {
                    Some(Segment {
                        start: sp,
                        end: ep,
                        kind: SegmentKind::Bezier,
                        stroke_width_bits: 0,
                        ctrl: None,
                        center: None,
                        handle_out: Some(ids[h0 as int]),
                        handle_in: Some(ids[h1 as int]),
                    })
                } else {
                    None
                },
                _ => None,
            },
        }
    } else {
        None
    }
}

/// The segments the records yield, in order, skipping unresolvable ones.
pub open spec fn seg_values(specs: Seq<ClipSegment>, ids: Seq<PointId>) -> Seq<Segment>
    decreases specs.len(),
{
    if specs.len() == 0 {
        seq![]
    } else {
        let pre = seg_values(specs.drop_last(), ids);
        match seg_value(specs.last(), ids) {
            Some(g) => pre.push(g),
            None => pre,
        }
    }
}

/// The entries of `list` that index `segs`, mapped to those segments.
pub open spec fn resolve_segs(list: Seq<usize>, segs: Seq<SegmentId>) -> Seq<SegmentId>
    decreases list.len(),
{
    if list.len() == 0 {
        seq![]
    } else {
        let pre = resolve_segs(list.drop_last(), segs);
        if list.last() < segs.len() { pre.push(segs[list.last() as int]) } else { pre }
    }
}

/// The loops of the fill records resolving to three segments or more.
pub open spec fn fill_lists(fills: Seq<Seq<usize>>, segs: Seq<SegmentId>) -> Seq<Seq<SegmentId>>
    decreases fills.len(),
{
    if fills.len() == 0 {
        seq![]
    } else {
        let pre = fill_lists(fills.drop_last(), segs);
        let l = resolve_segs(fills.last(), segs);
        if l.len() >= 3 { pre.push(l) } else { pre }
    }
}

/// The path records resolving to at least one segment, as (closed,
/// segments, continuity, handle indices).
pub open spec fn path_entries(paths: Seq<ClipPath>, segs: Seq<SegmentId>)
    -> Seq<(bool, Seq<SegmentId>, Seq<ContinuityMode>, Seq<usize>)>
    decreases paths.len(),
{
    if paths.len() == 0 {
        seq![]
    } else {
        let pre = path_entries(paths.drop_last(), segs);
        let p = paths.last();
        let l = resolve_segs(p.segments@, segs);
        if l.len() > 0 { pre.push((p.closed, l, p.continuity@, p.handles@)) } else { pre }
    }
}

/// Handle pairs for the anchors: field `2i + k` names the pasted point of
/// handle `k` of anchor `i`; a missing or unresolvable field collapses
/// onto the anchor.
pub open spec fn paste_pairs(handles: Seq<usize>, ids: Seq<PointId>, anchors: Seq<PointId>) -> Seq<(PointId, PointId)> {
    Seq::new(anchors.len(), |i: int| (
        if 2 * i < handles.len() && handles[2 * i] < ids.len() { ids[handles[2 * i] as int] } else { anchors[i] },
        if 2 * i + 1 < handles.len() && handles[2 * i + 1] < ids.len() { ids[handles[2 * i + 1] as int] } else { anchors[i] },
    ))
}

/// The segment pair a pasted constraint carries: its two segment fields'
/// pasted segments, when both resolve.
pub open spec fn pasted_pair(pair: Option<(usize, usize)>, sids: Seq<SegmentId>) -> Option<(SegmentId, SegmentId)> {
    match pair {
        Some((i, j)) => if i < sids.len() && j < sids.len() { Some((sids[i as int], sids[j as int])) } else { None },
        None => None,
    }
}

/// The constraints of `cs` with both point fields resolving, added in
/// turn (unless an equal one is stored), with their segment pair when it
/// resolves.
pub open spec fn pasted_constraints(
    acc: Seq<crate::constraints::Constraint>,
    cs: Seq<crate::clip_parse::ConRec>,
    ids: Seq<PointId>,
    sids: Seq<SegmentId>,
)
    -> Seq<crate::constraints::Constraint>
    decreases cs.len(),
{
    if cs.len() == 0 {
        acc
    } else {
        let pre = pasted_constraints(acc, cs.drop_last(), ids, sids);
        let (k, a, b, pair) = cs.last();
        if a < ids.len() && b < ids.len() {
            with_constraint(pre, crate::constraints::Constraint {
                kind: k,
                a: ids[a as int],
                b: ids[b as int],
                tangent_segments: pasted_pair(pair, sids),
                point_on_segment: None,
            })
        } else {
            pre
        }
    }
}

pub open spec fn list_views(v: Seq<Vec<SegmentId>>) -> Seq<Seq<SegmentId>> {
    v.map_values(|l: Vec<SegmentId>| l@)
}

pub open spec fn index_lists(v: Seq<Vec<usize>>) -> Seq<Seq<usize>> {
    v.map_values(|l: Vec<usize>| l@)
}

/// `steps` insert one fill per list of `lists`, under `ids`.
pub open spec fn fill_chain(steps: Seq<Arena<Fill>>, ids: Seq<FillId>, lists: Seq<Seq<SegmentId>>) -> bool {
    &&& steps.len() == ids.len() + 1
    &&& lists.len() == ids.len()
    &&& forall|k: int| 0 <= k < ids.len() ==> {
        let v = (#[trigger] steps[k + 1]).slots@[ids[k].idx as int].value.unwrap();
        &&& Arena::inserted(steps[k], steps[k + 1], (ids[k].idx, ids[k].generation), v)
        &&& v.segments@ == lists[k]
    }
}

/// `steps` insert one path per entry, under `ids`, anchored in `d`.
pub open spec fn path_chain(
    steps: Seq<Arena<Path>>,
    ids: Seq<PathId>,
    entries: Seq<(bool, Seq<SegmentId>, Seq<ContinuityMode>, Seq<usize>)>,
    d: Document,
    pts: Seq<PointId>,
) -> bool {
    &&& steps.len() == ids.len() + 1
    &&& entries.len() == ids.len()
    &&& forall|k: int| 0 <= k < ids.len() ==> {
        let v = (#[trigger] steps[k + 1]).slots@[ids[k].idx as int].value.unwrap();
        let e = entries[k];
        let anchors = d.lenient_anchors(e.1, e.0);
        &&& Arena::inserted(steps[k], steps[k + 1], (ids[k].idx, ids[k].generation), v)
        &&& v.segments@ == e.1
        &&& v.closed == e.0
        &&& v.continuity@ == fit_modes(e.2, anchors.len())
        &&& v.handles@ == paste_pairs(e.3, pts, anchors)
    }
}

pub open spec fn point_refs(p: Seq<PointId>) -> Seq<ElementRef> {
    p.map_values(|x: PointId| ElementRef::Point(x))
}

pub open spec fn segment_refs(s: Seq<SegmentId>) -> Seq<ElementRef> {
    s.map_values(|x: SegmentId| ElementRef::Segment(x))
}

pub open spec fn fill_refs(s: Seq<FillId>) -> Seq<ElementRef> {
    s.map_values(|x: FillId| ElementRef::Fill(x))
}

pub open spec fn path_refs(s: Seq<PathId>) -> Seq<ElementRef> {
    s.map_values(|x: PathId| ElementRef::Path(x))
}

impl Editor {
    /// `b` is `a` after pasting a non-empty payload: points, segments,
    /// fills and paths added in order under the ids `pids`, `sids`, `fids`,
    /// `qids`; constraints added; everything appended to the first layer;
    /// the pasted segments, fills and paths selected (the points when
    /// there are none).
    pub open spec fn pasted(
        a: Editor,
        b: Editor,
        points: Seq<PointPos>,
        segs: Seq<ClipSegment>,
        fills: Seq<Seq<usize>>,
        paths: Seq<ClipPath>,
        cons: Seq<crate::clip_parse::ConRec>,
        pids: Seq<PointId>,
        sids: Seq<SegmentId>,
        fids: Seq<FillId>,
        qids: Seq<PathId>,
    ) -> bool {
        let picked = segment_refs(sids) + fill_refs(fids) + path_refs(qids);
        &&& pids.len() == points.len()
        &&& chain_from(a.doc.points, b.doc.points, point_ids(pids), points)
        &&& chain_from(a.doc.segments, b.doc.segments, segment_ids(sids), seg_values(segs, pids))
        &&& exists|st: Seq<Arena<Fill>>| #[trigger] fill_chain(st, fids, fill_lists(fills, sids)) && st[0] == a.doc.fills
            && st.last() == b.doc.fills
        &&& exists|st: Seq<Arena<Path>>| #[trigger] path_chain(st, qids, path_entries(paths, sids), b.doc, pids)
            && st[0] == a.doc.paths && st.last() == b.doc.paths
        &&& b.doc.constraints@ == pasted_constraints(a.doc.constraints@, cons, pids, sids)
        &&& layers_pushed(a.doc.layers@, b.doc.layers@, a.doc.layers@[0].id,
            point_refs(pids) + segment_refs(sids) + fill_refs(fids) + path_refs(qids))
        &&& b.doc.settings == a.doc.settings
        &&& b.doc.dimensions == a.doc.dimensions
        &&& b.selection@ == (if picked.len() > 0 { picked } else { point_refs(pids) })
        &&& Editor::keeps_session(a, b)
    }
}

fn seg_of(cs: ClipSegment, ids: &Vec<PointId>) -> (r: Option<Segment>)
    ensures
        r == seg_value(cs, ids@),
{
    if cs.start >= ids.len() || cs.end >= ids.len() {
        return None;
    }
    let sp = ids[cs.start];
    let ep = ids[cs.end];
    match cs.kind {
        SegmentKind::Line => Some(Segment {
            start: sp,
            end: ep,
            kind: SegmentKind::Line,
            stroke_width_bits: cs.stroke_width_bits,
            ctrl: None,
            center: None,
            handle_out: None,
            handle_in: None,
        }),
        SegmentKind::Ruler => Some(Segment {
            start: sp,
            end: ep,
            kind: SegmentKind::Ruler,
            stroke_width_bits: 0,
            ctrl: None,
            center: None,
            handle_out: None,
            handle_in: None,
        }),
        SegmentKind::Arc => match (cs.ctrl, cs.center) {
            (Some(c), Some(e)) => {
                if c < ids.len() && e < ids.len() {
                    Some(Segment {
                        start: sp,
                        end: ep,
                        kind: SegmentKind::Arc,
                        stroke_width_bits: 0,
                        ctrl: Some(ids[c]),
                        center: Some(ids[e]),
                        handle_out: None,
                        handle_in: None,
                    })
                } else {
                    None
                }
            },
            _ => None,
        },
        SegmentKind::Bezier => match (cs.handle_out, cs.handle_in) {
            (Some(h0), Some(h1)) => {
                if h0 < ids.len() && h1 < ids.len() {
                    Some(Segment {
                        start: sp,
                        end: ep,
                        kind: SegmentKind::Bezier,
                        stroke_width_bits: 0,
                        ctrl: None,
                        center: None,
                        handle_out: Some(ids[h0]),
                        handle_in: Some(ids[h1]),
                    })
                } else {
                    None
                }
            },
            _ => None,
        },
    }
}

proof fn lemma_seg_values_len(specs: Seq<ClipSegment>, ids: Seq<PointId>)
    ensures
        seg_values(specs, ids).len() <= specs.len(),
    decreases specs.len(),
{
    if specs.len() > 0 {
        lemma_seg_values_len(specs.drop_last(), ids);
    }
}

proof fn lemma_fill_lists_len(fills: Seq<Seq<usize>>, segs: Seq<SegmentId>)
    ensures
        fill_lists(fills, segs).len() <= fills.len(),
    decreases fills.len(),
{
    if fills.len() > 0 {
        lemma_fill_lists_len(fills.drop_last(), segs);
    }
}

proof fn lemma_path_entries_len(paths: Seq<ClipPath>, segs: Seq<SegmentId>)
    ensures
        path_entries(paths, segs).len() <= paths.len(),
    decreases paths.len(),
{
    if paths.len() > 0 {
        lemma_path_entries_len(paths.drop_last(), segs);
    }
}

fn resolve_list(list: &Vec<usize>, segs: &Vec<SegmentId>) -> (r: Vec<SegmentId>)
    ensures
        r@ == resolve_segs(list@, segs@),
{
    let mut out: Vec<SegmentId> = Vec::new();
    let mut i: usize = 0;
    while i < list.len()
        invariant
            i <= list@.len(),
            out@ == resolve_segs(list@.take(i as int), segs@),
        decreases list@.len() - i,
    {
        proof {
            assert(list@.take(i as int + 1).drop_last() =~= list@.take(i as int));
        }
        let k = list[i];
        if k < segs.len() {
            out.push(segs[k]);
        }
        i = i + 1;
    }
    proof {
        assert(list@.take(i as int) =~= list@);
    }
    out
}

fn pairs_for(handles: &Vec<usize>, ids: &Vec<PointId>, anchors: &Vec<PointId>) -> (r: Vec<(PointId, PointId)>)
    ensures
        r@ == paste_pairs(handles@, ids@, anchors@),
{
    let mut out: Vec<(PointId, PointId)> = Vec::new();
    let mut i: usize = 0;
    while i < anchors.len()
        invariant
            i <= anchors@.len(),
            out@.len() == i,
            forall|j: int| 0 <= j < i ==> #[trigger] out@[j] == paste_pairs(handles@, ids@, anchors@)[j],
        decreases anchors@.len() - i,
    {
        let a = anchors[i];
        let k: u128 = 2 * (i as u128);
        let n: u128 = handles.len() as u128;
        let h0 = if k < n && handles[k as usize] < ids.len() { ids[handles[k as usize]] } else { a };
        let h1 = if k + 1 < n && handles[(k + 1) as usize] < ids.len() { ids[handles[(k + 1) as usize]] } else { a };
        let ghost prev = out@;
        out.push((h0, h1));
        proof {
            let hs = handles@;
            let ii = i as int;
            assert(h0 == (if 2 * ii < hs.len() && hs[2 * ii] < ids@.len() { ids@[hs[2 * ii] as int] } else { anchors@[ii] }));
            assert(h1 == (if 2 * ii + 1 < hs.len() && hs[2 * ii + 1] < ids@.len() { ids@[hs[2 * ii + 1] as int] } else { anchors@[ii] }));
            assert(out@[i as int] == paste_pairs(handles@, ids@, anchors@)[i as int]);
            assert forall|j: int| 0 <= j < i + 1 implies #[trigger] out@[j] == paste_pairs(handles@, ids@, anchors@)[j] by {
                if j < i {
                    assert(out@[j] == prev[j]);
                }
            }
        }
        i = i + 1;
    }
    proof {
        assert(out@ =~= paste_pairs(handles@, ids@, anchors@));
    }
    out
}

proof fn lemma_lenient_starts_frame(d1: Document, d2: Document, segs: Seq<SegmentId>)
    requires
        d1.segments == d2.segments,
    ensures
        d1.lenient_starts(segs) == d2.lenient_starts(segs),
    decreases segs.len(),
{
    if segs.len() > 0 {
        lemma_lenient_starts_frame(d1, d2, segs.drop_last());
    }
}

proof fn lemma_path_chain_frame(
    steps: Seq<Arena<Path>>,
    ids: Seq<PathId>,
    entries: Seq<(bool, Seq<SegmentId>, Seq<ContinuityMode>, Seq<usize>)>,
    d1: Document,
    d2: Document,
    pts: Seq<PointId>,
)
    requires
        path_chain(steps, ids, entries, d1, pts),
        d1.segments == d2.segments,
    ensures
        path_chain(steps, ids, entries, d2, pts),
{
    assert forall|k: int| 0 <= k < ids.len() implies {
        let v = (#[trigger] steps[k + 1]).slots@[ids[k].idx as int].value.unwrap();
        let e = entries[k];
        let anchors = d2.lenient_anchors(e.1, e.0);
        &&& Arena::inserted(steps[k], steps[k + 1], (ids[k].idx, ids[k].generation), v)
        &&& v.segments@ == e.1
        &&& v.closed == e.0
        &&& v.continuity@ == fit_modes(e.2, anchors.len())
        &&& v.handles@ == paste_pairs(e.3, pts, anchors)
    } by {
        let e = entries[k];
        lemma_lenient_starts_frame(d1, d2, e.1);
        assert(d1.lenient_anchors(e.1, e.0) == d2.lenient_anchors(e.1, e.0));
    }
}

impl Document {
    /// Stores one fill per loop, in order.
    fn add_fills(&mut self, lists: &Vec<Vec<SegmentId>>) -> (r: Vec<FillId>)
        requires
            old(self).wf(),
            old(self).fills.slots@.len() + lists@.len() <= crate::ids::NONE_IDX,
        ensures
            final(self).wf(),
            exists|st: Seq<Arena<Fill>>| #[trigger] fill_chain(st, r@, list_views(lists@))
                && st[0] == old(self).fills && st.last() == final(self).fills,
            final(self).points == old(self).points,
            final(self).segments == old(self).segments,
            final(self).paths == old(self).paths,
            final(self).layers == old(self).layers,
            final(self).same_records(old(self)),
    {
        let ghost want = list_views(lists@);
        let ghost mut steps: Seq<Arena<Fill>> = seq![self.fills];
        let mut out: Vec<FillId> = Vec::new();
        let mut i: usize = 0;
        while i < lists.len()
            invariant
                i <= lists@.len(),
                out@.len() == i,
                want == list_views(lists@),
                self.wf(),
                self.fills.slots@.len() <= old(self).fills.slots@.len() + i,
                old(self).fills.slots@.len() + lists@.len() <= crate::ids::NONE_IDX,
                steps[0] == old(self).fills,
                steps.last() == self.fills,
                fill_chain(steps, out@, want.take(i as int)),
                self.points == old(self).points,
                self.segments == old(self).segments,
                self.paths == old(self).paths,
                self.layers == old(self).layers,
                self.same_records(old(self)),
            decreases lists@.len() - i,
        {
            let ghost before = steps;
            let id = self.add_fill(crate::duplicate::copy_vec(&lists[i]));
            out.push(id);
            proof {
                steps = steps.push(self.fills);
                assert(want.take(i as int + 1) =~= want.take(i as int).push(want[i as int]));
                assert forall|k: int| 0 <= k < i + 1 implies {
                    let v = (#[trigger] steps[k + 1]).slots@[out@[k].idx as int].value.unwrap();
                    &&& Arena::inserted(steps[k], steps[k + 1], (out@[k].idx, out@[k].generation), v)
                    &&& v.segments@ == want.take(i as int + 1)[k]
                } by {
                    if k < i {
                        assert(steps[k] == before[k] && steps[k + 1] == before[k + 1]);
                    }
                }
            }
            i = i + 1;
        }
        proof {
            assert(want.take(i as int) =~= want);
        }
        out
    }
}

impl Editor {
    /// Pastes a decoded clipboard: adds its points, the segments whose
    /// point fields resolve, the fills resolving to at least three
    /// segments, the paths resolving to at least one, and the constraints
    /// whose points resolve; appends all of it to the first layer and
    /// selects the pasted segments, fills and paths (the points when there
    /// are none). Nothing happens, and `false` comes back, for a payload
    /// without points.
    pub fn paste_payload(&mut self, payload: &ClipPayload) -> (r: bool)
        requires
            old(self).wf(),
            payload.points@.len() > 0 ==> {
                &&& old(self).doc.layers@.len() > 0
                &&& old(self).doc.points.slots@.len() + payload.points@.len() <= crate::ids::NONE_IDX
                &&& old(self).doc.segments.slots@.len() + payload.segments@.len() <= crate::ids::NONE_IDX
                &&& old(self).doc.fills.slots@.len() + payload.fills@.len() <= crate::ids::NONE_IDX
                &&& old(self).doc.paths.slots@.len() + payload.paths@.len() <= crate::ids::NONE_IDX
            },
        ensures
            final(self).wf(),
            r == (payload.points@.len() > 0),
            !r ==> *final(self) == *old(self),
            r ==> exists|pids: Seq<PointId>, sids: Seq<SegmentId>, fids: Seq<FillId>, qids: Seq<PathId>|
                #[trigger] Editor::pasted(*old(self), *final(self), payload.points@, payload.segments@,
                    index_lists(payload.fills@), payload.paths@, payload.constraints@, pids, sids, fids, qids),
    {
        if payload.points.len() == 0 {
            return false;
        }
        let ghost a = *self;
        let layer_id = self.doc.layers[0].id;
        let ids = self.doc.add_points(&payload.points);
        // segments
        let mut vals: Vec<Segment> = Vec::new();
        let mut i: usize = 0;
        while i < payload.segments.len()
            invariant
                i <= payload.segments@.len(),
                vals@ == seg_values(payload.segments@.take(i as int), ids@),
            decreases payload.segments@.len() - i,
        {
            proof {
                assert(payload.segments@.take(i as int + 1).drop_last() =~= payload.segments@.take(i as int));
            }
            match seg_of(payload.segments[i], &ids) {
                Some(g) => vals.push(g),
                None => {},
            }
            i = i + 1;
        }
        proof {
            assert(payload.segments@.take(i as int) =~= payload.segments@);
            lemma_seg_values_len(payload.segments@, ids@);
        }
        let sids = self.doc.add_segments(&vals);
        // fills
        let ghost fill_specs = index_lists(payload.fills@);
        let mut lists: Vec<Vec<SegmentId>> = Vec::new();
        let mut i: usize = 0;
        while i < payload.fills.len()
            invariant
                i <= payload.fills@.len(),
                fill_specs == index_lists(payload.fills@),
                list_views(lists@) == fill_lists(fill_specs.take(i as int), sids@),
            decreases payload.fills@.len() - i,
        {
            proof {
                assert(fill_specs.take(i as int + 1).drop_last() =~= fill_specs.take(i as int));
            }
            let l = resolve_list(&payload.fills[i], &sids);
            if l.len() >= 3 {
                let ghost prev = lists@;
                lists.push(l);
                proof {
                    assert(list_views(lists@) =~= list_views(prev).push(l@));
                }
            }
            i = i + 1;
        }
        proof {
            assert(fill_specs.take(i as int) =~= fill_specs);
            lemma_fill_lists_len(fill_specs, sids@);
        }
        let fids = self.doc.add_fills(&lists);
        // paths
        let ghost d_paths = self.doc;
        let ghost entries = path_entries(payload.paths@, sids@);
        let ghost mut psteps: Seq<Arena<Path>> = seq![self.doc.paths];
        let mut qids: Vec<PathId> = Vec::new();
        let mut i: usize = 0;
        proof {
            lemma_path_entries_len(payload.paths@, sids@);
        }
        while i < payload.paths.len()
            invariant
                i <= payload.paths@.len(),
                self.wf(),
                self.doc.paths.slots@.len() <= d_paths.paths.slots@.len() + qids@.len(),
                qids@.len() == path_entries(payload.paths@.take(i as int), sids@).len(),
                path_entries(payload.paths@.take(i as int), sids@).len() <= i,
                d_paths.paths.slots@.len() + payload.paths@.len() <= crate::ids::NONE_IDX,
                psteps[0] == d_paths.paths,
                psteps.last() == self.doc.paths,
                path_chain(psteps, qids@, path_entries(payload.paths@.take(i as int), sids@), self.doc, ids@),
                self.doc.points == d_paths.points,
                self.doc.segments == d_paths.segments,
                self.doc.fills == d_paths.fills,
                self.doc.layers == d_paths.layers,
                self.doc.same_records(&d_paths),
                Editor::keeps_session(a, *self),
                self.selection == a.selection,
            decreases payload.paths@.len() - i,
        {
            proof {
                assert(payload.paths@.take(i as int + 1).drop_last() =~= payload.paths@.take(i as int));
                lemma_path_entries_len(payload.paths@.take(i as int), sids@);
            }
            let cp = &payload.paths[i];
            let segs = resolve_list(&cp.segments, &sids);
            if segs.len() > 0 {
                let anchors = self.doc.lenient_anchor_list(&segs, cp.closed);
                let pairs = pairs_for(&cp.handles, &ids, &anchors);
                let ghost before = psteps;
                let ghost dprev = self.doc;
                let q = self.doc.add_path(segs, cp.closed, crate::duplicate::copy_vec(&cp.continuity), pairs);
                qids.push(q);
                proof {
                    lemma_path_chain_frame(before, qids@.drop_last(), path_entries(payload.paths@.take(i as int), sids@), dprev, self.doc, ids@);
                    psteps = psteps.push(self.doc.paths);
                    let es = path_entries(payload.paths@.take(i as int + 1), sids@);
                    assert(es == path_entries(payload.paths@.take(i as int), sids@).push((cp.closed, segs@, cp.continuity@, cp.handles@)));
                    assert forall|k: int| 0 <= k < qids@.len() implies {
                        let v = (#[trigger] psteps[k + 1]).slots@[qids@[k].idx as int].value.unwrap();
                        let e = es[k];
                        let anchors = self.doc.lenient_anchors(e.1, e.0);
                        &&& Arena::inserted(psteps[k], psteps[k + 1], (qids@[k].idx, qids@[k].generation), v)
                        &&& v.segments@ == e.1
                        &&& v.closed == e.0
                        &&& v.continuity@ == fit_modes(e.2, anchors.len())
                        &&& v.handles@ == paste_pairs(e.3, ids@, anchors)
                    } by {
                        if k < qids@.len() - 1 {
                            assert(psteps[k] == before[k] && psteps[k + 1] == before[k + 1]);
                            assert(qids@[k] == qids@.drop_last()[k]);
                        } else {
                            lemma_lenient_starts_frame(dprev, self.doc, segs@);
                            assert(fit_handles(pairs@, anchors@) =~= pairs@);
                        }
                    }
                    assert(path_chain(psteps, qids@, es, self.doc, ids@));
                }
            }
            i = i + 1;
        }
        proof {
            assert(payload.paths@.take(i as int) =~= payload.paths@);
        }
        // constraints
        let mut c: usize = 0;
        let ghost d_cons = self.doc;
        let ghost qsteps = psteps;
        while c < payload.constraints.len()
            invariant
                c <= payload.constraints@.len(),
                self.doc.constraints@ == pasted_constraints(d_cons.constraints@, payload.constraints@.take(c as int), ids@, sids@),
                self.doc.same_geometry(&d_cons),
                self.doc.layers == d_cons.layers,
                self.doc.settings == d_cons.settings,
                self.doc.dimensions == d_cons.dimensions,
                Editor::keeps_session(a, *self),
                self.selection == a.selection,
            decreases payload.constraints@.len() - c,
        {
            proof {
                assert(payload.constraints@.take(c as int + 1).drop_last() =~= payload.constraints@.take(c as int));
            }
            let (k, x, y, pair) = payload.constraints[c];
            if x < ids.len() && y < ids.len() {
                let tangent_segments = match pair {
                    Some((i, j)) => if i < sids.len() && j < sids.len() { Some((sids[i], sids[j])) } else { None },
                    None => None,
                };
                self.doc.push_constraint_new(crate::constraints::Constraint {
                    kind: k,
                    a: ids[x],
                    b: ids[y],
                    tangent_segments,
                    point_on_segment: None,
                });
            }
            c = c + 1;
        }
        proof {
            assert(payload.constraints@.take(c as int) =~= payload.constraints@);
        }
        // layer entries and selection
        let mut els: Vec<ElementRef> = Vec::new();
        let mut sel: Vec<ElementRef> = Vec::new();
        let mut k: usize = 0;
        while k < ids.len()
            invariant
                k <= ids@.len(),
                els@ == point_refs(ids@.take(k as int)),
            decreases ids@.len() - k,
        {
            els.push(ElementRef::Point(ids[k]));
            proof {
                assert(point_refs(ids@.take(k as int + 1)) =~= point_refs(ids@.take(k as int)).push(ElementRef::Point(ids@[k as int])));
            }
            k = k + 1;
        }
        let ghost e0 = els@;
        let mut k: usize = 0;
        while k < sids.len()
            invariant
                k <= sids@.len(),
                els@ == e0 + segment_refs(sids@.take(k as int)),
                sel@ == segment_refs(sids@.take(k as int)),
            decreases sids@.len() - k,
        {
            els.push(ElementRef::Segment(sids[k]));
            sel.push(ElementRef::Segment(sids[k]));
            proof {
                assert(segment_refs(sids@.take(k as int + 1)) =~= segment_refs(sids@.take(k as int)).push(ElementRef::Segment(sids@[k as int])));
            }
            k = k + 1;
        }
        let ghost e1 = els@;
        let ghost s1 = sel@;
        let mut k: usize = 0;
        while k < fids.len()
            invariant
                k <= fids@.len(),
                els@ == e1 + fill_refs(fids@.take(k as int)),
                sel@ == s1 + fill_refs(fids@.take(k as int)),
            decreases fids@.len() - k,
        {
            els.push(ElementRef::Fill(fids[k]));
            sel.push(ElementRef::Fill(fids[k]));
            proof {
                assert(fill_refs(fids@.take(k as int + 1)) =~= fill_refs(fids@.take(k as int)).push(ElementRef::Fill(fids@[k as int])));
            }
            k = k + 1;
        }
        let ghost e2 = els@;
        let ghost s2 = sel@;
        let mut k: usize = 0;
        while k < qids.len()
            invariant
                k <= qids@.len(),
                els@ == e2 + path_refs(qids@.take(k as int)),
                sel@ == s2 + path_refs(qids@.take(k as int)),
            decreases qids@.len() - k,
        {
            els.push(ElementRef::Path(qids[k]));
            sel.push(ElementRef::Path(qids[k]));
            proof {
                assert(path_refs(qids@.take(k as int + 1)) =~= path_refs(qids@.take(k as int)).push(ElementRef::Path(qids@[k as int])));
            }
            k = k + 1;
        }
        proof {
            assert(ids@.take(ids@.len() as int) =~= ids@);
            assert(sids@.take(sids@.len() as int) =~= sids@);
            assert(fids@.take(fids@.len() as int) =~= fids@);
            assert(qids@.take(qids@.len() as int) =~= qids@);
            assert(els@ =~= point_refs(ids@) + segment_refs(sids@) + fill_refs(fids@) + path_refs(qids@));
            assert(sel@ =~= segment_refs(sids@) + fill_refs(fids@) + path_refs(qids@));
        }
        self.doc.push_all_to_layer(layer_id, &els);
        if sel.len() == 0 {
            let mut k: usize = 0;
            while k < ids.len()
                invariant
                    k <= ids@.len(),
                    sel@ == point_refs(ids@.take(k as int)),
                decreases ids@.len() - k,
            {
                sel.push(ElementRef::Point(ids[k]));
                proof {
                    assert(point_refs(ids@.take(k as int + 1)) =~= point_refs(ids@.take(k as int)).push(ElementRef::Point(ids@[k as int])));
                }
                k = k + 1;
            }
            proof {
                assert(ids@.take(k as int) =~= ids@);
            }
        }
        self.selection = sel;
        proof {
            lemma_path_chain_frame(qsteps, qids@, path_entries(payload.paths@, sids@), d_cons, self.doc, ids@);
            assert(Editor::pasted(a, *self, payload.points@, payload.segments@, fill_specs, payload.paths@,
                payload.constraints@, ids@, sids@, fids@, qids@));
        }
        true
    }
}

/// A pasted segment record yields a segment exactly when its point fields
/// resolve (an arc needing its control and center, a bezier its two
/// handles); the segment runs between the fresh ids of its start and end
/// indices, keeps the record's kind, and a line keeps the record's stroke
/// width while the other kinds paste unstroked.
pub proof fn law_pasted_segment_follows_record(cs: ClipSegment, ids: Seq<PointId>)
    ensures
        ({
            let ok = |i: usize| i < ids.len();
            let resolves = ok(cs.start) && ok(cs.end) && match cs.kind {
                SegmentKind::Arc => cs.ctrl is Some && cs.center is Some && ok(cs.ctrl.unwrap()) && ok(cs.center.unwrap()),
                SegmentKind::Bezier => cs.handle_out is Some && cs.handle_in is Some && ok(cs.handle_out.unwrap())
                    && ok(cs.handle_in.unwrap()),
                _ => true,
            };
            &&& (seg_value(cs, ids) is Some) == resolves
            &&& resolves ==> {
                let g = seg_value(cs, ids).unwrap();
                &&& g.start == ids[cs.start as int]
                &&& g.end == ids[cs.end as int]
                &&& g.kind == cs.kind
                &&& g.stroke_width_bits == (if cs.kind == SegmentKind::Line { cs.stroke_width_bits } else { 0 })
                &&& cs.kind == SegmentKind::Arc ==> g.ctrl == Some(ids[cs.ctrl.unwrap() as int])
                    && g.center == Some(ids[cs.center.unwrap() as int])
                &&& cs.kind == SegmentKind::Bezier ==> g.handle_out == Some(ids[cs.handle_out.unwrap() as int])
                    && g.handle_in == Some(ids[cs.handle_in.unwrap() as int])
            }
        }),
{
}

/// Pasting records that all resolve yields one segment per record, in
/// order, each following its record: the pasted lines keep their stroke
/// widths.
pub proof fn law_pasted_segments_follow_records(specs: Seq<ClipSegment>, ids: Seq<PointId>)
    requires
        forall|k: int| 0 <= k < specs.len() ==> seg_value(#[trigger] specs[k], ids) is Some,
    ensures
        seg_values(specs, ids).len() == specs.len(),
        forall|k: int| 0 <= k < specs.len() ==> {
            let (g, cs) = (#[trigger] seg_values(specs, ids)[k], specs[k]);
            &&& g.start == ids[cs.start as int]
            &&& g.end == ids[cs.end as int]
            &&& g.kind == cs.kind
            &&& g.stroke_width_bits == (if cs.kind == SegmentKind::Line { cs.stroke_width_bits } else { 0 })
        },
    decreases specs.len(),
{
    if specs.len() > 0 {
        let t = specs.drop_last();
        assert forall|k: int| 0 <= k < t.len() implies seg_value(#[trigger] t[k], ids) is Some by {
            assert(t[k] == specs[k]);
        }
        law_pasted_segments_follow_records(t, ids);
        law_pasted_segment_follows_record(specs.last(), ids);
        assert forall|k: int| 0 <= k < specs.len() implies {
            let (g, cs) = (#[trigger] seg_values(specs, ids)[k], specs[k]);
            &&& g.start == ids[cs.start as int]
            &&& g.end == ids[cs.end as int]
            &&& g.kind == cs.kind
            &&& g.stroke_width_bits == (if cs.kind == SegmentKind::Line { cs.stroke_width_bits } else { 0 })
        } by {
            if k < t.len() {
                assert(specs[k] == t[k]);
                assert(seg_values(t, ids)[k] == seg_values(specs, ids)[k]);
            } else {
                law_pasted_segment_follows_record(specs[k], ids);
            }
        }
    }
}

} // verus!
