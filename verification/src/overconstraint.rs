//! Over-constraint explanations: the existing locks touching the geometry a
//! rejected operation tried to move, as short labelled chips, and the
//! title of each rejection.

use vstd::prelude::*;
use crate::constraints::{Constraint, ConstraintKind, DimMode, DimTarget, Dimension};
use crate::editor::Editor;
use crate::links::lock_of;
use crate::document::{contains_point, Document};
use crate::ids::{PointId, SegmentId};
use crate::text::{decimal, push_decimal};
use vstd::string::StringExecFns;

verus! {

/// What kind of lock a chip shows.
#[derive(Clone, Copy, Debug, PartialEq, Eq, Structural)]
pub enum LockKind {
    Horizontal,
    Vertical,
    Coincident,
    Tangent,
    Parallel,
    Perpendicular,
    Dimension,
}

/// One existing lock, as an icon kind and a label.
#[derive(Clone, Debug)]
pub struct BlockChip {
    pub kind: LockKind,
    pub label: String,
}

impl View for BlockChip {
    type V = (LockKind, Seq<char>);

    open spec fn view(&self) -> (LockKind, Seq<char>) {
        (self.kind, self.label@)
    }
}

/// "P<a>–P<b>", naming two points by slot index.
pub open spec fn pair_label(a: PointId, b: PointId) -> Seq<char> {
    "P"@ + decimal(a.idx as nat) + "–P"@ + decimal(b.idx as nat)
}

/// "edge <idx>".
pub open spec fn edge_label(s: SegmentId) -> Seq<char> {
    "edge "@ + decimal(s.idx as nat)
}

/// "<Kind> · edge X – edge Y" for a segment pair, else "<Kind> · P<a>–P<b>".
pub open spec fn pair_or_edges(name: Seq<char>, c: Constraint) -> Seq<char> {
    match c.tangent_segments {
        Some((x, y)) => name + " · "@ + edge_label(x) + " – "@ + edge_label(y),
        None => name + " · "@ + pair_label(c.a, c.b),
    }
}

/// The chip a constraint shows.
pub open spec fn constraint_chip(c: Constraint) -> (LockKind, Seq<char>) {
    match c.kind {
        ConstraintKind::Horizontal => (LockKind::Horizontal, "Horizontal · "@ + pair_label(c.a, c.b)),
        ConstraintKind::Vertical => (LockKind::Vertical, "Vertical · "@ + pair_label(c.a, c.b)),
        ConstraintKind::Coincident => match c.point_on_segment {
            Some(edge) => (LockKind::Coincident, "P"@ + decimal(c.a.idx as nat) + " on "@ + edge_label(edge)),
            None => (LockKind::Coincident, "Coincident · "@ + pair_label(c.a, c.b)),
        },
        ConstraintKind::Tangent => (LockKind::Tangent, pair_or_edges("Tangent"@, c)),
        ConstraintKind::Parallel => (LockKind::Parallel, pair_or_edges("Parallel"@, c)),
        ConstraintKind::Perpendicular => (LockKind::Perpendicular, pair_or_edges("Perpendicular"@, c)),
    }
}

/// Adds a chip unless three are shown already or an equal one is.
pub open spec fn add_chip(out: Seq<(LockKind, Seq<char>)>, c: (LockKind, Seq<char>)) -> Seq<(LockKind, Seq<char>)> {
    if out.len() < 3 && !out.contains(c) { out.push(c) } else { out }
}

/// The chips of the constraints among `cs` touching `pts`, in order.
pub open spec fn constraint_chips(out: Seq<(LockKind, Seq<char>)>, cs: Seq<Constraint>, pts: Seq<PointId>) -> Seq<(LockKind, Seq<char>)>
    decreases cs.len(),
{
    if cs.len() == 0 {
        out
    } else {
        let pre = constraint_chips(out, cs.drop_last(), pts);
        let c = cs.last();
        if pts.contains(c.a) || pts.contains(c.b) { add_chip(pre, constraint_chip(c)) } else { pre }
    }
}

/// Then the chips of the point-pair dimensions among `ds` touching `pts`,
/// labelled "Dimension = <value>" with the value's text from `labels`.
pub open spec fn dimension_chips(out: Seq<(LockKind, Seq<char>)>, ds: Seq<Dimension>, labels: Seq<Seq<char>>, pts: Seq<PointId>)
    -> Seq<(LockKind, Seq<char>)>
    decreases ds.len(),
{
    if ds.len() == 0 {
        out
    } else {
        let pre = dimension_chips(out, ds.drop_last(), labels, pts);
        let hit = match ds.last().target {
            DimTarget::Points { a, b, .. } => pts.contains(a) || pts.contains(b),
            _ => false,
        };
        if hit { add_chip(pre, (LockKind::Dimension, "Dimension = "@ + labels[ds.len() - 1])) } else { pre }
    }
}

/// The title of a rejected constraint.
pub open spec fn title_of(kind: ConstraintKind) -> Seq<char> {
    match kind {
        ConstraintKind::Horizontal => "Can't add Horizontal"@,
        ConstraintKind::Vertical => "Can't add Vertical"@,
        ConstraintKind::Coincident => "Can't glue these points"@,
        ConstraintKind::Tangent => "Can't add Tangent"@,
        ConstraintKind::Parallel => "Can't add Parallel"@,
        ConstraintKind::Perpendicular => "Can't add Perpendicular"@,
    }
}

pub fn kind_title(kind: ConstraintKind) -> (r: &'static str)
    ensures
        r@ == title_of(kind),
{
    match kind {
        ConstraintKind::Horizontal => "Can't add Horizontal",
        ConstraintKind::Vertical => "Can't add Vertical",
        ConstraintKind::Coincident => "Can't glue these points",
        ConstraintKind::Tangent => "Can't add Tangent",
        ConstraintKind::Parallel => "Can't add Parallel",
        ConstraintKind::Perpendicular => "Can't add Perpendicular",
    }
}

/// Appends "P<a>–P<b>".
fn push_pair(out: &mut String, a: PointId, b: PointId)
    ensures
        final(out)@ == old(out)@ + pair_label(a, b),
{
    out.append("P");
    push_decimal(out, a.idx as u64);
    out.append("–P");
    push_decimal(out, b.idx as u64);
}

/// Appends "edge <idx>".
fn push_edge(out: &mut String, s: SegmentId)
    ensures
        final(out)@ == old(out)@ + edge_label(s),
{
    out.append("edge ");
    push_decimal(out, s.idx as u64);
}

/// "P<a>–P<b>".
pub fn point_pair(a: PointId, b: PointId) -> (r: String)
    ensures
        r@ == pair_label(a, b),
{
    let mut s = String::new();
    push_pair(&mut s, a, b);
    proof {
        assert(s@ =~= pair_label(a, b));
    }
    s
}

/// "edge <idx>".
pub fn seg_label(s: SegmentId) -> (r: String)
    ensures
        r@ == edge_label(s),
{
    let mut out = String::new();
    push_edge(&mut out, s);
    proof {
        assert(out@ =~= edge_label(s));
    }
    out
}

/// The points a segment pins: its endpoints, then arc control and center
/// unless already listed. Empty when the segment does not resolve.
pub open spec fn seg_points_spec(d: Document, s: SegmentId) -> Seq<PointId> {
    match d.sg(s) {
        Some(g) => {
            let v = seq![g.start, g.end];
            let v1 = match g.ctrl {
                Some(c) => if v.contains(c) { v } else { v.push(c) },
                None => v,
            };
            match g.center {
                Some(c) => if v1.contains(c) { v1 } else { v1.push(c) },
                None => v1,
            }
        },
        None => seq![],
    }
}

pub fn seg_points(doc: &Document, sid: SegmentId) -> (r: Vec<PointId>)
    ensures
        r@ == seg_points_spec(*doc, sid),
{
    match doc.segment(sid) {
        None => Vec::new(),
        Some(g) => {
            let mut v: Vec<PointId> = Vec::new();
            v.push(g.start);
            v.push(g.end);
            proof {
                assert(v@ =~= seq![g.start, g.end]);
            }
            match g.ctrl {
                Some(c) => {
                    if !contains_point(&v, c) {
                        v.push(c);
                    }
                },
                None => {},
            }
            match g.center {
                Some(c) => {
                    if !contains_point(&v, c) {
                        v.push(c);
                    }
                },
                None => {},
            }
            v
        },
    }
}

/// The chip label of one constraint.
fn chip_label(c: &Constraint) -> (r: BlockChip)
    ensures
        r@ == constraint_chip(*c),
{
    let mut s = String::new();
    let kind = match c.kind {
        ConstraintKind::Horizontal => {
            s.append("Horizontal · ");
            push_pair(&mut s, c.a, c.b);
            LockKind::Horizontal
        },
        ConstraintKind::Vertical => {
            s.append("Vertical · ");
            push_pair(&mut s, c.a, c.b);
            LockKind::Vertical
        },
        ConstraintKind::Coincident => {
            match c.point_on_segment {
                Some(edge) => {
                    s.append("P");
                    push_decimal(&mut s, c.a.idx as u64);
                    s.append(" on ");
                    push_edge(&mut s, edge);
                },
                None => {
                    s.append("Coincident · ");
                    push_pair(&mut s, c.a, c.b);
                },
            }
            LockKind::Coincident
        },
        ConstraintKind::Tangent => {
            s.append("Tangent");
            push_pair_or_edges(&mut s, c);
            LockKind::Tangent
        },
        ConstraintKind::Parallel => {
            s.append("Parallel");
            push_pair_or_edges(&mut s, c);
            LockKind::Parallel
        },
        ConstraintKind::Perpendicular => {
            s.append("Perpendicular");
            push_pair_or_edges(&mut s, c);
            LockKind::Perpendicular
        },
    };
    proof {
        let want = constraint_chip(*c).1;
        assert(s@ =~= want);
    }
    BlockChip { kind, label: s }
}

/// Appends " · edge X – edge Y" for a segment pair, else " · P<a>–P<b>".
fn push_pair_or_edges(out: &mut String, c: &Constraint)
    ensures
        final(out)@ == pair_or_edges(old(out)@, *c),
{
    out.append(" · ");
    match c.tangent_segments {
        Some((x, y)) => {
            push_edge(out, x);
            out.append(" – ");
            push_edge(out, y);
        },
        None => {
            push_pair(out, c.a, c.b);
        },
    }
    proof {
        assert(out@ =~= pair_or_edges(old(out)@, *c));
    }
}

/// Whether `out` holds a chip equal to `c`.
fn has_chip(out: &Vec<BlockChip>, kind: LockKind, label: &String) -> (r: bool)
    ensures
        r == out@.map_values(|b: BlockChip| b@).contains((kind, label@)),
{
    let ghost views = out@.map_values(|b: BlockChip| b@);
    let mut i: usize = 0;
    while i < out.len()
        invariant
            i <= out@.len(),
            views == out@.map_values(|b: BlockChip| b@),
            forall|j: int| 0 <= j < i ==> views[j] != (kind, label@),
        decreases out@.len() - i,
    {
        if out[i].kind == kind && crate::text::str_eq(out[i].label.as_str(), label.as_str()) {
            proof {
                assert(views[i as int] == (kind, label@));
            }
            return true;
        }
        i = i + 1;
    }
    false
}

/// Pushes a chip unless three are shown already or an equal one is.
fn push_chip(out: &mut Vec<BlockChip>, chip: BlockChip)
    ensures
        final(out)@.map_values(|b: BlockChip| b@) == add_chip(old(out)@.map_values(|b: BlockChip| b@), chip@),
{
    if out.len() < 3 && !has_chip(out, chip.kind, &chip.label) {
        let ghost before = out@;
        out.push(chip);
        proof {
            assert(out@.map_values(|b: BlockChip| b@) =~= before.map_values(|b: BlockChip| b@).push(chip@));
        }
    }
}

/// Existing locks touching any of `points`, as chips (at most three, no
/// two equal): constraints on one of the points, then point-pair
/// dimensions on one of them, labelled with `dim_values[i]`, the display
/// text of dimension `i`'s value.
pub fn blocks_touching(doc: &Document, points: &Vec<PointId>, dim_values: &Vec<String>) -> (r: Vec<BlockChip>)
    requires
        dim_values@.len() == doc.dimensions@.len(),
    ensures
        r@.map_values(|b: BlockChip| b@) == dimension_chips(
            constraint_chips(seq![], doc.constraints@, points@),
            doc.dimensions@,
            dim_values@.map_values(|s: String| s@),
            points@,
        ),
{
    let mut out: Vec<BlockChip> = Vec::new();
    let mut i: usize = 0;
    proof {
        assert(out@.map_values(|b: BlockChip| b@) =~= Seq::<(LockKind, Seq<char>)>::empty());
    }
    while i < doc.constraints.len()
        invariant
            i <= doc.constraints@.len(),
            out@.map_values(|b: BlockChip| b@) == constraint_chips(seq![], doc.constraints@.take(i as int), points@),
        decreases doc.constraints@.len() - i,
    {
        proof {
            assert(doc.constraints@.take(i as int + 1).drop_last() =~= doc.constraints@.take(i as int));
        }
        let c = &doc.constraints[i];
        if contains_point(points, c.a) || contains_point(points, c.b) {
            let chip = chip_label(c);
            push_chip(&mut out, chip);
        }
        i = i + 1;
    }
    proof {
        assert(doc.constraints@.take(i as int) =~= doc.constraints@);
    }
    let ghost base = out@.map_values(|b: BlockChip| b@);
    let ghost labels = dim_values@.map_values(|s: String| s@);
    let mut k: usize = 0;
    while k < doc.dimensions.len()
        invariant
            k <= doc.dimensions@.len(),
            dim_values@.len() == doc.dimensions@.len(),
            labels == dim_values@.map_values(|s: String| s@),
            out@.map_values(|b: BlockChip| b@) == dimension_chips(base, doc.dimensions@.take(k as int), labels, points@),
        decreases doc.dimensions@.len() - k,
    {
        proof {
            assert(doc.dimensions@.take(k as int + 1).drop_last() =~= doc.dimensions@.take(k as int));
        }
        let hit = match doc.dimensions[k].target {
            DimTarget::Points { a, b, .. } => contains_point(points, a) || contains_point(points, b),
            _ => false,
        };
        if hit {
            let mut s = String::from_str("Dimension = ");
            s.append(dim_values[k].as_str());
            let ghost want = "Dimension = "@ + labels[k as int];
            proof {
                assert(s@ =~= want);
            }
            push_chip(&mut out, BlockChip { kind: LockKind::Dimension, label: s });
        }
        k = k + 1;
    }
    proof {
        assert(doc.dimensions@.take(k as int) =~= doc.dimensions@);
    }
    out
}

// ---- why a parallel / perpendicular pair was refused ----

/// A constraint on the segment pair `{a, b}` of the kind opposite to the
/// one wanted (perpendicular when parallel is wanted, and back).
pub open spec fn opposite_lock(doc: Document, a: SegmentId, b: SegmentId, want_parallel: bool) -> bool {
    exists|i: int| 0 <= i < doc.constraints@.len() && #[trigger] opposes(doc.constraints@[i], a, b, want_parallel)
}

pub open spec fn opposes(c: Constraint, a: SegmentId, b: SegmentId, want_parallel: bool) -> bool {
    &&& c.tangent_segments matches Some((x, y)) && ((x == a && y == b) || (x == b && y == a))
    &&& (want_parallel && c.kind == ConstraintKind::Perpendicular) || (!want_parallel && c.kind == ConstraintKind::Parallel)
}

/// The summary and hint explaining a refused parallel (or perpendicular)
/// lock on a line pair.
pub open spec fn pair_detail(doc: Document, a: SegmentId, b: SegmentId, want_parallel: bool) -> (Seq<char>, Seq<char>) {
    let opposite = if want_parallel { "Perpendicular"@ } else { "Parallel"@ };
    if opposite_lock(doc, a, b, want_parallel) {
        ("This pair already has a "@ + opposite + " lock."@, "Delete the "@ + opposite + " lock first."@)
    } else if lock_of(doc, a) is Some && lock_of(doc, b) is Some {
        ("Both edges are H/V-locked against this."@, "Free one edge's orientation first."@)
    } else {
        ("Rotating into place would break a lock."@, "Relax the H/V lock or dimension first."@)
    }
}

fn has_opposite_lock(doc: &Document, a: SegmentId, b: SegmentId, want_parallel: bool) -> (r: bool)
    ensures
        r == opposite_lock(*doc, a, b, want_parallel),
{
    let mut i: usize = 0;
    while i < doc.constraints.len()
        invariant
            i <= doc.constraints@.len(),
            forall|j: int| 0 <= j < i ==> !#[trigger] opposes(doc.constraints@[j], a, b, want_parallel),
        decreases doc.constraints@.len() - i,
    {
        let c = doc.constraints[i];
        let pair = match c.tangent_segments {
            Some((x, y)) => (x == a && y == b) || (x == b && y == a),
            None => false,
        };
        if pair && ((want_parallel && c.kind == ConstraintKind::Perpendicular) || (!want_parallel
            && c.kind == ConstraintKind::Parallel)) {
            assert(opposes(doc.constraints@[i as int], a, b, want_parallel));
            return true;
        }
        i = i + 1;
    }
    false
}

/// Why a parallel (`want_parallel`) or perpendicular lock on lines `a`,
/// `b` was refused: the pair already has the opposite lock, both edges
/// are H/V-locked, or some other lock stands in the way.
pub fn line_pair_detail(doc: &Document, a: SegmentId, b: SegmentId, want_parallel: bool) -> (r: (String, String))
    ensures
        (r.0@, r.1@) == pair_detail(*doc, a, b, want_parallel),
{
    let opposite = if want_parallel { "Perpendicular" } else { "Parallel" };
    let has_opposite = has_opposite_lock(doc, a, b, want_parallel);
    proof {
        reveal_strlit("Perpendicular");
        reveal_strlit("Parallel");
    }
    if has_opposite {
        let mut s = String::from_str("This pair already has a ");
        s.append(opposite);
        s.append(" lock.");
        let mut h = String::from_str("Delete the ");
        h.append(opposite);
        h.append(" lock first.");
        proof {
            let want = pair_detail(*doc, a, b, want_parallel);
            assert(s@ =~= want.0);
            assert(h@ =~= want.1);
        }
        (s, h)
    } else {
        let locked = Editor::locked_dir(doc, a).is_some() && Editor::locked_dir(doc, b).is_some();
        if locked {
            (String::from_str("Both edges are H/V-locked against this."), String::from_str("Free one edge's orientation first."))
        } else {
            (String::from_str("Rotating into place would break a lock."), String::from_str("Relax the H/V lock or dimension first."))
        }
    }
}

// ---- locks on a flat fillet corner ----

/// The word a point-pair dimension's mode shows.
pub open spec fn mode_word(m: DimMode) -> Seq<char> {
    match m {
        DimMode::Aligned => "Distance"@,
        DimMode::X => "Width"@,
        DimMode::Y => "Height"@,
    }
}

/// The chip label of a dimension on `t1` or `t2` (`text` is its value's
/// display text): point-pair dimensions by mode, point-line ones as
/// "Point-line"; others show none.
pub open spec fn flat_label(d: Dimension, t1: PointId, t2: PointId, text: Seq<char>) -> Option<Seq<char>> {
    match d.target {
        DimTarget::Points { a, b, mode } => if a == t1 || b == t1 || a == t2 || b == t2 {
            Some(mode_word(mode) + " = "@ + text)
        } else {
            None
        },
        DimTarget::PointLine { p, .. } => if p == t1 || p == t2 { Some("Point-line = "@ + text) } else { None },
        _ => None,
    }
}

/// The dimension chips on `t1`/`t2` among `ds`, in order, at most three,
/// no two equal.
pub open spec fn flat_chips(ds: Seq<Dimension>, texts: Seq<Seq<char>>, t1: PointId, t2: PointId) -> Seq<(LockKind, Seq<char>)>
    decreases ds.len(),
{
    if ds.len() == 0 {
        seq![]
    } else {
        let pre = flat_chips(ds.drop_last(), texts, t1, t2);
        match flat_label(ds.last(), t1, t2, texts[ds.len() - 1]) {
            Some(l) => add_chip(pre, (LockKind::Dimension, l)),
            None => pre,
        }
    }
}

impl Editor {
    /// The dimensions holding a fillet's tangent points `t1`, `t2` in
    /// place, as chips labelled with `dim_values[i]`, the display text of
    /// dimension `i`'s value.
    pub fn flat_lock_chips(&self, t1: PointId, t2: PointId, dim_values: &Vec<String>) -> (r: Vec<BlockChip>)
        requires
            dim_values@.len() == self.doc.dimensions@.len(),
        ensures
            r@.map_values(|b: BlockChip| b@) == flat_chips(self.doc.dimensions@, dim_values@.map_values(|s: String| s@), t1, t2),
    {
        let ghost texts = dim_values@.map_values(|s: String| s@);
        let mut out: Vec<BlockChip> = Vec::new();
        let mut k: usize = 0;
        proof {
            assert(out@.map_values(|b: BlockChip| b@) =~= Seq::<(LockKind, Seq<char>)>::empty());
        }
        while k < self.doc.dimensions.len() && out.len() < 3
            invariant
                k <= self.doc.dimensions@.len(),
                dim_values@.len() == self.doc.dimensions@.len(),
                texts == dim_values@.map_values(|s: String| s@),
                out@.map_values(|b: BlockChip| b@) == flat_chips(self.doc.dimensions@.take(k as int), texts, t1, t2),
                out@.len() <= 3,
            decreases self.doc.dimensions@.len() - k,
        {
            proof {
                assert(self.doc.dimensions@.take(k as int + 1).drop_last() =~= self.doc.dimensions@.take(k as int));
                reveal_strlit("Distance");
                reveal_strlit("Width");
                reveal_strlit("Height");
                reveal_strlit(" = ");
                reveal_strlit("Point-line = ");
            }
            let d = &self.doc.dimensions[k];
            let label: Option<String> = match d.target {
                DimTarget::Points { a, b, mode } => if a == t1 || b == t1 || a == t2 || b == t2 {
                    let mut s = String::from_str(match mode {
                        DimMode::Aligned => "Distance",
                        DimMode::X => "Width",
                        DimMode::Y => "Height",
                    });
                    s.append(" = ");
                    s.append(dim_values[k].as_str());
                    proof {
                        assert(s@ =~= mode_word(mode) + " = "@ + texts[k as int]);
                    }
                    Some(s)
                } else {
                    None
                },
                DimTarget::PointLine { p, .. } => if p == t1 || p == t2 {
                    let mut s = String::from_str("Point-line = ");
                    s.append(dim_values[k].as_str());
                    proof {
                        assert(s@ =~= "Point-line = "@ + texts[k as int]);
                    }
                    Some(s)
                } else {
                    None
                },
                _ => None,
            };
            if let Some(l) = label {
                let ghost before = out@.map_values(|b: BlockChip| b@);
                push_chip(&mut out, BlockChip { kind: LockKind::Dimension, label: l });
                proof {
                    assert(before.len() < 3);
                    assert(out@.map_values(|b: BlockChip| b@).len() == out@.len());
                }
            }
            k = k + 1;
        }
        proof {
            if k == self.doc.dimensions@.len() {
                assert(self.doc.dimensions@.take(k as int) =~= self.doc.dimensions@);
            } else {
                lemma_flat_chips_full(self.doc.dimensions@, texts, t1, t2, k as int);
            }
        }
        out
    }
}

/// Once three chips are shown, later dimensions add none.
proof fn lemma_flat_chips_full(ds: Seq<Dimension>, texts: Seq<Seq<char>>, t1: PointId, t2: PointId, k: int)
    requires
        0 <= k <= ds.len(),
        flat_chips(ds.take(k), texts, t1, t2).len() >= 3,
    ensures
        flat_chips(ds, texts, t1, t2) == flat_chips(ds.take(k), texts, t1, t2),
    decreases ds.len() - k,
{
    if k == ds.len() {
        assert(ds.take(k) =~= ds);
    } else {
        assert(ds.drop_last().take(k) =~= ds.take(k));
        lemma_flat_chips_full(ds.drop_last(), texts, t1, t2, k);
    }
}

} // verus!
