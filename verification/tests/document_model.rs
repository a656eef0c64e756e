use lib::arena::Arena;
use lib::constraints::{ConstraintKind, DimMode, DimTarget, Dimension, ElementRef};
use lib::document::{ContinuityMode, DocSettings, Document, Layer, PointPos, SegmentKind};
use lib::ids::{FillId, PathId, PointId, SegmentId};

fn pos(x: f64, y: f64) -> PointPos {
    PointPos { x_bits: x.to_bits(), y_bits: y.to_bits() }
}

fn layered_doc() -> Document {
    let mut d = Document::new();
    d.layers.push(Layer { id: 1, name: "Layer 1".to_string(), elements: Vec::new() });
    d
}

fn dim(target: DimTarget) -> Dimension {
    Dimension { target, value_bits: 10.0f64.to_bits(), offset_bits: 0, slide_bits: 0, sweep_bits: 0 }
}

#[test]
fn none_ids_are_not_some() {
    assert!(!PointId::none().is_some());
    assert!(!SegmentId::none().is_some());
    assert!(!FillId::none().is_some());
    assert!(!PathId::none().is_some());
    assert!(PointId { idx: 0, generation: 0 }.is_some());
}

#[test]
fn arena_reuses_slots_with_bumped_generation() {
    let mut a: Arena<u64> = Arena::new();
    assert!(a.is_empty());
    let first = a.insert(7);
    let second = a.insert(8);
    assert_eq!(first, (0, 0));
    assert_eq!(second, (1, 0));
    assert_eq!(a.len(), 2);
    assert_eq!(a.remove(first), Some(7));
    assert_eq!(a.remove(first), None);
    assert_eq!(a.generation(0), Some(1));
    assert_eq!(a.get(first), None);
    let third = a.insert(9);
    assert_eq!(a.remove(first), None);
    assert_eq!(a.get(third), Some(&9));
    assert_eq!(third, (0, 1));
    assert_eq!(a.get(third), Some(&9));
    assert_eq!(a.iter(), vec![(0, 1), (1, 0)]);
    a.set_at(1, 11);
    assert_eq!(a.get((1, 0)), Some(&11));
    if let Some(v) = a.get_mut((0, 1)) {
        *v = 42;
    }
    assert_eq!(a.get((0, 1)), Some(&42));
    assert!(a.all_bumpable());
}

#[test]
fn continuity_codes_round_trip() {
    for m in [ContinuityMode::Corner, ContinuityMode::Smooth, ContinuityMode::Symmetric, ContinuityMode::Free] {
        assert_eq!(ContinuityMode::from_code(m.code()), m);
    }
    assert_eq!(ContinuityMode::Symmetric.code(), 2);
    assert_eq!(ContinuityMode::from_code(200), ContinuityMode::Corner);
}

#[test]
fn names_of_kinds_and_modes() {
    assert_eq!(ConstraintKind::Perpendicular.as_str(), "perpendicular");
    assert_eq!(ConstraintKind::Coincident.as_str(), "coincident");
    assert_eq!(DimMode::X.as_str(), "_x");
    assert_eq!(DimMode::Aligned.as_str(), "");
    assert_eq!(DimMode::parse_suffix("points_y"), (true, DimMode::Y));
    assert_eq!(DimMode::parse_suffix("points"), (true, DimMode::Aligned));
    assert_eq!(DimMode::parse_suffix("radius"), (false, DimMode::Aligned));
}

#[test]
fn element_ref_projections_and_modes() {
    let p = PointId { idx: 3, generation: 1 };
    assert_eq!(ElementRef::Point(p).as_point(), Some(p));
    assert_eq!(ElementRef::Point(p).as_segment(), None);
    let s = SegmentId { idx: 2, generation: 0 };
    assert_eq!(ElementRef::Segment(s).as_segment(), Some(s));
    assert_eq!(ElementRef::Fill(FillId { idx: 1, generation: 0 }).as_fill(), Some(FillId { idx: 1, generation: 0 }));
    let t = DimTarget::Points { a: p, b: p, mode: DimMode::Aligned };
    assert_eq!(t.with_mode(DimMode::Y), DimTarget::Points { a: p, b: p, mode: DimMode::Y });
    let r = DimTarget::Radius { seg: s };
    assert_eq!(r.with_mode(DimMode::X), r);
}

#[test]
fn default_settings() {
    let s = DocSettings::default();
    assert!(s.show_grid && !s.snap_to_grid && s.snap_to_objects);
}

#[test]
fn layer_retain_element_drops_every_copy() {
    let p = ElementRef::Point(PointId { idx: 0, generation: 0 });
    let q = ElementRef::Point(PointId { idx: 1, generation: 0 });
    let mut l = Layer { id: 4, name: "L".to_string(), elements: vec![p, q, p] };
    l.retain_element(p);
    assert_eq!(l.elements, vec![q]);
    assert_eq!(l.id, 4);
}

#[test]
fn points_move_and_resolve() {
    let mut d = Document::new();
    let a = d.add_point(pos(1.0, 2.0));
    assert_eq!(d.point(a), Some(pos(1.0, 2.0)));
    d.move_point(a, pos(3.0, 4.0));
    assert_eq!(d.point(a), Some(pos(3.0, 4.0)));
    let stale = PointId { idx: a.idx, generation: a.generation + 1 };
    d.move_point(stale, pos(9.0, 9.0));
    assert_eq!(d.point(a), Some(pos(3.0, 4.0)));
    assert_eq!(d.point(stale), None);
}

#[test]
fn segment_kinds_and_geometry() {
    let mut d = Document::new();
    let a = d.add_point(pos(0.0, 0.0));
    let b = d.add_point(pos(10.0, 0.0));
    let c = d.add_point(pos(5.0, 5.0));
    let o = d.add_point(pos(5.0, 0.0));
    let line = d.add_segment(a, b);
    let ruler = d.add_segment_kind(a, b, SegmentKind::Ruler);
    let stroked = d.add_stroked_segment(a, b, 2.0f64.to_bits());
    let arc = d.add_arc_segment(a, c, b, o);
    let bez = d.add_bezier_segment(a, c, o, b);
    assert_eq!(d.segment(line).unwrap().kind, SegmentKind::Line);
    assert_eq!(d.segment(ruler).unwrap().kind, SegmentKind::Ruler);
    assert_eq!(d.segment(stroked).unwrap().stroke_width_bits, 2.0f64.to_bits());
    let s = d.segment(arc).unwrap();
    assert_eq!((s.ctrl, s.center), (Some(c), Some(o)));
    assert_eq!(d.segment_geom(line), Some((pos(0.0, 0.0), pos(10.0, 0.0))));
    assert_eq!(d.bezier_geom(bez), Some((pos(0.0, 0.0), pos(5.0, 5.0), pos(5.0, 0.0), pos(10.0, 0.0))));
    assert_eq!(d.bezier_geom(line), None);
    assert!(d.segment(line).unwrap().uses(a));
    assert!(!d.segment(line).unwrap().uses(c));
    assert_eq!(d.all_segments().len(), 5);
    assert_eq!(d.all_points().len(), 4);
}

#[test]
fn removing_a_point_cascades() {
    let mut d = layered_doc();
    let a = d.add_point(pos(0.0, 0.0));
    let b = d.add_point(pos(10.0, 0.0));
    let c = d.add_point(pos(10.0, 10.0));
    let ab = d.add_segment(a, b);
    let bc = d.add_segment(b, c);
    let ca = d.add_segment(c, a);
    let f = d.add_fill(vec![ab, bc, ca]);
    d.add_constraint(ConstraintKind::Horizontal, a, b);
    d.add_dimension(dim(DimTarget::Points { a: b, b: c, mode: DimMode::Aligned }));
    d.add_dimension(dim(DimTarget::Points { a, b: c, mode: DimMode::Aligned }));
    for el in [ElementRef::Point(a), ElementRef::Segment(ab), ElementRef::Fill(f)] {
        d.push_to_layer(1, el);
    }
    assert!(d.remove_point(a));
    assert_eq!(d.point(a), None);
    assert!(d.segment(ab).is_none() && d.segment(ca).is_none());
    assert!(d.segment(bc).is_some());
    assert!(d.fill(f).is_none());
    assert!(d.constraints.is_empty());
    assert_eq!(d.dimensions.len(), 1);
    assert!(d.layers[0].elements.is_empty());
    assert!(!d.remove_point(a));
}

#[test]
fn removing_a_segment_splices_paths() {
    let mut d = layered_doc();
    let p: Vec<PointId> = (0..4).map(|i| d.add_point(pos(i as f64, 0.0))).collect();
    let s0 = d.add_segment(p[0], p[1]);
    let s1 = d.add_segment(p[1], p[2]);
    let s2 = d.add_segment(p[2], p[3]);
    let path = d.add_path(vec![s0, s1, s2], false, vec![], vec![]);
    assert_eq!(d.path_anchors(path), Some(vec![p[0], p[1], p[2], p[3]]));
    assert_eq!(d.path(path).unwrap().continuity.len(), 4);
    assert!(d.remove_segment(s1));
    assert_eq!(d.path(path).unwrap().segments, vec![s0, s2]);
    assert!(d.remove_segment(s0));
    assert!(d.remove_segment(s2));
    assert!(d.path(path).is_none());
    assert_eq!(d.all_paths().len(), 0);
}

#[test]
fn merging_points_rewrites_references() {
    let mut d = Document::new();
    let a = d.add_point(pos(0.0, 0.0));
    let b = d.add_point(pos(10.0, 0.0));
    let c = d.add_point(pos(10.0, 0.1));
    let ab = d.add_segment(a, b);
    let ca = d.add_segment(c, a);
    d.add_constraint(ConstraintKind::Vertical, b, c);
    d.add_constraint(ConstraintKind::Horizontal, a, c);
    d.merge_point(b, c);
    assert_eq!(d.point(c), None);
    assert_eq!(d.segment(ca).unwrap().start, b);
    assert_eq!(d.segment(ab).unwrap().end, b);
    assert_eq!(d.constraints.len(), 1);
    assert_eq!((d.constraints[0].a, d.constraints[0].b), (a, b));
}

#[test]
fn sweeping_orphans_drops_loose_points() {
    let mut d = Document::new();
    let a = d.add_point(pos(0.0, 0.0));
    let b = d.add_point(pos(1.0, 0.0));
    let loose = d.add_point(pos(5.0, 5.0));
    d.add_segment(a, b);
    d.add_dimension(dim(DimTarget::Radius { seg: SegmentId { idx: 9, generation: 0 } }));
    d.sweep_orphans();
    assert_eq!(d.point(loose), None);
    assert!(d.point(a).is_some() && d.point(b).is_some());
    assert!(d.dimensions.is_empty());
}

#[test]
fn element_and_selection_points() {
    let mut d = Document::new();
    let a = d.add_point(pos(0.0, 0.0));
    let b = d.add_point(pos(1.0, 0.0));
    let c = d.add_point(pos(1.0, 1.0));
    let ab = d.add_segment(a, b);
    let bc = d.add_segment(b, c);
    let ca = d.add_segment(c, a);
    let f = d.add_fill(vec![ab, bc, ca]);
    assert_eq!(d.element_points(ElementRef::Segment(ab)), vec![a, b]);
    assert_eq!(d.element_points(ElementRef::Fill(f)), vec![a, b, b, c, c, a]);
    assert_eq!(d.selection_points(&vec![ElementRef::Segment(bc), ElementRef::Fill(f)]), vec![b, c, a]);
}

#[test]
fn restoring_ids_exactly() {
    let mut d = Document::new();
    let id = PointId { idx: 3, generation: 5 };
    d.insert_point_with_id(id, pos(2.0, 2.0));
    assert_eq!(d.point(id), Some(pos(2.0, 2.0)));
    assert_eq!(d.point(PointId { idx: 0, generation: 0 }), None);
    let q = PointId { idx: 0, generation: 0 };
    d.insert_point_with_id(q, pos(1.0, 1.0));
    let sid = SegmentId { idx: 2, generation: 1 };
    d.insert_segment_with_id(sid, q, id, SegmentKind::Line, 0, None, None, None, None);
    assert_eq!(d.segment(sid).unwrap().end, id);
    let fid = FillId { idx: 1, generation: 0 };
    d.insert_fill_with_id(fid, vec![sid]);
    assert_eq!(d.fill(fid).unwrap().segments, vec![sid]);
}

#[test]
fn duplicate_has_same_content() {
    let mut d = layered_doc();
    let a = d.add_point(pos(0.0, 0.0));
    let b = d.add_point(pos(1.0, 0.0));
    let s = d.add_segment(a, b);
    d.push_to_layer(1, ElementRef::Segment(s));
    let copy = d.duplicate();
    assert!(copy.same_as(&d));
    let mut moved = d.duplicate();
    moved.move_point(a, pos(0.5, 0.0));
    assert!(!moved.same_as(&d));
}

#[test]
fn generations_gate_removal() {
    let mut d = Document::new();
    d.insert_point_with_id(PointId { idx: 0, generation: u32::MAX }, pos(0.0, 0.0));
    assert!(!d.generations_ok());
    let mut e = Document::new();
    e.add_point(pos(0.0, 0.0));
    assert!(e.generations_ok());
}

#[test]
fn a_stale_id_vacates_nothing() {
    let mut d = Document::new();
    let id = d.add_point(pos(0.0, 0.0));
    assert!(d.remove_point(id));
    let id2 = d.add_point(pos(1.0, 1.0));
    assert_eq!(id2.idx, id.idx);
    assert!(!d.remove_point(id));
    assert_eq!(d.point(id2), Some(pos(1.0, 1.0)));
    assert_eq!(d.point(id), None);
    let a = d.add_point(pos(2.0, 0.0));
    let s = d.add_segment(id2, a);
    assert!(d.remove_segment(s));
    let s2 = d.add_segment(a, id2);
    assert_eq!(s2.idx, s.idx);
    let stale_fill = d.add_fill(vec![s]);
    d.add_constraint(ConstraintKind::Horizontal, id, a);
    assert!(!d.remove_segment(s));
    assert!(d.segment(s2).is_some());
    assert!(d.fill(stale_fill).is_none());
    assert!(!d.remove_point(id));
    assert!(d.constraints.is_empty());
    assert_eq!(d.point(id2), Some(pos(1.0, 1.0)));
    let f = d.add_fill(vec![s2]);
    assert!(d.remove_fill(f));
    let f2 = d.add_fill(vec![s2]);
    assert!(!d.remove_fill(f));
    assert!(d.fill(f2).is_some());
    let p = d.add_path(vec![s2], false, vec![], vec![]);
    assert!(d.remove_path(p));
    let p2 = d.add_path(vec![s2], false, vec![], vec![]);
    assert!(!d.remove_path(p));
    assert!(d.path(p2).is_some());
}

#[test]
fn short_handle_lists_collapse_at_each_anchor() {
    let mut d = Document::new();
    let a = d.add_point(pos(0.0, 0.0));
    let b = d.add_point(pos(10.0, 0.0));
    let c = d.add_point(pos(20.0, 0.0));
    let s1 = d.add_segment(a, b);
    let s2 = d.add_segment(b, c);
    let pid = d.add_path(vec![s1, s2], false, vec![], vec![]);
    let p = d.path(pid).unwrap();
    assert_eq!(p.continuity, vec![ContinuityMode::Corner; 3]);
    assert_eq!(p.handles, vec![(a, a), (b, b), (c, c)]);
    assert_eq!(d.path_anchors(pid), Some(vec![a, b, c]));
    let q = d.add_path(vec![s1, s2], false, vec![ContinuityMode::Smooth], vec![(c, c)]);
    assert_eq!(d.path(q).unwrap().handles, vec![(c, c), (b, b), (c, c)]);
    assert_eq!(d.path(q).unwrap().continuity, vec![ContinuityMode::Smooth, ContinuityMode::Corner, ContinuityMode::Corner]);
}

#[test]
fn merging_rewrites_layer_listings() {
    let mut d = layered_doc();
    let a = d.add_point(pos(0.0, 0.0));
    let b = d.add_point(pos(1.0, 0.0));
    let c = d.add_point(pos(2.0, 0.0));
    d.push_to_layer(1, ElementRef::Point(a));
    d.push_to_layer(1, ElementRef::Point(b));
    d.push_to_layer(1, ElementRef::Point(c));
    d.merge_point(a, b);
    assert_eq!(d.layers[0].elements, vec![ElementRef::Point(a), ElementRef::Point(a), ElementRef::Point(c)]);
    assert_eq!(d.point(b), None);
}

#[test]
fn removals_leave_no_dangling_references() {
    let mut d = layered_doc();
    let p: Vec<PointId> = (0..4).map(|i| d.add_point(pos(i as f64, 0.0))).collect();
    let s: Vec<SegmentId> = (0..4).map(|i| d.add_segment(p[i], p[(i + 1) % 4])).collect();
    let f = d.add_fill(s.clone());
    let path = d.add_path(vec![s[0], s[1], s[2]], false, vec![], vec![]);
    assert!(d.remove_point(p[1]));
    for (sid, seg) in d.all_segments() {
        assert!(d.segment(sid).is_some());
        assert!(d.point(seg.start).is_some() && d.point(seg.end).is_some());
    }
    assert!(d.fill(f).is_none());
    let q = d.path(path).unwrap();
    assert_eq!(q.segments, vec![s[2]]);
    assert!(q.segments.iter().all(|x| d.segment(*x).is_some()));
}

#[test]
fn a_shortened_path_keeps_one_mode_and_handle_per_anchor() {
    let mut d = layered_doc();
    let p: Vec<PointId> = (0..4).map(|i| d.add_point(pos(i as f64, 0.0))).collect();
    let s: Vec<SegmentId> = (0..3).map(|i| d.add_segment(p[i], p[i + 1])).collect();
    let path = d.add_path(vec![s[0], s[1], s[2]], false, vec![ContinuityMode::Smooth; 4], vec![]);
    assert!(d.remove_segment(s[0]));
    let q = d.path(path).unwrap().clone();
    let anchors = d.path_anchors(path).unwrap();
    assert_eq!(anchors, vec![p[1], p[2], p[3]]);
    assert_eq!(q.continuity, vec![ContinuityMode::Corner; 3]);
    assert_eq!(q.handles, vec![(p[1], p[1]), (p[2], p[2]), (p[3], p[3])]);
}
