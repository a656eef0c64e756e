use lib::arc::is_complete;
use lib::constraints::{Constraint, ConstraintKind, DimMode, DimTarget, Dimension, ElementRef};
use lib::document::{Document, PointPos, SegmentKind};
use lib::editor::Editor;
use lib::fillet::{Fillet, FilletSide};
use lib::ids::{PointId, SegmentId};
use lib::links::{component_points, equivalent_angle_vertex, ONE_BITS};
use lib::overconstraint::{line_pair_detail, LockKind};
use lib::ruler::{is_ruler, selection_is_ruler};

fn pos(x: f64, y: f64) -> PointPos {
    PointPos { x_bits: x.to_bits(), y_bits: y.to_bits() }
}

fn dim(target: DimTarget) -> Dimension {
    Dimension { target, value_bits: 10.0f64.to_bits(), offset_bits: 0, slide_bits: 0, sweep_bits: 0 }
}

#[test]
fn coincident_endpoints_are_angle_pivots() {
    let mut doc = Document::new();
    let a = doc.add_point(pos(0., 0.));
    let b = doc.add_point(pos(0., 0.));
    doc.add_constraint(ConstraintKind::Coincident, a, b);
    assert!(equivalent_angle_vertex(&doc, a, b));
}

#[test]
fn angle_vertices_need_a_glue() {
    let mut doc = Document::new();
    let a = doc.add_point(pos(0., 0.));
    let b = doc.add_point(pos(1., 0.));
    assert!(equivalent_angle_vertex(&doc, a, a));
    assert!(!equivalent_angle_vertex(&doc, a, b));
    doc.add_constraint(ConstraintKind::Horizontal, a, b);
    assert!(!equivalent_angle_vertex(&doc, a, b));
    doc.add_constraint(ConstraintKind::Coincident, b, a);
    assert!(equivalent_angle_vertex(&doc, a, b));
}

#[test]
fn arcs_close_into_circles() {
    let mut ed = Editor::new();
    let arc = ed.create_arc(1, pos(0., 0.), pos(2., 0.), pos(1., 1.), pos(1., 0.));
    assert!(!is_complete(&ed.doc, arc));
    let s = ed.doc.segment(arc).unwrap();
    ed.doc.add_constraint(ConstraintKind::Coincident, s.end, s.start);
    assert!(is_complete(&ed.doc, arc));
    assert!(!is_complete(&ed.doc, SegmentId::none()));
}

#[test]
fn rulers_are_recognised() {
    let mut ed = Editor::new();
    let r = ed.create_ruler(1, pos(0., 0.), pos(5., 0.));
    let l = ed.create_line(1, pos(0., 1.), pos(5., 1.));
    assert!(is_ruler(&ed.doc, r));
    assert!(!is_ruler(&ed.doc, l));
    ed.selection = vec![ElementRef::Segment(r)];
    assert!(selection_is_ruler(&ed));
    ed.selection = vec![ElementRef::Segment(r), ElementRef::Segment(l)];
    assert!(!selection_is_ruler(&ed));
    ed.selection = vec![ElementRef::Segment(l)];
    assert!(!selection_is_ruler(&ed));
}

#[test]
fn line_pairs_from_the_selection() {
    let mut ed = Editor::new();
    let l1 = ed.create_line(1, pos(0., 0.), pos(1., 0.));
    let arc = ed.create_arc(1, pos(0., 0.), pos(2., 0.), pos(1., 1.), pos(1., 0.));
    let l2 = ed.create_line(1, pos(0., 1.), pos(1., 1.));
    let l3 = ed.create_line(1, pos(0., 2.), pos(1., 2.));
    let sel = vec![ElementRef::Segment(l1), ElementRef::Segment(arc), ElementRef::Segment(l1), ElementRef::Segment(l2), ElementRef::Segment(l3)];
    assert_eq!(Editor::line_pair(&ed.doc, &sel), Some((l1, l2)));
    assert_eq!(Editor::line_pair(&ed.doc, &sel[..3]), None);
}

#[test]
fn locks_give_unit_directions() {
    let mut ed = Editor::new();
    let l = ed.create_line(1, pos(0., 0.), pos(3., 0.));
    let m = ed.create_line(1, pos(0., 1.), pos(0., 4.));
    assert_eq!(Editor::locked_dir(&ed.doc, l), None);
    let s = ed.doc.segment(l).unwrap();
    ed.doc.add_constraint(ConstraintKind::Coincident, s.start, s.end);
    ed.doc.add_constraint(ConstraintKind::Horizontal, s.end, s.start);
    assert_eq!(Editor::locked_dir(&ed.doc, l), Some((ONE_BITS, 0)));
    assert_eq!(f64::from_bits(ONE_BITS), 1.0);
    let t = ed.doc.segment(m).unwrap();
    ed.doc.add_constraint(ConstraintKind::Vertical, t.start, t.end);
    assert_eq!(Editor::locked_dir(&ed.doc, m), Some((0, ONE_BITS)));
}

#[test]
fn refused_pairs_are_explained() {
    let mut ed = Editor::new();
    let a = ed.create_line(1, pos(0., 0.), pos(3., 0.));
    let b = ed.create_line(1, pos(0., 1.), pos(0., 4.));
    let (s, h) = line_pair_detail(&ed.doc, a, b, true);
    assert_eq!(s, "Rotating into place would break a lock.");
    assert_eq!(h, "Relax the H/V lock or dimension first.");
    let sa = ed.doc.segment(a).unwrap();
    let sb = ed.doc.segment(b).unwrap();
    ed.doc.add_constraint(ConstraintKind::Horizontal, sa.start, sa.end);
    ed.doc.add_constraint(ConstraintKind::Vertical, sb.start, sb.end);
    let (s, h) = line_pair_detail(&ed.doc, a, b, true);
    assert_eq!(s, "Both edges are H/V-locked against this.");
    assert_eq!(h, "Free one edge's orientation first.");
    ed.doc.constraints.push(Constraint {
        kind: ConstraintKind::Perpendicular,
        a: sa.start,
        b: sb.start,
        tangent_segments: Some((b, a)),
        point_on_segment: None,
    });
    let (s, h) = line_pair_detail(&ed.doc, a, b, true);
    assert_eq!(s, "This pair already has a Perpendicular lock.");
    assert_eq!(h, "Delete the Perpendicular lock first.");
    let (s, _) = line_pair_detail(&ed.doc, a, b, false);
    assert_eq!(s, "Both edges are H/V-locked against this.");
    ed.doc.add_parallel_constraint(a, b);
    let (s, h) = line_pair_detail(&ed.doc, a, b, false);
    assert_eq!(s, "This pair already has a Parallel lock.");
    assert_eq!(h, "Delete the Parallel lock first.");
}

#[test]
fn bare_lines_are_stroked_and_unfilled() {
    let (mut ed, f) = {
        let mut ed = Editor::new();
        let f = ed.create_rectangle(1, pos(0., 0.), pos(10., 10.));
        (ed, f)
    };
    let l = ed.create_line(1, pos(20., 0.), pos(30., 0.));
    let s = ed.doc.segment(l).unwrap();
    assert!(ed.pid_on_bare_line(s.start));
    assert!(ed.pid_on_bare_line(s.end));
    let edge = ed.doc.fill(f).unwrap().segments[0];
    let e = ed.doc.segment(edge).unwrap();
    assert!(!ed.pid_on_bare_line(e.start));
    let r = ed.create_ruler(1, pos(0., 50.), pos(5., 50.));
    assert!(!ed.pid_on_bare_line(ed.doc.segment(r).unwrap().start));
    let p = ed.doc.add_point(pos(40., 0.));
    let q = ed.doc.add_point(pos(50., 0.));
    ed.doc.add_segment(p, q);
    assert!(!ed.pid_on_bare_line(p));
}

#[test]
fn components_follow_segments_and_constraints() {
    let mut doc = Document::new();
    let a = doc.add_point(pos(0., 0.));
    let b = doc.add_point(pos(1., 0.));
    let c = doc.add_point(pos(2., 0.));
    let d = doc.add_point(pos(3., 0.));
    let e = doc.add_point(pos(4., 0.));
    let lone = doc.add_point(pos(9., 9.));
    doc.add_segment(a, b);
    doc.add_constraint(ConstraintKind::Horizontal, b, c);
    let cd = doc.add_segment(c, d);
    doc.add_point_on_segment_constraint(e, c, cd);
    let got = component_points(&doc, vec![a]);
    assert_eq!(got[0], a);
    let mut sorted: Vec<u32> = got.iter().map(|p| p.idx).collect();
    sorted.sort();
    assert_eq!(sorted, vec![a.idx, b.idx, c.idx, d.idx, e.idx]);
    assert!(!got.contains(&lone));
    assert_eq!(component_points(&doc, vec![lone]), vec![lone]);
    let stale = PointId { idx: 99, generation: 0 };
    assert_eq!(component_points(&doc, vec![stale, stale]), vec![stale, stale]);
}

#[test]
fn glued_points_follow_a_dragged_arc() {
    let mut ed = Editor::new();
    let arc = ed.create_arc(1, pos(0., 0.), pos(2., 0.), pos(1., 1.), pos(1., 0.));
    let s = ed.doc.segment(arc).unwrap();
    let other = ed.doc.add_point(pos(5., 5.));
    let far = ed.doc.add_point(pos(7., 7.));
    let free = ed.doc.add_point(pos(8., 8.));
    ed.doc.add_constraint(ConstraintKind::Coincident, other, s.end);
    ed.doc.add_constraint(ConstraintKind::Horizontal, s.start, far);
    ed.doc.add_constraint(ConstraintKind::Coincident, free, far);
    ed.enforce_arc_coincident_joints(&[free]);
    assert_eq!(ed.doc.point(other), Some(pos(5., 5.)));
    ed.enforce_arc_coincident_joints(&[s.ctrl.unwrap()]);
    assert_eq!(ed.doc.point(other), Some(pos(2., 0.)));
    assert_eq!(ed.doc.point(far), Some(pos(7., 7.)));
    assert_eq!(ed.doc.point(free), Some(pos(8., 8.)));
}

#[test]
fn flat_corner_locks_as_chips() {
    let mut ed = Editor::new();
    let t1 = ed.doc.add_point(pos(0., 0.));
    let t2 = ed.doc.add_point(pos(1., 0.));
    let x = ed.doc.add_point(pos(2., 0.));
    let line = ed.create_line(1, pos(0., 5.), pos(1., 5.));
    ed.doc.add_dimension(dim(DimTarget::Points { a: t1, b: x, mode: DimMode::Aligned }));
    ed.doc.add_dimension(dim(DimTarget::Points { a: x, b: x, mode: DimMode::X }));
    ed.doc.add_dimension(dim(DimTarget::Points { a: x, b: t2, mode: DimMode::Y }));
    ed.doc.add_dimension(dim(DimTarget::PointLine { p: t2, line }));
    ed.doc.add_dimension(dim(DimTarget::Points { a: t2, b: x, mode: DimMode::Aligned }));
    let texts: Vec<String> = vec!["10.00".into(), "3.00".into(), "10.00".into(), "10.00".into(), "10.00".into()];
    let chips = ed.flat_lock_chips(t1, t2, &texts);
    let labels: Vec<&str> = chips.iter().map(|c| c.label.as_str()).collect();
    assert_eq!(labels, vec!["Distance = 10.00", "Height = 10.00", "Point-line = 10.00"]);
    assert!(chips.iter().all(|c| c.kind == LockKind::Dimension));
}

#[test]
fn fillet_constraints_are_dropped_by_id() {
    let mut ed = Editor::new();
    let first = ed.create_line(1, pos(0., 0.), pos(10., 0.));
    let second = ed.create_line(1, pos(10., 0.), pos(10., 10.));
    let arc = ed.create_arc(1, pos(8., 0.), pos(10., 2.), pos(9.4, 0.6), pos(8., 2.));
    let a = ed.doc.segment(arc).unwrap();
    let (t1, t2) = (a.start, a.end);
    ed.doc.add_point_on_segment_constraint(t1, t1, first);
    ed.doc.add_point_on_segment_constraint(t2, t2, second);
    ed.doc.add_tangent_constraint(first, arc, t1);
    ed.doc.add_tangent_constraint(arc, second, t2);
    ed.doc.add_constraint(ConstraintKind::Coincident, t1, t2);
    let m = Fillet {
        first,
        second,
        corner: PointId::none(),
        radius_bits: 2.0f64.to_bits(),
        side: FilletSide::Inner,
        arc: None,
        first_tangent: Some(t1),
        second_tangent: Some(t2),
        center: a.center,
        control: a.ctrl,
    };
    ed.drop_derived_constraints(&m);
    assert_eq!(ed.doc.constraints.len(), 5);
    ed.drop_derived_constraints(&Fillet { arc: Some(arc), ..m });
    assert_eq!(ed.doc.constraints.len(), 1);
    assert_eq!((ed.doc.constraints[0].kind, ed.doc.constraints[0].a), (ConstraintKind::Coincident, t1));
}

#[test]
fn snap_exclusion_covers_the_dragged_geometry() {
    let mut ed = Editor::new();
    let f = ed.create_rectangle(1, pos(0., 0.), pos(10., 10.));
    let loop_segs = ed.doc.fill(f).unwrap().segments.clone();
    let corner = ed.doc.segment(loop_segs[0]).unwrap().start;
    let got = lib::snap::snap_exclusion(&ed.doc, vec![corner]);
    assert_eq!(got[0], corner);
    assert_eq!(got.len(), 4);
    let arc = ed.create_arc(1, pos(20., 0.), pos(22., 0.), pos(21., 1.), pos(21., 0.));
    let a = ed.doc.segment(arc).unwrap();
    let tail = ed.doc.add_point(pos(30., 0.));
    ed.doc.add_segment(a.end, tail);
    let ctrl = a.ctrl.unwrap();
    assert_eq!(lib::snap::snap_exclusion(&ed.doc, vec![ctrl]), vec![ctrl, a.start, a.end]);
    assert_eq!(lib::snap::snap_exclusion(&ed.doc, vec![a.start]), vec![a.start, a.end, tail, ctrl]);
}
