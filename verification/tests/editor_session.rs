use lib::clip_parse::{decode_clip, parse_signed, parse_unsigned, parse_usize, split_once, split_str};
use lib::clipboard::{ClipPath, ClipPayload, ClipSegment};
use lib::constraints::{ConstraintKind, DimMode, DimTarget, Dimension, ElementRef};
use lib::document::{ContinuityMode, Document, Layer, PointPos, SegmentKind};
use lib::editor::Editor;
use lib::fillet::FilletSide;
use lib::ids::{PointId, SegmentId};
use lib::press::{GrabKind, PressAction};
use lib::constraint_tool::{ConstraintPicks, ConstraintTool, PickStep};
use lib::overconstraint::{blocks_touching, kind_title, point_pair, seg_label, seg_points, LockKind};
use lib::selection::{gate_points, gate_segs, owner_segment, same_segment_owner, unglued_pairs};
use lib::solver::SolveStatus;
use lib::text::{push_decimal, str_eq};

fn pos(x: f64, y: f64) -> PointPos {
    PointPos { x_bits: x.to_bits(), y_bits: y.to_bits() }
}

fn rect_editor() -> (Editor, lib::ids::FillId) {
    let mut ed = Editor::new();
    let f = ed.create_rectangle(1, pos(0.0, 0.0), pos(100.0, 80.0));
    (ed, f)
}

#[test]
fn new_editor_has_one_layer() {
    let ed = Editor::new();
    assert_eq!(ed.doc.layers.len(), 1);
    assert_eq!(ed.doc.layers[0].id, 1);
    assert_eq!(ed.doc.layers[0].name, "Layer 1");
    assert_eq!(ed.next_layer_id, 2);
    assert!(ed.show_grid && !ed.snap_to_grid && ed.snap_to_objects);
}

#[test]
fn layer_ids_continue_past_existing() {
    let mut d = Document::new();
    d.layers.push(Layer { id: 7, name: "a".into(), elements: vec![] });
    d.layers.push(Layer { id: 3, name: "b".into(), elements: vec![] });
    let mut ed = Editor::from_document(d);
    assert_eq!(ed.next_layer_id, 8);
    assert_eq!(ed.add_layer("c"), 8);
    assert_eq!(ed.add_layer("d"), 9);
    assert_eq!(ed.doc.layers.last().unwrap().name, "d");
    let empty = Editor::from_document(Document::new());
    assert_eq!(empty.next_layer_id, 2);
}

#[test]
fn toggles_write_through_to_settings() {
    let mut ed = Editor::new();
    assert!(!ed.set_show_grid(true));
    assert_eq!(ed.doc_gen, 0);
    assert!(ed.set_snap_to_grid(true));
    assert!(ed.doc.settings.snap_to_grid && ed.doc.settings.show_grid);
    assert_eq!(ed.doc_gen, 1);
    assert!(ed.set_snap_to_objects(false));
    assert!(!ed.doc.settings.snap_to_objects);
    assert!(ed.apply_setting(0, false));
    assert!(!ed.show_grid && !ed.doc.settings.show_grid);
    assert_eq!(ed.doc_gen, 3);
}

#[test]
fn clearing_the_arc_reveal() {
    let mut ed = Editor::new();
    assert!(!ed.clear_arc_reveal());
    ed.arc_center_reveal.push(SegmentId { idx: 0, generation: 0 });
    assert!(ed.clear_arc_reveal());
    assert!(ed.arc_center_reveal.is_empty());
}

#[test]
fn rectangle_is_plain_geometry() {
    let (ed, f) = rect_editor();
    let fill = ed.doc.fill(f).unwrap();
    assert_eq!(fill.segments.len(), 4);
    let top = ed.doc.segment(fill.segments[0]).unwrap();
    assert_eq!(ed.doc.point(top.start), Some(pos(0.0, 0.0)));
    assert_eq!(ed.doc.point(top.end), Some(pos(100.0, 0.0)));
    let bottom = ed.doc.segment(fill.segments[2]).unwrap();
    assert_eq!(ed.doc.point(bottom.start), Some(pos(100.0, 80.0)));
    assert_eq!(ed.doc.point(bottom.end), Some(pos(0.0, 80.0)));
    let kinds: Vec<ConstraintKind> = ed.doc.constraints.iter().map(|c| c.kind).collect();
    assert_eq!(kinds, vec![ConstraintKind::Horizontal, ConstraintKind::Horizontal, ConstraintKind::Vertical, ConstraintKind::Vertical]);
    assert_eq!(ed.doc.layers[0].elements.len(), 9);
    assert_eq!(ed.doc.layers[0].elements[8], ElementRef::Fill(f));
}

#[test]
fn line_ruler_arc_and_bezier_creation() {
    let mut ed = Editor::new();
    let l = ed.create_line(1, pos(0.0, 0.0), pos(1.0, 1.0));
    assert_eq!(ed.doc.segment(l).unwrap().stroke_width_bits, 1.0f64.to_bits());
    let r = ed.create_ruler(1, pos(0.0, 0.0), pos(2.0, 0.0));
    assert_eq!(ed.doc.segment(r).unwrap().kind, SegmentKind::Ruler);
    let a = ed.create_arc(1, pos(0.0, 0.0), pos(2.0, 0.0), pos(1.0, 1.0), pos(1.0, 0.0));
    let arc = ed.doc.segment(a).unwrap();
    assert_eq!(ed.doc.point(arc.center.unwrap()), Some(pos(1.0, 0.0)));
    assert_eq!(ed.doc.point(arc.ctrl.unwrap()), Some(pos(1.0, 1.0)));
    let b = ed.create_bezier(1, pos(0.0, 0.0), pos(1.0, 2.0), pos(3.0, 2.0), pos(4.0, 0.0));
    let bez = ed.doc.segment(b).unwrap();
    assert_eq!(bez.stroke_width_bits, 1.0f64.to_bits());
    assert_eq!(ed.doc.point(bez.handle_in.unwrap()), Some(pos(3.0, 2.0)));
    assert_eq!(ed.doc.layers[0].elements.len(), 3 + 3 + 5 + 5);
    assert!(ed.doc.constraints.is_empty());
}

#[test]
fn deleting_a_fill_takes_its_rectangle() {
    let (mut ed, f) = rect_editor();
    ed.selection = vec![ElementRef::Fill(f)];
    ed.delete_element(ElementRef::Fill(f));
    assert!(ed.doc.fill(f).is_none());
    assert_eq!(ed.doc.all_segments().len(), 0);
    assert_eq!(ed.doc.all_points().len(), 0);
    assert!(ed.doc.constraints.is_empty());
    assert!(ed.selection.is_empty());
    assert!(ed.doc.layers[0].elements.is_empty());
}

#[test]
fn deleting_a_segment_drops_its_dimensions_and_loose_ends() {
    let mut ed = Editor::new();
    let s = ed.create_line(1, pos(0.0, 0.0), pos(5.0, 0.0));
    let seg = ed.doc.segment(s).unwrap();
    let other = ed.create_line(1, pos(9.0, 9.0), pos(9.0, 0.0));
    ed.doc.add_dimension(Dimension { target: DimTarget::Radius { seg: s }, value_bits: 0, offset_bits: 0, slide_bits: 0, sweep_bits: 0 });
    ed.doc.add_dimension(Dimension { target: DimTarget::Radius { seg: other }, value_bits: 0, offset_bits: 0, slide_bits: 0, sweep_bits: 0 });
    ed.selection = vec![ElementRef::Segment(s), ElementRef::Segment(other)];
    ed.delete_element(ElementRef::Segment(s));
    assert!(ed.doc.segment(s).is_none());
    assert_eq!(ed.doc.point(seg.start), None);
    assert_eq!(ed.doc.point(seg.end), None);
    assert_eq!(ed.doc.dimensions.len(), 1);
    assert_eq!(ed.selection, vec![ElementRef::Segment(other)]);
}

#[test]
fn deleting_a_segment_keeps_held_ends() {
    let mut ed = Editor::new();
    let s = ed.create_line(1, pos(0.0, 0.0), pos(5.0, 0.0));
    let seg = ed.doc.segment(s).unwrap();
    let q = ed.doc.add_point(pos(7.0, 7.0));
    ed.doc.add_constraint(ConstraintKind::Coincident, seg.start, q);
    ed.delete_element(ElementRef::Segment(s));
    assert!(ed.doc.point(seg.start).is_some());
    assert_eq!(ed.doc.point(seg.end), None);
}

#[test]
fn deleting_a_point_or_path() {
    let mut ed = Editor::new();
    let s = ed.create_line(1, pos(0.0, 0.0), pos(5.0, 0.0));
    let seg = ed.doc.segment(s).unwrap();
    let path = ed.doc.add_path(vec![s], false, vec![], vec![]);
    ed.delete_element(ElementRef::Path(path));
    assert!(ed.doc.path(path).is_none());
    assert!(ed.doc.segment(s).is_some());
    ed.selection = vec![ElementRef::Point(seg.end)];
    ed.delete_element(ElementRef::Point(seg.end));
    assert!(ed.doc.segment(s).is_none());
    assert!(ed.selection.is_empty());
}

#[test]
fn undo_and_redo_restore_documents() {
    let mut ed = Editor::new();
    assert!(!ed.undo());
    ed.history_begin();
    let s = ed.create_line(1, pos(0.0, 0.0), pos(1.0, 0.0));
    ed.flush_pending_history();
    assert_eq!(ed.undo_stack.len(), 1);
    ed.selection = vec![ElementRef::Segment(s)];
    assert!(ed.undo());
    assert!(ed.doc.segment(s).is_none());
    assert!(ed.selection.is_empty());
    assert_eq!(ed.redo_stack.len(), 1);
    assert!(ed.redo());
    assert!(ed.doc.segment(s).is_some());
    assert!(!ed.redo());
}

#[test]
fn a_gesture_without_change_adds_no_step() {
    let mut ed = Editor::new();
    ed.history_begin();
    ed.flush_pending_history();
    assert!(ed.undo_stack.is_empty());
    ed.history_begin();
    ed.history_begin();
    assert!(ed.undo_stack.is_empty());
}

#[test]
fn moving_to_negative_zero_adds_no_step() {
    let mut ed = Editor::new();
    let s = ed.create_line(1, pos(0.0, 0.0), pos(1.0, 0.0));
    let start = ed.doc.segment(s).unwrap().start;
    ed.history_begin();
    ed.doc.move_point(start, pos(-0.0, 0.0));
    ed.flush_pending_history();
    assert!(ed.undo_stack.is_empty());
    ed.history_begin();
    ed.doc.move_point(start, pos(0.5, 0.0));
    ed.flush_pending_history();
    assert_eq!(ed.undo_stack.len(), 1);
}

#[test]
fn a_gesture_over_a_nan_always_adds_a_step() {
    let mut ed = Editor::new();
    ed.create_line(1, pos(f64::NAN, 0.0), pos(1.0, 0.0));
    ed.history_begin();
    ed.flush_pending_history();
    assert_eq!(ed.undo_stack.len(), 1);
    assert!(ed.redo_stack.is_empty());
}

#[test]
fn a_new_change_forgets_redo() {
    let mut ed = Editor::new();
    ed.history_begin();
    ed.create_line(1, pos(0.0, 0.0), pos(1.0, 0.0));
    ed.flush_pending_history();
    assert!(ed.undo());
    assert_eq!(ed.redo_stack.len(), 1);
    ed.history_begin();
    ed.create_line(1, pos(2.0, 0.0), pos(3.0, 0.0));
    ed.flush_pending_history();
    assert!(ed.redo_stack.is_empty());
    assert_eq!(ed.undo_stack.len(), 1);
}

#[test]
fn merging_selected_close_points() {
    let mut ed = Editor::new();
    let a = ed.create_line(1, pos(0.0, 0.0), pos(5.0, 0.0));
    let b = ed.create_line(1, pos(5.0, 0.0), pos(5.0, 5.0));
    let end = ed.doc.segment(a).unwrap().end;
    let start = ed.doc.segment(b).unwrap().start;
    ed.selection = vec![ElementRef::Point(end), ElementRef::Point(start)];
    let pairs = unglued_pairs(&ed.doc, &ed.selection);
    assert_eq!(pairs, vec![(end, start)]);
    assert!(!ed.merge_selected_points(&vec![]));
    assert!(ed.merge_selected_points(&pairs));
    assert_eq!(ed.doc.segment(b).unwrap().start, end);
    assert_eq!(ed.selection, vec![ElementRef::Point(end)]);
    assert_eq!(ed.undo_stack.len(), 1);
    assert!(!ed.merge_selected_points(&pairs));
}

#[test]
fn glued_pairs_are_not_offered() {
    let mut d = Document::new();
    let a = d.add_point(pos(0.0, 0.0));
    let b = d.add_point(pos(0.0, 0.0));
    let c = d.add_point(pos(0.0, 0.0));
    d.add_constraint(ConstraintKind::Coincident, b, a);
    let sel = vec![ElementRef::Point(a), ElementRef::Point(b), ElementRef::Point(c), ElementRef::Point(a)];
    assert_eq!(unglued_pairs(&d, &sel), vec![(a, c), (b, c), (c, a)]);
    assert_eq!(gate_points(&d, &sel), vec![a, b, c, a]);
}

#[test]
fn segment_owners_and_gates() {
    let mut d = Document::new();
    let a = d.add_point(pos(0.0, 0.0));
    let b = d.add_point(pos(1.0, 0.0));
    let c = d.add_point(pos(2.0, 0.0));
    let s1 = d.add_segment(a, b);
    let s2 = d.add_segment(c, b);
    assert_eq!(owner_segment(&d, b), Some(s1));
    assert_eq!(owner_segment(&d, c), Some(s2));
    assert!(same_segment_owner(&d, b, a));
    assert!(!same_segment_owner(&d, a, c));
    let stale = SegmentId { idx: 9, generation: 0 };
    assert_eq!(gate_segs(&d, &vec![ElementRef::Segment(stale), ElementRef::Segment(s2)]), vec![s2]);
}

#[test]
fn selection_coverage() {
    let (mut ed, f) = rect_editor();
    let fill = ed.doc.fill(f).unwrap().segments.clone();
    assert_eq!(ed.fill_containing(fill[1]), Some(f));
    ed.selection = vec![ElementRef::Fill(f)];
    assert!(ed.element_selected(ElementRef::Segment(fill[2])));
    let corner = ed.doc.segment(fill[0]).unwrap().start;
    assert!(ed.element_selected(ElementRef::Point(corner)));
    ed.selection = vec![ElementRef::Segment(fill[0])];
    assert!(ed.element_selected(ElementRef::Point(corner)));
    assert!(!ed.element_selected(ElementRef::Segment(fill[2])));
}

#[test]
fn lock_chips_name_the_locks() {
    let (ed, _) = rect_editor();
    let c0 = ed.doc.constraints[0];
    let chips = blocks_touching(&ed.doc, &vec![c0.a], &vec![]);
    let labels: Vec<String> = chips.iter().map(|c| c.label.clone()).collect();
    assert_eq!(labels, vec![format!("Horizontal · P{}–P{}", c0.a.idx, c0.b.idx), format!("Vertical · P{}–P3", c0.a.idx)]);
    assert_eq!(chips[1].kind, LockKind::Vertical);
    assert_eq!(point_pair(PointId { idx: 1, generation: 0 }, PointId { idx: 12, generation: 3 }), "P1–P12");
    assert_eq!(seg_label(SegmentId { idx: 40, generation: 0 }), "edge 40");
    assert_eq!(kind_title(ConstraintKind::Coincident), "Can't glue these points");
    assert_eq!(kind_title(ConstraintKind::Parallel), "Can't add Parallel");
}

#[test]
fn lock_chips_cap_at_three_and_include_dimensions() {
    let mut d = Document::new();
    let a = d.add_point(pos(0.0, 0.0));
    let b = d.add_point(pos(1.0, 0.0));
    d.add_dimension(Dimension { target: DimTarget::Points { a, b, mode: DimMode::X }, value_bits: 0, offset_bits: 0, slide_bits: 0, sweep_bits: 0 });
    d.add_constraint(ConstraintKind::Horizontal, a, b);
    let chips = blocks_touching(&d, &vec![b], &vec!["1.00".to_string()]);
    assert_eq!(chips.len(), 2);
    assert_eq!(chips[1].label, "Dimension = 1.00");
    assert_eq!(chips[1].kind, LockKind::Dimension);
    let s = d.add_segment(a, b);
    let t = d.add_segment(b, a);
    d.add_parallel_constraint(s, t);
    d.add_constraint(ConstraintKind::Vertical, a, b);
    let chips = blocks_touching(&d, &vec![a], &vec!["1.00".to_string()]);
    assert_eq!(chips.len(), 3);
    assert_eq!(chips[1].label, format!("Parallel · edge {} – edge {}", s.idx, t.idx));
    assert_eq!(seg_points(&d, s), vec![a, b]);
}

#[test]
fn fillet_sides_flip() {
    assert_eq!(FilletSide::Inner.flip(), FilletSide::Outer);
    assert_eq!(FilletSide::Outer.flip().flip(), FilletSide::Outer);
    assert_eq!(FilletSide::Inner.as_str(), "Inner");
    assert_ne!(SolveStatus::Converged, SolveStatus::MaxIterations);
}

#[test]
fn decimal_text() {
    let mut s = String::from("n=");
    push_decimal(&mut s, 0);
    push_decimal(&mut s, 907);
    assert_eq!(s, "n=0907");
    assert!(str_eq("abc", "abc"));
    assert!(!str_eq("abc", "abd"));
}

#[test]
fn field_parsing_follows_std() {
    assert_eq!(parse_usize("+12"), Some(12));
    assert_eq!(parse_usize("-1"), None);
    assert_eq!(parse_usize(""), None);
    assert_eq!(parse_usize("+"), None);
    assert_eq!(parse_usize("007"), Some(7));
    assert_eq!(parse_unsigned("256", 255), None);
    assert_eq!(parse_unsigned("255", 255), Some(255));
    assert_eq!(parse_signed("-1"), Some(-1));
    assert_eq!(parse_signed("-9223372036854775808"), Some(i64::MIN));
    assert_eq!(parse_signed("9223372036854775808"), None);
    assert_eq!(parse_signed("-+3"), None);
    for t in ["0", "+4", "-", "12a", "99999999999999999999"] {
        assert_eq!(parse_usize(t), t.parse::<usize>().ok());
        assert_eq!(parse_signed(t), t.parse::<i64>().ok());
    }
    assert_eq!(split_str("a,,b", ','), vec!["a", "", "b"]);
    assert_eq!(split_str("", ','), vec![""]);
    assert_eq!(split_once("H:1:2", ':'), ("H".to_string(), Some("1:2".to_string())));
    assert_eq!(split_once("X", ':'), ("X".to_string(), None));
}

fn rect_strings(ed: &Editor) -> (Vec<String>, Vec<String>) {
    let set = ed.clip_gather();
    let pts = set.points.iter().map(|p| {
        let q = ed.doc.point(*p).unwrap();
        format!("{:.3},{:.3}", f64::from_bits(q.x_bits), f64::from_bits(q.y_bits))
    }).collect();
    let strokes = set.segments.iter().map(|s| format!("{}", f64::from_bits(ed.doc.segment(*s).unwrap().stroke_width_bits))).collect();
    (pts, strokes)
}

#[test]
fn copying_a_rectangle() {
    let (mut ed, f) = rect_editor();
    assert_eq!(ed.serialize_selection(&vec![], &vec![]), None);
    ed.selection = vec![ElementRef::Fill(f)];
    let (pts, strokes) = rect_strings(&ed);
    let text = ed.serialize_selection(&pts, &strokes).unwrap();
    assert_eq!(
        text,
        "parametric/v2|P:0.000,0.000|P:100.000,0.000|P:100.000,80.000|P:0.000,80.000\
|S:L,0,1,0,-1,-1,-1,-1|S:L,1,2,0,-1,-1,-1,-1|S:L,2,3,0,-1,-1,-1,-1|S:L,3,0,0,-1,-1,-1,-1\
|F:0,1,2,3|C:horizontal,0,1|C:horizontal,3,2|C:vertical,0,3|C:vertical,1,2"
    );
}

#[test]
fn decoding_clipboard_text() {
    assert!(decode_clip("other/v1|P:1,2").is_none());
    let c = decode_clip("parametric/v2|P:1.5,2|P:3|S:A,0,1,0.5,2,-1|S:Q,0,1,1,1,1|F:0,x,2|H:1:0,1:1,2,9:0,1,2|C:parallel,0,1|C:tangent,0,1|Z:9").unwrap();
    assert_eq!(c.points.len(), 2);
    assert_eq!((c.points[0].x.as_str(), c.points[0].y.as_deref()), ("1.5", Some("2")));
    assert_eq!(c.points[1].y, None);
    assert_eq!(c.segments.len(), 1);
    let s = &c.segments[0];
    assert_eq!((s.kind, s.start, s.end, s.stroke.as_str(), s.ctrl, s.center, s.handle_out), (SegmentKind::Arc, 0, 1, "0.5", Some(2), None, None));
    assert_eq!(c.fills, vec![vec![0, 2]]);
    assert_eq!(c.paths.len(), 1);
    assert!(c.paths[0].closed);
    assert_eq!(c.paths[0].segments, vec![0, 1]);
    assert_eq!(c.paths[0].continuity, vec![ContinuityMode::Smooth, ContinuityMode::Symmetric, ContinuityMode::Corner]);
    assert_eq!(c.paths[0].handles, vec![0, 1, 2]);
    assert_eq!(c.constraints, vec![(ConstraintKind::Parallel, 0, 1, None), (ConstraintKind::Tangent, 0, 1, None)]);
}

#[test]
fn pasting_rebuilds_with_fresh_ids() {
    let mut ed = Editor::new();
    let payload = ClipPayload {
        points: vec![pos(12.0, 12.0), pos(22.0, 12.0), pos(22.0, 22.0)],
        segments: vec![
            ClipSegment { kind: SegmentKind::Line, start: 0, end: 1, stroke_width_bits: 1.0f64.to_bits(), ctrl: None, center: None, handle_out: None, handle_in: None },
            ClipSegment { kind: SegmentKind::Line, start: 1, end: 2, stroke_width_bits: 0, ctrl: None, center: None, handle_out: None, handle_in: None },
            ClipSegment { kind: SegmentKind::Arc, start: 0, end: 2, stroke_width_bits: 0, ctrl: Some(7), center: None, handle_out: None, handle_in: None },
            ClipSegment { kind: SegmentKind::Line, start: 2, end: 0, stroke_width_bits: 0, ctrl: None, center: None, handle_out: None, handle_in: None },
        ],
        fills: vec![vec![0, 1, 2], vec![0, 5]],
        paths: vec![ClipPath { closed: false, segments: vec![0, 1], continuity: vec![ContinuityMode::Smooth], handles: vec![9, 1] }],
        constraints: vec![(ConstraintKind::Horizontal, 0, 1, None), (ConstraintKind::Vertical, 1, 9, None), (ConstraintKind::Parallel, 0, 2, Some((0, 1))), (ConstraintKind::Tangent, 0, 1, Some((0, 7)))],
    };
    assert!(ed.paste_payload(&payload));
    assert_eq!(ed.doc.all_points().len(), 3);
    assert_eq!(ed.doc.all_segments().len(), 3);
    assert_eq!(ed.doc.all_fills().len(), 1);
    assert_eq!(ed.doc.constraints.len(), 3);
    let segs: Vec<SegmentId> = ed.doc.all_segments().iter().map(|(s, _)| *s).collect();
    assert_eq!(ed.doc.constraints[1].kind, ConstraintKind::Parallel);
    assert_eq!(ed.doc.constraints[1].tangent_segments, Some((segs[0], segs[1])));
    assert_eq!(ed.doc.constraints[2].tangent_segments, None);
    let path = ed.doc.all_paths()[0];
    let p = ed.doc.path(path).unwrap();
    assert_eq!(p.continuity, vec![ContinuityMode::Smooth, ContinuityMode::Corner, ContinuityMode::Corner]);
    let anchors = ed.doc.path_anchors(path).unwrap();
    assert_eq!(p.handles[0], (anchors[0], ed.doc.all_points()[1].0));
    assert_eq!(p.handles[1], (anchors[1], anchors[1]));
    assert_eq!(ed.selection.len(), 3 + 1 + 1);
    assert_eq!(ed.doc.layers[0].elements.len(), 3 + 3 + 1 + 1);
    let empty = ClipPayload { points: vec![], segments: vec![], fills: vec![], paths: vec![], constraints: vec![] };
    assert!(!ed.paste_payload(&empty));
}

#[test]
fn pasting_points_only_selects_them() {
    let mut ed = Editor::new();
    let payload = ClipPayload { points: vec![pos(1.0, 1.0)], segments: vec![], fills: vec![], paths: vec![], constraints: vec![] };
    assert!(ed.paste_payload(&payload));
    let p = ed.doc.all_points()[0].0;
    assert_eq!(ed.selection, vec![ElementRef::Point(p)]);
}

#[test]
fn a_copy_decodes_to_what_was_copied() {
    let (mut ed, f) = rect_editor();
    let a = ed.create_arc(1, pos(0.0, 0.0), pos(2.0, 0.0), pos(1.0, 1.0), pos(1.0, 0.0));
    ed.selection = vec![ElementRef::Fill(f), ElementRef::Segment(a)];
    let set = ed.clip_gather();
    let pts: Vec<String> = set.points.iter().map(|p| format!("{}", p.idx)).collect();
    let strokes: Vec<String> = set.segments.iter().map(|_| "1".to_string()).collect();
    let text = ed.serialize_selection(&pts, &strokes).unwrap();
    let c = decode_clip(&text).unwrap();
    assert_eq!(c.points.len(), set.points.len());
    for (i, p) in c.points.iter().enumerate() {
        assert_eq!(p.x, pts[i]);
        assert_eq!(p.y, None);
    }
    assert_eq!(c.segments.len(), 5);
    let arc = &c.segments[4];
    assert_eq!(arc.kind, SegmentKind::Arc);
    let arc_seg = ed.doc.segment(a).unwrap();
    let at = |q: PointId| set.points.iter().position(|p| *p == q).unwrap();
    assert_eq!((arc.start, arc.end), (at(arc_seg.start), at(arc_seg.end)));
    assert_eq!(arc.ctrl, Some(at(arc_seg.ctrl.unwrap())));
    assert_eq!(arc.center, Some(at(arc_seg.center.unwrap())));
    assert_eq!(arc.stroke, "1");
    assert_eq!(c.fills, vec![vec![0, 1, 2, 3]]);
    assert!(c.paths.is_empty());
    assert_eq!(c.constraints.len(), 4);
    assert_eq!(c.constraints[0], (ConstraintKind::Horizontal, 0, 1, None));
}

#[test]
fn a_copied_parallel_pair_is_rebuilt_on_paste() {
    let mut ed = Editor::new();
    let s1 = ed.create_line(1, pos(0.0, 0.0), pos(10.0, 0.0));
    let s2 = ed.create_line(1, pos(0.0, 5.0), pos(10.0, 5.0));
    ed.doc.add_parallel_constraint(s1, s2);
    ed.selection = vec![ElementRef::Segment(s1), ElementRef::Segment(s2)];
    let (pts, strokes) = rect_strings(&ed);
    let text = ed.serialize_selection(&pts, &strokes).unwrap();
    assert!(text.ends_with("|C:parallel,0,2,0,1"));
    let raw = decode_clip(&text).unwrap();
    assert_eq!(raw.constraints, vec![(ConstraintKind::Parallel, 0, 2, Some((0, 1)))]);
    let payload = ClipPayload {
        points: raw.points.iter().map(|p| pos(p.x.parse::<f64>().unwrap() + 12.0, p.y.as_ref().unwrap().parse::<f64>().unwrap() + 12.0)).collect(),
        segments: raw.segments.iter().map(|s| ClipSegment {
            kind: s.kind, start: s.start, end: s.end, stroke_width_bits: s.stroke.parse::<f64>().unwrap().to_bits(),
            ctrl: s.ctrl, center: s.center, handle_out: s.handle_out, handle_in: s.handle_in,
        }).collect(),
        fills: raw.fills.clone(),
        paths: vec![],
        constraints: raw.constraints.clone(),
    };
    let n = ed.doc.constraints.len();
    assert!(ed.paste_payload(&payload));
    assert_eq!(ed.doc.constraints.len(), n + 1);
    let added = ed.doc.constraints[n];
    assert_eq!(added.kind, ConstraintKind::Parallel);
    let (x, y) = added.tangent_segments.unwrap();
    assert_eq!(ed.selection, vec![ElementRef::Segment(x), ElementRef::Segment(y)]);
    assert_eq!(added.a, ed.doc.segment(x).unwrap().start);
    assert_eq!(added.b, ed.doc.segment(y).unwrap().start);
}

#[test]
fn pressing_empty_canvas_clears_the_selection_unless_shifted() {
    let (mut ed, f) = rect_editor();
    ed.selection = vec![ElementRef::Fill(f)];
    assert_eq!(ed.press_step(None, false, true, 1), PressAction::Marquee);
    assert_eq!(ed.selection, vec![ElementRef::Fill(f)]);
    assert_eq!(ed.press_step(None, false, false, 1), PressAction::Marquee);
    assert!(ed.selection.is_empty());
}

#[test]
fn a_loose_hit_defers_the_pick() {
    let (mut ed, f) = rect_editor();
    let s = ed.doc.fill(f).unwrap().segments[0];
    assert_eq!(ed.press_step(Some(ElementRef::Segment(s)), false, false, 1), PressAction::DeferredPick(ElementRef::Segment(s)));
    assert!(ed.selection.is_empty());
}

#[test]
fn pressing_an_edge_selects_and_grabs_it() {
    let (mut ed, f) = rect_editor();
    let s = ed.doc.fill(f).unwrap().segments[0];
    let r = ed.press_step(Some(ElementRef::Segment(s)), true, false, 1);
    assert_eq!(r, PressAction::Grab(ElementRef::Segment(s), GrabKind::Segment { seg: s, arc_body: false }));
    assert_eq!(ed.selection, vec![ElementRef::Segment(s)]);
    let t = ed.doc.fill(f).unwrap().segments[1];
    let r = ed.press_step(Some(ElementRef::Segment(t)), true, true, 1);
    assert_eq!(r, PressAction::Grab(ElementRef::Segment(t), GrabKind::Selection));
    assert_eq!(ed.selection, vec![ElementRef::Segment(s), ElementRef::Segment(t)]);
}

#[test]
fn a_double_press_on_an_edge_grabs_its_fill() {
    let (mut ed, f) = rect_editor();
    let s = ed.doc.fill(f).unwrap().segments[0];
    let r = ed.press_step(Some(ElementRef::Segment(s)), true, false, 2);
    assert_eq!(r, PressAction::Grab(ElementRef::Fill(f), GrabKind::Selection));
    assert_eq!(ed.selection, vec![ElementRef::Fill(f)]);
}

#[test]
fn a_loose_hit_inside_a_multi_selection_grabs() {
    let (mut ed, f) = rect_editor();
    let s = ed.doc.fill(f).unwrap().segments[0];
    let t = ed.doc.fill(f).unwrap().segments[1];
    ed.selection = vec![ElementRef::Segment(s), ElementRef::Segment(t)];
    let p = ed.doc.segment(s).unwrap().start;
    let r = ed.press_step(Some(ElementRef::Point(p)), false, false, 1);
    assert_eq!(r, PressAction::Grab(ElementRef::Point(p), GrabKind::Point(p)));
    assert_eq!(ed.selection, vec![ElementRef::Segment(s), ElementRef::Segment(t)]);
}

fn no_picks() -> ConstraintPicks {
    ConstraintPicks { picks: Vec::new(), points: Vec::new() }
}

#[test]
fn two_free_lines_orient_the_second_to_the_first() {
    let mut ed = Editor::new();
    let a = ed.create_line(1, pos(0.0, 0.0), pos(10.0, 0.0));
    let b = ed.create_line(1, pos(0.0, 5.0), pos(10.0, 7.0));
    let mut st = no_picks();
    assert_eq!(ed.constraint_pick(&mut st, ConstraintTool::Parallel, ElementRef::Segment(a), None), PickStep::Pending);
    assert_eq!(ed.selection, vec![ElementRef::Segment(a)]);
    assert_eq!(ed.constraint_pick(&mut st, ConstraintTool::Parallel, ElementRef::Segment(a), None), PickStep::Pending);
    assert_eq!(st.picks.len(), 1);
    let r = ed.constraint_pick(&mut st, ConstraintTool::Parallel, ElementRef::Segment(b), None);
    assert_eq!(r, PickStep::Orient { foundation: a, moving: b });
    assert!(st.picks.is_empty());
    assert_eq!(ed.selection, vec![ElementRef::Segment(a), ElementRef::Segment(b)]);
}

#[test]
fn an_anchored_second_line_becomes_the_foundation() {
    let (mut ed, f) = rect_editor();
    let e0 = ed.doc.fill(f).unwrap().segments[0];
    let e1 = ed.doc.fill(f).unwrap().segments[1];
    let mut st = no_picks();
    ed.constraint_pick(&mut st, ConstraintTool::Perpendicular, ElementRef::Segment(e0), None);
    let r = ed.constraint_pick(&mut st, ConstraintTool::Perpendicular, ElementRef::Segment(e1), None);
    assert_eq!(r, PickStep::Orient { foundation: e1, moving: e0 });
}

#[test]
fn two_picked_points_are_joined() {
    let mut ed = Editor::new();
    let a = ed.create_line(1, pos(0.0, 0.0), pos(10.0, 0.0));
    let b = ed.create_line(1, pos(20.0, 0.0), pos(30.0, 0.0));
    let p = ed.doc.segment(a).unwrap().end;
    let q = ed.doc.segment(b).unwrap().start;
    let mut st = no_picks();
    assert_eq!(ed.constraint_pick(&mut st, ConstraintTool::Coincident, ElementRef::Point(p), Some(p)), PickStep::Pending);
    let r = ed.constraint_pick(&mut st, ConstraintTool::Coincident, ElementRef::Point(q), Some(q));
    assert_eq!(r, PickStep::Join { a: p, b: q });
    assert!(st.picks.is_empty() && st.points.is_empty());
    assert_eq!(ed.selection, vec![ElementRef::Point(p), ElementRef::Point(q)]);
}

#[test]
fn a_point_then_an_edge_puts_the_point_on_the_edge() {
    let mut ed = Editor::new();
    let a = ed.create_line(1, pos(0.0, 0.0), pos(10.0, 0.0));
    let b = ed.create_line(1, pos(5.0, 5.0), pos(5.0, 9.0));
    let p = ed.doc.segment(b).unwrap().start;
    let near = ed.doc.segment(a).unwrap().start;
    let mut st = no_picks();
    ed.constraint_pick(&mut st, ConstraintTool::Coincident, ElementRef::Point(p), Some(p));
    let r = ed.constraint_pick(&mut st, ConstraintTool::Coincident, ElementRef::Segment(a), Some(near));
    assert_eq!(r, PickStep::OnEdge { point: p, edge: a });
    assert!(st.picks.is_empty() && st.points.is_empty());
}

#[test]
fn two_picks_without_points_are_dropped() {
    let mut ed = Editor::new();
    let a = ed.create_line(1, pos(0.0, 0.0), pos(10.0, 0.0));
    let b = ed.create_line(1, pos(5.0, 5.0), pos(5.0, 9.0));
    let mut st = no_picks();
    ed.constraint_pick(&mut st, ConstraintTool::Coincident, ElementRef::Segment(a), None);
    let r = ed.constraint_pick(&mut st, ConstraintTool::Coincident, ElementRef::Segment(b), None);
    assert_eq!(r, PickStep::Dropped);
    assert!(st.picks.is_empty());
}

#[test]
fn the_level_tool_takes_a_line_at_once() {
    let mut ed = Editor::new();
    let a = ed.create_line(1, pos(0.0, 0.0), pos(10.0, 1.0));
    let s = ed.doc.segment(a).unwrap();
    let mut st = no_picks();
    let r = ed.constraint_pick(&mut st, ConstraintTool::HorizontalVertical, ElementRef::Segment(a), None);
    assert_eq!(r, PickStep::Level { seg: a, start: s.start, end: s.end });
    assert!(st.picks.is_empty());
    assert_eq!(ed.selection, vec![ElementRef::Segment(a)]);
}

#[test]
fn the_tangent_tool_waits_on_a_leading_line() {
    let mut ed = Editor::new();
    let a = ed.create_line(1, pos(0.0, 0.0), pos(10.0, 0.0));
    let b = ed.create_line(1, pos(5.0, 5.0), pos(5.0, 9.0));
    let mut st = no_picks();
    ed.constraint_pick(&mut st, ConstraintTool::Tangent, ElementRef::Segment(a), None);
    let r = ed.constraint_pick(&mut st, ConstraintTool::Tangent, ElementRef::Segment(b), None);
    assert_eq!(r, PickStep::Pending);
    assert_eq!(st.picks.len(), 2);
    let p = ed.doc.segment(a).unwrap().start;
    let mut st = no_picks();
    ed.constraint_pick(&mut st, ConstraintTool::Tangent, ElementRef::Point(p), None);
    let r = ed.constraint_pick(&mut st, ConstraintTool::Tangent, ElementRef::Point(ed.doc.segment(b).unwrap().end), None);
    assert_eq!(r, PickStep::CurvePair);
}

#[test]
fn a_fillet_arc_joins_the_loop_between_its_edges() {
    let (mut ed, f) = rect_editor();
    let e = ed.doc.fill(f).unwrap().segments.clone();
    let arc = ed.create_line(1, pos(200.0, 0.0), pos(210.0, 0.0));
    ed.doc.splice_arc_into_loops(e[1], e[0], arc);
    assert_eq!(ed.doc.fill(f).unwrap().segments, vec![e[0], arc, e[1], e[2], e[3]]);
    ed.doc.splice_arc_into_loops(e[0], e[1], arc);
    assert_eq!(ed.doc.fill(f).unwrap().segments, vec![e[0], arc, e[1], e[2], e[3]]);
}

#[test]
fn a_fillet_arc_joins_across_the_loop_seam_only_where_edges_meet() {
    let (mut ed, f) = rect_editor();
    let e = ed.doc.fill(f).unwrap().segments.clone();
    let arc = ed.create_line(1, pos(200.0, 0.0), pos(210.0, 0.0));
    ed.doc.splice_arc_into_loops(e[0], e[2], arc);
    assert_eq!(ed.doc.fill(f).unwrap().segments, e);
    ed.doc.splice_arc_into_loops(e[0], e[3], arc);
    assert_eq!(ed.doc.fill(f).unwrap().segments, vec![e[0], e[1], e[2], e[3], arc]);
}
