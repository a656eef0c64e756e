//! What reading back a copied clipboard text gives: the copied records,
//! field for field.

use vstd::prelude::*;
use crate::clip_parse::{
    all_digits, constraint_kind_of, decode_part, decode_parts, decoded, digits_value, head_of, is_digit,
    law_decimal_parses_back, opt_field, parse_index, parse_indices, parse_int, parse_modes, parse_uint, seg_kind_of,
    split, tail_of, ConRec, Decoded, PathRec, PointRec, SegRec,
};
use crate::clipboard::{first_pos, index_text, joined, kind_letter, lemma_first_pos_bounds, lemma_first_pos_keep,
    lemma_first_pos_step, opt_index_text, point_records, seg_fields, seg_record, seg_records, fill_records, seg_index_texts,
    path_records, path_record, mode_texts, handle_texts, constraint_records, clip_text, gather, pair_pos, pair_text};
use crate::ids::{FillId, PathId};
use crate::constraints::Constraint;
use crate::document::{Document, Path, Segment};
use crate::ids::{PointId, SegmentId};
use crate::constraints::{kind_name, ConstraintKind, ElementRef};
use crate::document::{continuity_code, continuity_from_code, law_continuity_code_round_trip, ContinuityMode, SegmentKind};
use crate::text::decimal;

verus! {

// ---- splitting and joining ----

/// Items separated by `sep`.
pub open spec fn join_with(items: Seq<Seq<char>>, sep: char) -> Seq<char>
    decreases items.len(),
{
    if items.len() == 0 {
        seq![]
    } else if items.len() == 1 {
        items[0]
    } else {
        join_with(items.drop_last(), sep) + seq![sep] + items.last()
    }
}

pub proof fn lemma_joined_is_join_with(items: Seq<Seq<char>>)
    ensures
        joined(items) == join_with(items, ','),
    decreases items.len(),
{
    reveal_strlit(",");
    assert(","@ =~= seq![',']);
    if items.len() > 1 {
        lemma_joined_is_join_with(items.drop_last());
    }
}

pub proof fn lemma_split_no_sep(s: Seq<char>, sep: char)
    requires
        !s.contains(sep),
    ensures
        split(s, sep) == seq![s],
    decreases s.len(),
{
    if s.len() > 0 {
        assert(!s.drop_last().contains(sep)) by {
            if s.drop_last().contains(sep) {
                let k = choose|k: int| 0 <= k < s.drop_last().len() && s.drop_last()[k] == sep;
                assert(s[k] == sep);
            }
        }
        lemma_split_no_sep(s.drop_last(), sep);
        assert(s.last() != sep) by {
            assert(s[s.len() - 1] == s.last());
        }
        assert(s.drop_last().push(s.last()) =~= s);
    } else {
        assert(s =~= Seq::<char>::empty());
    }
}

pub proof fn lemma_split_append(a: Seq<char>, b: Seq<char>, sep: char)
    ensures
        split(a + seq![sep] + b, sep) == split(a, sep) + split(b, sep),
    decreases b.len(),
{
    crate::clip_parse::lemma_split_nonempty(b, sep);
    if b.len() == 0 {
        assert(a + seq![sep] + b =~= a.push(sep));
        assert((a.push(sep)).drop_last() =~= a);
        assert(split(b, sep) =~= seq![Seq::<char>::empty()]);
        assert(split(a, sep).push(seq![]) =~= split(a, sep) + split(b, sep));
    } else {
        let b1 = b.drop_last();
        let c = b.last();
        lemma_split_append(a, b1, sep);
        crate::clip_parse::lemma_split_nonempty(b1, sep);
        assert((a + seq![sep] + b).drop_last() =~= a + seq![sep] + b1);
        assert((a + seq![sep] + b).last() == c);
        assert(b.drop_last() =~= b1);
        let pre = split(a, sep) + split(b1, sep);
        if c == sep {
            assert(pre.push(seq![]) =~= split(a, sep) + split(b1, sep).push(seq![]));
        } else {
            let sb = split(b1, sep);
            assert(pre.update(pre.len() - 1, pre.last().push(c)) =~= split(a, sep) + sb.update(sb.len() - 1, sb.last().push(c)));
        }
    }
}

/// Splitting items joined by `sep` gives them back, when none holds `sep`.
pub proof fn lemma_split_join(items: Seq<Seq<char>>, sep: char)
    requires
        items.len() > 0,
        forall|i: int| 0 <= i < items.len() ==> !(#[trigger] items[i]).contains(sep),
    ensures
        split(join_with(items, sep), sep) == items,
    decreases items.len(),
{
    if items.len() == 1 {
        lemma_split_no_sep(items[0], sep);
        assert(items =~= seq![items[0]]);
    } else {
        lemma_split_join(items.drop_last(), sep);
        lemma_split_append(join_with(items.drop_last(), sep), items.last(), sep);
        lemma_split_no_sep(items.last(), sep);
        assert(items.drop_last() + seq![items.last()] =~= items);
    }
}

/// Whether no item holds `c`.
pub open spec fn none_hold(items: Seq<Seq<char>>, c: char) -> bool {
    forall|i: int| 0 <= i < items.len() ==> !(#[trigger] items[i]).contains(c)
}

pub proof fn lemma_join_free(items: Seq<Seq<char>>, sep: char, c: char)
    requires
        none_hold(items, c),
        sep != c,
    ensures
        !join_with(items, sep).contains(c),
    decreases items.len(),
{
    if items.len() > 1 {
        lemma_join_free(items.drop_last(), sep, c);
        let j = join_with(items.drop_last(), sep) + seq![sep] + items.last();
        if j.contains(c) {
            let k = choose|k: int| 0 <= k < j.len() && j[k] == c;
            let n = join_with(items.drop_last(), sep).len();
            if k < n {
                assert(join_with(items.drop_last(), sep)[k] == c);
            } else if k > n {
                assert(items.last()[k - n - 1] == c);
                assert(items[items.len() - 1] == items.last());
            }
        }
    } else if items.len() == 1 {
        assert(items[0] == join_with(items, sep));
    }
}

/// `a`, `sep`, `b`: the head is `a` and the tail `b` when `a` has no `sep`.
pub proof fn lemma_head_tail(a: Seq<char>, b: Seq<char>, sep: char)
    requires
        !a.contains(sep),
    ensures
        head_of(a + seq![sep] + b, sep) == a,
        tail_of(a + seq![sep] + b, sep) == Some(b),
{
    let s = a + seq![sep] + b;
    let n = a.len() as int;
    lemma_first_pos_bounds(a, sep);
    assert(s.take(n) =~= a);
    lemma_first_pos_step(s, sep, n);
    lemma_first_pos_keep(s, sep, n + 1);
    assert(s.take(n) =~= a);
    assert(s.skip(n + 1) =~= b);
}

// ---- number fields ----

pub proof fn lemma_digits_free(s: Seq<char>, c: char)
    requires
        all_digits(s),
        !is_digit(c),
    ensures
        !s.contains(c),
{
    if s.contains(c) {
        let k = choose|k: int| 0 <= k < s.len() && s[k] == c;
        assert(is_digit(s[k]));
    }
}

/// The text of an index field holds none of the format's separators.
pub proof fn lemma_index_text_free(i: int)
    ensures
        !index_text(i).contains(','),
        !index_text(i).contains('|'),
        !index_text(i).contains(':'),
{
    reveal_strlit("-1");
    if i < 0 {
        assert("-1"@ =~= seq!['-', '1']);
    } else {
        law_decimal_parses_back(i as nat, 0);
        lemma_digits_free(decimal(i as nat), ',');
        lemma_digits_free(decimal(i as nat), '|');
        lemma_digits_free(decimal(i as nat), ':');
    }
}

/// Where an index field reads back: the index for a non-negative one
/// within range, nothing for "-1".
pub proof fn lemma_index_text_parses(i: int)
    requires
        i < usize::MAX,
        i <= 9223372036854775807,
    ensures
        parse_index(index_text(i)) == (if i >= 0 { Some(i as usize) } else { None::<usize> }),
        opt_field(seq![index_text(i)], 0) == (if i >= 0 { Some(i as usize) } else { None::<usize> }),
{
    reveal_strlit("-1");
    if i >= 0 {
        law_decimal_parses_back(i as nat, usize::MAX as nat);
        law_decimal_parses_back(i as nat, 9223372036854775807);
        let t = decimal(i as nat);
        assert(t[0] != '+' && t[0] != '-') by {
            assert(is_digit(t[0]));
        }
        assert(parse_int(t) == Some(i));
    } else {
        let t = "-1"@;
        assert(t =~= seq!['-', '1']);
        assert(!all_digits(t)) by {
            assert(!is_digit(t[0]));
        }
        let u = t.skip(1);
        assert(u =~= seq!['1']);
        assert(u.drop_last() =~= Seq::<char>::empty());
        assert(u.last() == '1');
        assert(('1' as u32) == 49);
        assert(digits_value(u.drop_last()) == 0);
        assert(all_digits(t.skip(1)));
        assert(digits_value(t.skip(1)) == 1);
        assert(parse_int(t) == Some(-1int));
    }
}

// ---- tags and kinds ----

pub proof fn lemma_kind_letter(k: SegmentKind)
    ensures
        seg_kind_of(kind_letter(k)) == Some(k),
        !kind_letter(k).contains(','),
        !kind_letter(k).contains('|'),
{
    reveal_strlit("L");
    reveal_strlit("M");
    reveal_strlit("A");
    reveal_strlit("B");
    assert("L"@ =~= seq!['L']);
    assert("M"@ =~= seq!['M']);
    assert("A"@ =~= seq!['A']);
    assert("B"@ =~= seq!['B']);
    let t = kind_letter(k);
    assert(t.len() == 1);
    assert(!t.contains(',')) by {
        if t.contains(',') {
            assert(t[0] == ',');
        }
    }
    assert(!t.contains('|')) by {
        if t.contains('|') {
            assert(t[0] == '|');
        }
    }
    match k {
        SegmentKind::Line => {},
        SegmentKind::Ruler => {
            assert("M"@[0] != "L"@[0]);
        },
        SegmentKind::Arc => {
            assert("A"@[0] != "L"@[0]);
            assert("A"@[0] != "M"@[0]);
        },
        SegmentKind::Bezier => {
            assert("B"@[0] != "L"@[0]);
            assert("B"@[0] != "M"@[0]);
            assert("B"@[0] != "A"@[0]);
        },
    }
}

pub proof fn lemma_kind_name(k: ConstraintKind)
    ensures
        constraint_kind_of(kind_name(k)) == Some(k),
        !kind_name(k).contains(','),
        !kind_name(k).contains('|'),
{
    reveal_strlit("coincident");
    reveal_strlit("horizontal");
    reveal_strlit("vertical");
    reveal_strlit("tangent");
    reveal_strlit("parallel");
    reveal_strlit("perpendicular");
    let t = kind_name(k);
    assert forall|i: int| 0 <= i < t.len() implies 97 <= (#[trigger] t[i] as u32) <= 122 by {}
    assert(!t.contains(',')) by {
        if t.contains(',') {
            let i = choose|i: int| 0 <= i < t.len() && t[i] == ',';
            assert(97 <= (t[i] as u32));
        }
    }
    assert(!t.contains('|')) by {
        if t.contains('|') {
            let i = choose|i: int| 0 <= i < t.len() && t[i] == '|';
            assert((t[i] as u32) <= 122);
        }
    }
    assert("coincident"@[0] != "horizontal"@[0]);
    assert("vertical"@[0] != "parallel"@[0]);
    match k {
        ConstraintKind::Coincident => {},
        ConstraintKind::Horizontal => {},
        ConstraintKind::Vertical => {},
        ConstraintKind::Tangent => {},
        ConstraintKind::Parallel => {
            assert("parallel"@.len() != "coincident"@.len());
            assert("parallel"@.len() != "horizontal"@.len());
            assert("parallel"@.len() != "tangent"@.len());
        },
        ConstraintKind::Perpendicular => {
            assert("perpendicular"@.len() != "coincident"@.len());
            assert("perpendicular"@.len() != "vertical"@.len());
            assert("perpendicular"@.len() != "tangent"@.len());
        },
    }
}

/// A record: its one-letter tag, ':', then its body.
pub open spec fn record(tag: char, body: Seq<char>) -> Seq<char> {
    seq![tag, ':'] + body
}

pub proof fn lemma_record_split(tag: char, body: Seq<char>)
    requires
        tag != ':',
    ensures
        head_of(record(tag, body), ':') == seq![tag],
        tail_of(record(tag, body), ':') == Some(body),
{
    assert(!seq![tag].contains(':')) by {
        if seq![tag].contains(':') {
            assert(seq![tag][0] == ':');
        }
    }
    assert(record(tag, body) =~= seq![tag] + seq![':'] + body);
    lemma_head_tail(seq![tag], body, ':');
}

// ---- the text as records ----

/// Each record preceded by '|'.
pub open spec fn bars(r: Seq<Seq<char>>) -> Seq<char>
    decreases r.len(),
{
    if r.len() == 0 { seq![] } else { bars(r.drop_last()) + seq!['|'] + r.last() }
}

pub proof fn lemma_bars_append(a: Seq<Seq<char>>, b: Seq<Seq<char>>)
    ensures
        bars(a + b) == bars(a) + bars(b),
    decreases b.len(),
{
    if b.len() == 0 {
        assert(a + b =~= a);
        assert(bars(a) + bars(b) =~= bars(a));
    } else {
        lemma_bars_append(a, b.drop_last());
        assert((a + b).drop_last() =~= a + b.drop_last());
        assert((a + b).last() == b.last());
        assert(bars(a) + bars(b) =~= bars(a) + bars(b.drop_last()) + seq!['|'] + b.last());
    }
}

pub proof fn lemma_bars_join(r: Seq<Seq<char>>)
    requires
        r.len() > 0,
    ensures
        bars(r) == seq!['|'] + join_with(r, '|'),
    decreases r.len(),
{
    if r.len() == 1 {
        assert(r.drop_last() =~= Seq::<Seq<char>>::empty());
        assert(bars(r.drop_last()) == Seq::<char>::empty());
        assert(r.last() == r[0]);
        assert(bars(r) =~= seq!['|'] + r[0]);
    } else {
        lemma_bars_join(r.drop_last());
        assert(bars(r) =~= seq!['|'] + join_with(r, '|'));
    }
}

/// Decoding parts onto records already decoded.
pub open spec fn decode_from(acc: Decoded, parts: Seq<Seq<char>>) -> Decoded
    decreases parts.len(),
{
    if parts.len() == 0 { acc } else { decode_part(decode_from(acc, parts.drop_last()), parts.last()) }
}

pub open spec fn no_records() -> Decoded {
    (seq![], seq![], seq![], seq![], seq![])
}

pub proof fn lemma_decode_parts_from(parts: Seq<Seq<char>>)
    ensures
        decode_parts(parts) == decode_from(no_records(), parts),
    decreases parts.len(),
{
    if parts.len() > 0 {
        lemma_decode_parts_from(parts.drop_last());
    }
}

pub proof fn lemma_decode_from_append(acc: Decoded, a: Seq<Seq<char>>, b: Seq<Seq<char>>)
    ensures
        decode_from(acc, a + b) == decode_from(decode_from(acc, a), b),
    decreases b.len(),
{
    if b.len() == 0 {
        assert(a + b =~= a);
    } else {
        lemma_decode_from_append(acc, a, b.drop_last());
        assert((a + b).drop_last() =~= a + b.drop_last());
        assert((a + b).last() == b.last());
    }
}

// ---- point records ----

pub open spec fn point_recs(ptext: Seq<Seq<char>>) -> Seq<Seq<char>>
    decreases ptext.len(),
{
    if ptext.len() == 0 { seq![] } else { point_recs(ptext.drop_last()).push(record('P', ptext.last())) }
}

/// What a point record reads back as: the coordinate text before the
/// first ',', and the text after it up to the next ',' if there is one.
pub open spec fn point_fields(t: Seq<char>) -> PointRec {
    let xy = split(t, ',');
    (xy[0], if xy.len() > 1 { Some(xy[1]) } else { None })
}

pub open spec fn expected_points(ptext: Seq<Seq<char>>) -> Seq<PointRec>
    decreases ptext.len(),
{
    if ptext.len() == 0 { seq![] } else { expected_points(ptext.drop_last()).push(point_fields(ptext.last())) }
}

pub proof fn lemma_point_records(ptext: Seq<Seq<char>>)
    requires
        none_hold(ptext, '|'),
    ensures
        point_records(ptext) == bars(point_recs(ptext)),
        none_hold(point_recs(ptext), '|'),
        point_recs(ptext).len() == ptext.len(),
    decreases ptext.len(),
{
    reveal_strlit("|P:");
    if ptext.len() > 0 {
        lemma_point_records(ptext.drop_last());
        assert(point_recs(ptext).drop_last() =~= point_recs(ptext.drop_last()));
        assert("|P:"@ =~= seq!['|', 'P', ':']);
        assert(point_records(ptext) =~= bars(point_recs(ptext)));
        let r = record('P', ptext.last());
        assert(!ptext[ptext.len() - 1].contains('|'));
        assert(!r.contains('|')) by {
            if r.contains('|') {
                let k = choose|k: int| 0 <= k < r.len() && r[k] == '|';
                assert(ptext.last()[k - 2] == '|');
            }
        }
        assert forall|i: int| 0 <= i < point_recs(ptext).len() implies !(#[trigger] point_recs(ptext)[i]).contains('|') by {
            if i < ptext.len() - 1 {
                assert(point_recs(ptext)[i] == point_recs(ptext.drop_last())[i]);
            }
        }
    }
}

pub open spec fn with_points(acc: Decoded, p: Seq<PointRec>) -> Decoded {
    (acc.0 + p, acc.1, acc.2, acc.3, acc.4)
}

pub proof fn lemma_decode_points(acc: Decoded, ptext: Seq<Seq<char>>)
    ensures
        decode_from(acc, point_recs(ptext)) == with_points(acc, expected_points(ptext)),
    decreases ptext.len(),
{
    reveal_strlit("P");
    assert("P"@ =~= seq!['P']);
    if ptext.len() == 0 {
        assert(acc.0 + Seq::<PointRec>::empty() =~= acc.0);
    } else {
        lemma_decode_points(acc, ptext.drop_last());
        assert(point_recs(ptext).drop_last() =~= point_recs(ptext.drop_last()));
        lemma_record_split('P', ptext.last());
        let prev = with_points(acc, expected_points(ptext.drop_last()));
        assert(decode_part(prev, record('P', ptext.last())) == with_points(acc, expected_points(ptext))) by {
            assert(prev.0.push(point_fields(ptext.last())) =~= acc.0 + expected_points(ptext));
        }
    }
}

// ---- segment records ----

/// Index of a copied point, when the point was copied.
pub open spec fn opt_pos(pts: Seq<PointId>, o: Option<PointId>) -> Option<usize> {
    match o {
        Some(p) => if first_pos(pts, p) >= 0 { Some(first_pos(pts, p) as usize) } else { None },
        None => None,
    }
}

pub open spec fn seg_recs(d: Document, pts: Seq<PointId>, segs: Seq<SegmentId>, stext: Seq<Seq<char>>) -> Seq<Seq<char>>
    decreases segs.len(),
{
    if segs.len() == 0 {
        seq![]
    } else {
        seg_recs(d, pts, segs.drop_last(), stext).push(
            record('S', joined(seg_fields(pts, d.sg(segs.last()).unwrap(), stext[segs.len() - 1]))))
    }
}

/// A copied segment reads back when both its endpoints were copied.
pub open spec fn expected_segs(d: Document, pts: Seq<PointId>, segs: Seq<SegmentId>, stext: Seq<Seq<char>>) -> Seq<SegRec>
    decreases segs.len(),
{
    if segs.len() == 0 {
        seq![]
    } else {
        let pre = expected_segs(d, pts, segs.drop_last(), stext);
        let g = d.sg(segs.last()).unwrap();
        let (a, b) = (first_pos(pts, g.start), first_pos(pts, g.end));
        if a >= 0 && b >= 0 {
            pre.push((g.kind, a as usize, b as usize, stext[segs.len() - 1],
                (opt_pos(pts, g.ctrl), opt_pos(pts, g.center), opt_pos(pts, g.handle_out), opt_pos(pts, g.handle_in))))
        } else {
            pre
        }
    }
}

/// The copied points can be numbered by record fields.
pub open spec fn indexable_len(n: nat) -> bool {
    n < usize::MAX && n <= 9223372036854775807
}

pub proof fn lemma_opt_index_text(pts: Seq<PointId>, o: Option<PointId>)
    requires
        indexable_len(pts.len()),
    ensures
        opt_field(seq![opt_index_text(pts, o)], 0) == opt_pos(pts, o),
        !opt_index_text(pts, o).contains(','),
        !opt_index_text(pts, o).contains('|'),
        !opt_index_text(pts, o).contains(':'),
{
    match o {
        Some(p) => {
            lemma_first_pos_bounds(pts, p);
            lemma_index_text_parses(first_pos(pts, p));
            lemma_index_text_free(first_pos(pts, p));
        },
        None => {
            reveal_strlit("-1");
            lemma_index_text_parses(-1);
            lemma_index_text_free(-1);
        },
    }
}

pub proof fn lemma_seg_fields(pts: Seq<PointId>, g: Segment, stroke: Seq<char>)
    requires
        indexable_len(pts.len()),
        !stroke.contains(','),
        !stroke.contains('|'),
    ensures
        split(joined(seg_fields(pts, g, stroke)), ',') == seg_fields(pts, g, stroke),
        !joined(seg_fields(pts, g, stroke)).contains('|'),
        ({
            let f = seg_fields(pts, g, stroke);
            let (a, b) = (first_pos(pts, g.start), first_pos(pts, g.end));
            &&& seg_kind_of(f[0]) == Some(g.kind)
            &&& parse_index(f[1]) == (if a >= 0 { Some(a as usize) } else { None::<usize> })
            &&& parse_index(f[2]) == (if b >= 0 { Some(b as usize) } else { None::<usize> })
            &&& opt_field(f, 4) == opt_pos(pts, g.ctrl)
            &&& opt_field(f, 5) == opt_pos(pts, g.center)
            &&& opt_field(f, 6) == opt_pos(pts, g.handle_out)
            &&& opt_field(f, 7) == opt_pos(pts, g.handle_in)
        }),
{
    let f = seg_fields(pts, g, stroke);
    lemma_kind_letter(g.kind);
    lemma_first_pos_bounds(pts, g.start);
    lemma_first_pos_bounds(pts, g.end);
    lemma_index_text_parses(first_pos(pts, g.start));
    lemma_index_text_parses(first_pos(pts, g.end));
    lemma_index_text_free(first_pos(pts, g.start));
    lemma_index_text_free(first_pos(pts, g.end));
    lemma_opt_index_text(pts, g.ctrl);
    lemma_opt_index_text(pts, g.center);
    lemma_opt_index_text(pts, g.handle_out);
    lemma_opt_index_text(pts, g.handle_in);
    assert(none_hold(f, ','));
    assert(none_hold(f, '|'));
    lemma_joined_is_join_with(f);
    lemma_split_join(f, ',');
    lemma_join_free(f, ',', '|');
}

pub proof fn lemma_seg_record(pts: Seq<PointId>, g: Segment, stroke: Seq<char>)
    ensures
        seg_record(pts, g, stroke) == seq!['|'] + record('S', joined(seg_fields(pts, g, stroke))),
{
    reveal_strlit("|S:");
    assert("|S:"@ =~= seq!['|', 'S', ':']);
    assert(seg_record(pts, g, stroke) =~= seq!['|'] + record('S', joined(seg_fields(pts, g, stroke))));
}

pub proof fn lemma_seg_records(d: Document, pts: Seq<PointId>, segs: Seq<SegmentId>, stext: Seq<Seq<char>>)
    requires
        indexable_len(pts.len()),
        stext.len() >= segs.len(),
        none_hold(stext, ','),
        none_hold(stext, '|'),
    ensures
        seg_records(d, pts, segs, stext) == bars(seg_recs(d, pts, segs, stext)),
        none_hold(seg_recs(d, pts, segs, stext), '|'),
        seg_recs(d, pts, segs, stext).len() == segs.len(),
    decreases segs.len(),
{
    if segs.len() > 0 {
        lemma_seg_records(d, pts, segs.drop_last(), stext);
        let g = d.sg(segs.last()).unwrap();
        let t = stext[segs.len() - 1];
        lemma_seg_record(pts, g, t);
        lemma_seg_fields(pts, g, t);
        let recs = seg_recs(d, pts, segs, stext);
        assert(recs.drop_last() =~= seg_recs(d, pts, segs.drop_last(), stext));
        let r = record('S', joined(seg_fields(pts, g, t)));
        assert(!r.contains('|')) by {
            if r.contains('|') {
                let k = choose|k: int| 0 <= k < r.len() && r[k] == '|';
                assert(joined(seg_fields(pts, g, t))[k - 2] == '|');
            }
        }
        assert forall|i: int| 0 <= i < recs.len() implies !(#[trigger] recs[i]).contains('|') by {
            if i < recs.len() - 1 {
                assert(recs[i] == recs.drop_last()[i]);
            }
        }
    }
}

pub open spec fn with_segs(acc: Decoded, s: Seq<SegRec>) -> Decoded {
    (acc.0, acc.1 + s, acc.2, acc.3, acc.4)
}

pub proof fn lemma_decode_segs(acc: Decoded, d: Document, pts: Seq<PointId>, segs: Seq<SegmentId>, stext: Seq<Seq<char>>)
    requires
        indexable_len(pts.len()),
        stext.len() >= segs.len(),
        none_hold(stext, ','),
        none_hold(stext, '|'),
    ensures
        decode_from(acc, seg_recs(d, pts, segs, stext)) == with_segs(acc, expected_segs(d, pts, segs, stext)),
    decreases segs.len(),
{
    reveal_strlit("P");
    reveal_strlit("S");
    assert("P"@ =~= seq!['P']);
    assert("S"@ =~= seq!['S']);
    if segs.len() == 0 {
        assert(acc.1 + Seq::<SegRec>::empty() =~= acc.1);
    } else {
        lemma_decode_segs(acc, d, pts, segs.drop_last(), stext);
        assert(seg_recs(d, pts, segs, stext).drop_last() =~= seg_recs(d, pts, segs.drop_last(), stext));
        let g = d.sg(segs.last()).unwrap();
        let t = stext[segs.len() - 1];
        let j = joined(seg_fields(pts, g, t));
        lemma_record_split('S', j);
        lemma_seg_fields(pts, g, t);
        assert(seq!['S'][0] != "P"@[0]);
        let prev = with_segs(acc, expected_segs(d, pts, segs.drop_last(), stext));
        let f = split(j, ',');
        assert(f.len() == 8);
        assert(decode_part(prev, record('S', j)) == with_segs(acc, expected_segs(d, pts, segs, stext))) by {
            let (a, b) = (first_pos(pts, g.start), first_pos(pts, g.end));
            if a >= 0 && b >= 0 {
                assert(prev.1.push((g.kind, a as usize, b as usize, t,
                    (opt_pos(pts, g.ctrl), opt_pos(pts, g.center), opt_pos(pts, g.handle_out), opt_pos(pts, g.handle_in))))
                    =~= acc.1 + expected_segs(d, pts, segs, stext));
            }
        }
    }
}

// ---- index lists ----

/// The positions among `segs` of the items of `list` that were copied.
pub open spec fn positions(segs: Seq<SegmentId>, list: Seq<SegmentId>) -> Seq<usize>
    decreases list.len(),
{
    if list.len() == 0 {
        seq![]
    } else {
        let pre = positions(segs, list.drop_last());
        let i = first_pos(segs, list.last());
        if i >= 0 { pre.push(i as usize) } else { pre }
    }
}

proof fn lemma_index_texts_free(texts: Seq<Seq<char>>, nums: Seq<int>)
    requires
        texts.len() == nums.len(),
        forall|k: int| 0 <= k < texts.len() ==> #[trigger] texts[k] == index_text(nums[k]),
    ensures
        none_hold(texts, ','),
        none_hold(texts, '|'),
        none_hold(texts, ':'),
{
    assert forall|k: int| 0 <= k < texts.len() implies !(#[trigger] texts[k]).contains(',') && !texts[k].contains('|')
        && !texts[k].contains(':') by {
        lemma_index_text_free(nums[k]);
    }
}

/// Parsing the fields of an empty list gives nothing; otherwise the
/// fields themselves, when they hold no comma.
proof fn lemma_parse_joined(texts: Seq<Seq<char>>)
    requires
        none_hold(texts, ','),
    ensures
        parse_indices(split(joined(texts), ',')) == parse_indices(texts),
        parse_modes(split(joined(texts), ',')) == parse_modes(texts),
{
    lemma_joined_is_join_with(texts);
    if texts.len() == 0 {
        assert(joined(texts) == Seq::<char>::empty());
        let e = split(joined(texts), ',');
        assert(e =~= seq![Seq::<char>::empty()]);
        assert(e.drop_last() =~= Seq::<Seq<char>>::empty());
        assert(e.last() =~= Seq::<char>::empty());
        assert(parse_index(e.last()) is None);
        assert(parse_uint(e.last(), 255) is None);
        assert(parse_indices(e.drop_last()) == Seq::<usize>::empty());
        assert(parse_modes(e.drop_last()) == Seq::<ContinuityMode>::empty());
        assert(parse_indices(e) =~= parse_indices(texts));
        assert(parse_modes(e) =~= parse_modes(texts));
    } else {
        lemma_split_join(texts, ',');
    }
}

pub proof fn lemma_positions_parse(segs: Seq<SegmentId>, list: Seq<SegmentId>)
    requires
        indexable_len(segs.len()),
    ensures
        parse_indices(split(joined(seg_index_texts(segs, list)), ',')) == positions(segs, list),
        !joined(seg_index_texts(segs, list)).contains('|'),
        !joined(seg_index_texts(segs, list)).contains(':'),
    decreases list.len(),
{
    let texts = seg_index_texts(segs, list);
    let nums = list.map_values(|x: SegmentId| first_pos(segs, x));
    lemma_index_texts_free(texts, nums);
    lemma_parse_joined(texts);
    lemma_joined_is_join_with(texts);
    lemma_join_free(texts, ',', '|');
    lemma_join_free(texts, ',', ':');
    lemma_parse_positions(segs, list);
}

proof fn lemma_parse_positions(segs: Seq<SegmentId>, list: Seq<SegmentId>)
    requires
        indexable_len(segs.len()),
    ensures
        parse_indices(seg_index_texts(segs, list)) == positions(segs, list),
    decreases list.len(),
{
    if list.len() > 0 {
        lemma_parse_positions(segs, list.drop_last());
        assert(seg_index_texts(segs, list).drop_last() =~= seg_index_texts(segs, list.drop_last()));
        lemma_first_pos_bounds(segs, list.last());
        lemma_index_text_parses(first_pos(segs, list.last()));
    }
}

// ---- fill records ----

pub open spec fn fill_loop(d: Document, f: FillId) -> Seq<SegmentId> {
    d.fl(f).unwrap().segments@
}

pub open spec fn fill_recs(d: Document, segs: Seq<SegmentId>, fills: Seq<FillId>) -> Seq<Seq<char>>
    decreases fills.len(),
{
    if fills.len() == 0 {
        seq![]
    } else {
        fill_recs(d, segs, fills.drop_last()).push(record('F', joined(seg_index_texts(segs, fill_loop(d, fills.last())))))
    }
}

/// A copied fill reads back as the positions of its copied segments, when
/// there are any.
pub open spec fn expected_fills(d: Document, segs: Seq<SegmentId>, fills: Seq<FillId>) -> Seq<Seq<usize>>
    decreases fills.len(),
{
    if fills.len() == 0 {
        seq![]
    } else {
        let pre = expected_fills(d, segs, fills.drop_last());
        let l = positions(segs, fill_loop(d, fills.last()));
        if l.len() > 0 { pre.push(l) } else { pre }
    }
}

pub proof fn lemma_fill_records(d: Document, segs: Seq<SegmentId>, fills: Seq<FillId>)
    requires
        indexable_len(segs.len()),
    ensures
        fill_records(d, segs, fills) == bars(fill_recs(d, segs, fills)),
        none_hold(fill_recs(d, segs, fills), '|'),
    decreases fills.len(),
{
    reveal_strlit("|F:");
    if fills.len() > 0 {
        lemma_fill_records(d, segs, fills.drop_last());
        let j = joined(seg_index_texts(segs, fill_loop(d, fills.last())));
        lemma_positions_parse(segs, fill_loop(d, fills.last()));
        let recs = fill_recs(d, segs, fills);
        assert(recs.drop_last() =~= fill_recs(d, segs, fills.drop_last()));
        assert("|F:"@ =~= seq!['|', 'F', ':']);
        assert(fill_records(d, segs, fills) =~= bars(recs));
        let r = record('F', j);
        assert(!r.contains('|')) by {
            if r.contains('|') {
                let k = choose|k: int| 0 <= k < r.len() && r[k] == '|';
                assert(j[k - 2] == '|');
            }
        }
        assert forall|i: int| 0 <= i < recs.len() implies !(#[trigger] recs[i]).contains('|') by {
            if i < recs.len() - 1 {
                assert(recs[i] == recs.drop_last()[i]);
            }
        }
    }
}

pub open spec fn with_fills(acc: Decoded, f: Seq<Seq<usize>>) -> Decoded {
    (acc.0, acc.1, acc.2 + f, acc.3, acc.4)
}

proof fn lemma_tags()
    ensures
        "P"@ == seq!['P'],
        "S"@ == seq!['S'],
        "F"@ == seq!['F'],
        "H"@ == seq!['H'],
        "C"@ == seq!['C'],
{
    reveal_strlit("P");
    reveal_strlit("S");
    reveal_strlit("F");
    reveal_strlit("H");
    reveal_strlit("C");
    assert("P"@ =~= seq!['P']);
    assert("S"@ =~= seq!['S']);
    assert("F"@ =~= seq!['F']);
    assert("H"@ =~= seq!['H']);
    assert("C"@ =~= seq!['C']);
}

pub proof fn lemma_decode_fills(acc: Decoded, d: Document, segs: Seq<SegmentId>, fills: Seq<FillId>)
    requires
        indexable_len(segs.len()),
    ensures
        decode_from(acc, fill_recs(d, segs, fills)) == with_fills(acc, expected_fills(d, segs, fills)),
    decreases fills.len(),
{
    lemma_tags();
    if fills.len() == 0 {
        assert(acc.2 + Seq::<Seq<usize>>::empty() =~= acc.2);
    } else {
        lemma_decode_fills(acc, d, segs, fills.drop_last());
        assert(fill_recs(d, segs, fills).drop_last() =~= fill_recs(d, segs, fills.drop_last()));
        let list = fill_loop(d, fills.last());
        let j = joined(seg_index_texts(segs, list));
        lemma_record_split('F', j);
        lemma_positions_parse(segs, list);
        assert(seq!['F'][0] != seq!['P'][0]);
        assert(seq!['F'][0] != seq!['S'][0]);
        let prev = with_fills(acc, expected_fills(d, segs, fills.drop_last()));
        assert(decode_part(prev, record('F', j)) == with_fills(acc, expected_fills(d, segs, fills))) by {
            let l = positions(segs, list);
            if l.len() > 0 {
                assert(prev.2.push(l) =~= acc.2 + expected_fills(d, segs, fills));
            }
        }
    }
}

// ---- path records ----

/// The positions of the copied handle points, two fields per anchor,
/// skipping handles that were not copied.
pub open spec fn handle_positions(pts: Seq<PointId>, hs: Seq<(PointId, PointId)>) -> Seq<usize>
    decreases hs.len(),
{
    if hs.len() == 0 {
        seq![]
    } else {
        let pre = handle_positions(pts, hs.drop_last());
        let (a, b) = (first_pos(pts, hs.last().0), first_pos(pts, hs.last().1));
        let p1 = if a >= 0 { pre.push(a as usize) } else { pre };
        if b >= 0 { p1.push(b as usize) } else { p1 }
    }
}

proof fn lemma_handle_texts_shape(pts: Seq<PointId>, hs: Seq<(PointId, PointId)>) -> (nums: Seq<int>)
    ensures
        nums.len() == handle_texts(pts, hs).len(),
        forall|k: int| 0 <= k < nums.len() ==> #[trigger] handle_texts(pts, hs)[k] == index_text(nums[k]),
    decreases hs.len(),
{
    if hs.len() == 0 {
        seq![]
    } else {
        let pre = lemma_handle_texts_shape(pts, hs.drop_last());
        let t = handle_texts(pts, hs);
        let nums = pre + seq![first_pos(pts, hs.last().0), first_pos(pts, hs.last().1)];
        assert forall|k: int| 0 <= k < nums.len() implies #[trigger] t[k] == index_text(nums[k]) by {
            if k < pre.len() {
                assert(t[k] == handle_texts(pts, hs.drop_last())[k]);
            }
        }
        nums
    }
}

proof fn lemma_parse_handle_positions(pts: Seq<PointId>, hs: Seq<(PointId, PointId)>)
    requires
        indexable_len(pts.len()),
    ensures
        parse_indices(handle_texts(pts, hs)) == handle_positions(pts, hs),
    decreases hs.len(),
{
    if hs.len() > 0 {
        lemma_parse_handle_positions(pts, hs.drop_last());
        let pre = handle_texts(pts, hs.drop_last());
        let (a, b) = (first_pos(pts, hs.last().0), first_pos(pts, hs.last().1));
        let t = handle_texts(pts, hs);
        assert(t.drop_last() =~= pre.push(index_text(a)));
        assert(t.drop_last().drop_last() =~= pre);
        lemma_first_pos_bounds(pts, hs.last().0);
        lemma_first_pos_bounds(pts, hs.last().1);
        lemma_index_text_parses(a);
        lemma_index_text_parses(b);
        let pa = if a >= 0 { parse_indices(pre).push(a as usize) } else { parse_indices(pre) };
        assert(t.drop_last().last() == index_text(a));
        assert(t.last() == index_text(b));
        assert(parse_indices(t.drop_last()) == pa);
        assert(parse_indices(t) == (if b >= 0 { pa.push(b as usize) } else { pa }));
    }
}

pub proof fn lemma_handles_parse(pts: Seq<PointId>, hs: Seq<(PointId, PointId)>)
    requires
        indexable_len(pts.len()),
    ensures
        parse_indices(split(joined(handle_texts(pts, hs)), ',')) == handle_positions(pts, hs),
        !joined(handle_texts(pts, hs)).contains('|'),
        !joined(handle_texts(pts, hs)).contains(':'),
{
    let texts = handle_texts(pts, hs);
    let nums = lemma_handle_texts_shape(pts, hs);
    lemma_index_texts_free(texts, nums);
    lemma_parse_joined(texts);
    lemma_joined_is_join_with(texts);
    lemma_join_free(texts, ',', '|');
    lemma_join_free(texts, ',', ':');
    lemma_parse_handle_positions(pts, hs);
}

proof fn lemma_parse_modes(ms: Seq<ContinuityMode>)
    ensures
        parse_modes(mode_texts(ms)) == ms,
    decreases ms.len(),
{
    if ms.len() > 0 {
        lemma_parse_modes(ms.drop_last());
        assert(mode_texts(ms).drop_last() =~= mode_texts(ms.drop_last()));
        let c = continuity_code(ms.last());
        crate::clip_parse::law_decimal_parses_back(c as nat, 255);
        law_continuity_code_round_trip(ms.last());
        assert(ms.drop_last().push(ms.last()) =~= ms);
    }
}

pub proof fn lemma_modes_parse(ms: Seq<ContinuityMode>)
    ensures
        parse_modes(split(joined(mode_texts(ms)), ',')) == ms,
        !joined(mode_texts(ms)).contains('|'),
        !joined(mode_texts(ms)).contains(':'),
{
    let texts = mode_texts(ms);
    let nums = ms.map_values(|m: ContinuityMode| continuity_code(m) as int);
    assert forall|k: int| 0 <= k < texts.len() implies #[trigger] texts[k] == index_text(nums[k]) by {}
    lemma_index_texts_free(texts, nums);
    lemma_parse_joined(texts);
    lemma_joined_is_join_with(texts);
    lemma_join_free(texts, ',', '|');
    lemma_join_free(texts, ',', ':');
    lemma_parse_modes(ms);
}

pub open spec fn closed_text(c: bool) -> Seq<char> {
    if c { "1"@ } else { "0"@ }
}

/// The body of a path record: closed flag, segment fields, mode codes and
/// handle fields, ':'-separated.
pub open spec fn path_body(pts: Seq<PointId>, segs: Seq<SegmentId>, p: Path) -> Seq<char> {
    closed_text(p.closed) + seq![':'] + (joined(seg_index_texts(segs, p.segments@)) + seq![':']
        + (joined(mode_texts(p.continuity@)) + seq![':'] + joined(handle_texts(pts, p.handles@))))
}

pub open spec fn path_of(d: Document, q: PathId) -> Path {
    d.ph(q).unwrap()
}

pub open spec fn path_recs(d: Document, pts: Seq<PointId>, segs: Seq<SegmentId>, paths: Seq<PathId>) -> Seq<Seq<char>>
    decreases paths.len(),
{
    if paths.len() == 0 {
        seq![]
    } else {
        path_recs(d, pts, segs, paths.drop_last()).push(record('H', path_body(pts, segs, path_of(d, paths.last()))))
    }
}

/// A copied path reads back when one of its segments was copied.
pub open spec fn expected_paths(d: Document, pts: Seq<PointId>, segs: Seq<SegmentId>, paths: Seq<PathId>) -> Seq<PathRec>
    decreases paths.len(),
{
    if paths.len() == 0 {
        seq![]
    } else {
        let pre = expected_paths(d, pts, segs, paths.drop_last());
        let p = path_of(d, paths.last());
        let l = positions(segs, p.segments@);
        if l.len() > 0 { pre.push((p.closed, l, p.continuity@, handle_positions(pts, p.handles@))) } else { pre }
    }
}

proof fn lemma_concat_free(a: Seq<char>, b: Seq<char>, x: char)
    requires
        !a.contains(x),
        !b.contains(x),
    ensures
        !(a + b).contains(x),
{
    if (a + b).contains(x) {
        let k = choose|k: int| 0 <= k < (a + b).len() && (a + b)[k] == x;
        if k < a.len() {
            assert(a[k] == x);
        } else {
            assert(b[k - a.len()] == x);
        }
    }
}

proof fn lemma_closed_text(c: bool)
    ensures
        closed_text(c) == seq![if c { '1' } else { '0' }],
        !closed_text(c).contains(':'),
        !closed_text(c).contains('|'),
        (closed_text(c) == "1"@) == c,
{
    reveal_strlit("1");
    reveal_strlit("0");
    assert("1"@ =~= seq!['1']);
    assert("0"@ =~= seq!['0']);
    if !c {
        assert(closed_text(c)[0] != "1"@[0]);
    }
}

#[verifier::spinoff_prover]
proof fn lemma_path_record_shape(pts: Seq<PointId>, segs: Seq<SegmentId>, p: Path)
    ensures
        path_record(pts, segs, p) == seq!['|'] + record('H', path_body(pts, segs, p)),
{
    reveal_strlit("|H:");
    reveal_strlit(":");
    let h = "|H:"@;
    let k = ":"@;
    assert(h =~= seq!['|', 'H', ':']);
    assert(k =~= seq![':']);
    let c = closed_text(p.closed);
    let ja = joined(seg_index_texts(segs, p.segments@));
    let jb = joined(mode_texts(p.continuity@));
    let jc = joined(handle_texts(pts, p.handles@));
    assert(path_record(pts, segs, p) == h + c + k + ja + k + jb + k + jc);
    assert(path_body(pts, segs, p) == c + k + (ja + k + (jb + k + jc)));
    assert(h + c + k + ja + k + jb + k + jc =~= seq!['|'] + (seq!['H', ':'] + (c + k + (ja + k + (jb + k + jc)))));
}

pub proof fn lemma_path_body(pts: Seq<PointId>, segs: Seq<SegmentId>, p: Path)
    requires
        indexable_len(pts.len()),
        indexable_len(segs.len()),
    ensures
        path_record(pts, segs, p) == seq!['|'] + record('H', path_body(pts, segs, p)),
        !path_body(pts, segs, p).contains('|'),
        crate::clip_parse::path_rec_of(path_body(pts, segs, p))
            == (p.closed, positions(segs, p.segments@), p.continuity@, handle_positions(pts, p.handles@)),
{
    lemma_path_record_shape(pts, segs, p);
    let ja = joined(seg_index_texts(segs, p.segments@));
    let jb = joined(mode_texts(p.continuity@));
    let jc = joined(handle_texts(pts, p.handles@));
    let c = closed_text(p.closed);
    lemma_positions_parse(segs, p.segments@);
    lemma_modes_parse(p.continuity@);
    lemma_handles_parse(pts, p.handles@);
    lemma_closed_text(p.closed);
    let b2 = jb + seq![':'] + jc;
    let b1 = ja + seq![':'] + b2;
    assert(path_body(pts, segs, p) == c + seq![':'] + b1);
    lemma_head_tail(c, b1, ':');
    lemma_head_tail(ja, b2, ':');
    lemma_head_tail(jb, jc, ':');
    let bar: Seq<char> = seq![':'];
    assert(!bar.contains('|')) by {
        if bar.contains('|') {
            assert(bar[0] == ':');
        }
    }
    lemma_concat_free(jb, bar, '|');
    lemma_concat_free(jb + bar, jc, '|');
    lemma_concat_free(ja, bar, '|');
    lemma_concat_free(ja + bar, b2, '|');
    lemma_concat_free(c, bar, '|');
    lemma_concat_free(c + bar, b1, '|');
}

pub proof fn lemma_path_records(d: Document, pts: Seq<PointId>, segs: Seq<SegmentId>, paths: Seq<PathId>)
    requires
        indexable_len(pts.len()),
        indexable_len(segs.len()),
    ensures
        path_records(d, pts, segs, paths) == bars(path_recs(d, pts, segs, paths)),
        none_hold(path_recs(d, pts, segs, paths), '|'),
    decreases paths.len(),
{
    if paths.len() > 0 {
        lemma_path_records(d, pts, segs, paths.drop_last());
        let p = path_of(d, paths.last());
        lemma_path_body(pts, segs, p);
        let recs = path_recs(d, pts, segs, paths);
        assert(recs.drop_last() =~= path_recs(d, pts, segs, paths.drop_last()));
        assert(path_records(d, pts, segs, paths) =~= bars(recs));
        let r = record('H', path_body(pts, segs, p));
        assert(!r.contains('|')) by {
            if r.contains('|') {
                let k = choose|k: int| 0 <= k < r.len() && r[k] == '|';
                assert(path_body(pts, segs, p)[k - 2] == '|');
            }
        }
        assert forall|i: int| 0 <= i < recs.len() implies !(#[trigger] recs[i]).contains('|') by {
            if i < recs.len() - 1 {
                assert(recs[i] == recs.drop_last()[i]);
            }
        }
    }
}

pub open spec fn with_paths(acc: Decoded, h: Seq<PathRec>) -> Decoded {
    (acc.0, acc.1, acc.2, acc.3 + h, acc.4)
}

pub proof fn lemma_decode_paths(acc: Decoded, d: Document, pts: Seq<PointId>, segs: Seq<SegmentId>, paths: Seq<PathId>)
    requires
        indexable_len(pts.len()),
        indexable_len(segs.len()),
    ensures
        decode_from(acc, path_recs(d, pts, segs, paths)) == with_paths(acc, expected_paths(d, pts, segs, paths)),
    decreases paths.len(),
{
    lemma_tags();
    if paths.len() == 0 {
        assert(acc.3 + Seq::<PathRec>::empty() =~= acc.3);
    } else {
        lemma_decode_paths(acc, d, pts, segs, paths.drop_last());
        assert(path_recs(d, pts, segs, paths).drop_last() =~= path_recs(d, pts, segs, paths.drop_last()));
        let p = path_of(d, paths.last());
        let body = path_body(pts, segs, p);
        lemma_record_split('H', body);
        lemma_path_body(pts, segs, p);
        assert(seq!['H'][0] != seq!['P'][0]);
        assert(seq!['H'][0] != seq!['S'][0]);
        assert(seq!['H'][0] != seq!['F'][0]);
        let prev = with_paths(acc, expected_paths(d, pts, segs, paths.drop_last()));
        assert(decode_part(prev, record('H', body)) == with_paths(acc, expected_paths(d, pts, segs, paths))) by {
            let l = positions(segs, p.segments@);
            if l.len() > 0 {
                assert(prev.3.push((p.closed, l, p.continuity@, handle_positions(pts, p.handles@)))
                    =~= acc.3 + expected_paths(d, pts, segs, paths));
            }
        }
    }
}

// ---- constraint records ----

pub open spec fn con_body(segs: Seq<SegmentId>, c: Constraint, a: int, b: int) -> Seq<char> {
    kind_name(c.kind) + seq![','] + decimal(a as nat) + seq![','] + decimal(b as nat) + pair_text(segs, c)
}

pub open spec fn con_recs(pts: Seq<PointId>, segs: Seq<SegmentId>, cs: Seq<Constraint>) -> Seq<Seq<char>>
    decreases cs.len(),
{
    if cs.len() == 0 {
        seq![]
    } else {
        let pre = con_recs(pts, segs, cs.drop_last());
        let c = cs.last();
        let (a, b) = (first_pos(pts, c.a), first_pos(pts, c.b));
        if a >= 0 && b >= 0 { pre.push(record('C', con_body(segs, c, a, b))) } else { pre }
    }
}

/// The segment pair a copied constraint reads back with: the positions of
/// its two segments among the copied ones, when both were copied.
pub open spec fn pair_fields(segs: Seq<SegmentId>, c: Constraint) -> Option<(usize, usize)> {
    match pair_pos(segs, c) {
        Some((i, j)) => Some((i as usize, j as usize)),
        None => None,
    }
}

/// A constraint reads back when both its points were copied, with its
/// segment pair when that was copied too.
pub open spec fn expected_cons(pts: Seq<PointId>, segs: Seq<SegmentId>, cs: Seq<Constraint>) -> Seq<ConRec>
    decreases cs.len(),
{
    if cs.len() == 0 {
        seq![]
    } else {
        let pre = expected_cons(pts, segs, cs.drop_last());
        let c = cs.last();
        let (a, b) = (first_pos(pts, c.a), first_pos(pts, c.b));
        if a >= 0 && b >= 0 { pre.push((c.kind, a as usize, b as usize, pair_fields(segs, c))) } else { pre }
    }
}

/// Joining one more item appends the separator and the item.
proof fn lemma_join_push(f: Seq<Seq<char>>, x: Seq<char>, sep: char)
    requires
        f.len() > 0,
    ensures
        join_with(f.push(x), sep) == join_with(f, sep) + seq![sep] + x,
{
    assert(f.push(x).drop_last() =~= f);
}

proof fn lemma_con_body(segs: Seq<SegmentId>, c: Constraint, a: int, b: int)
    requires
        0 <= a < usize::MAX,
        a <= 9223372036854775807,
        0 <= b < usize::MAX,
        b <= 9223372036854775807,
        indexable_len(segs.len()),
    ensures
        !con_body(segs, c, a, b).contains('|'),
        crate::clip_parse::con_rec_of(con_body(segs, c, a, b))
            == Some((c.kind, a as usize, b as usize, pair_fields(segs, c))),
{
    reveal_strlit(",");
    assert(","@ =~= seq![',']);
    let f = seq![kind_name(c.kind), decimal(a as nat), decimal(b as nat)];
    lemma_kind_name(c.kind);
    lemma_index_text_free(a);
    lemma_index_text_free(b);
    lemma_index_text_parses(a);
    lemma_index_text_parses(b);
    assert(seq![kind_name(c.kind)].push(decimal(a as nat)) =~= seq![kind_name(c.kind), decimal(a as nat)]);
    assert(seq![kind_name(c.kind), decimal(a as nat)].push(decimal(b as nat)) =~= f);
    lemma_join_push(seq![kind_name(c.kind)], decimal(a as nat), ',');
    lemma_join_push(seq![kind_name(c.kind), decimal(a as nat)], decimal(b as nat), ',');
    let j3 = join_with(f, ',');
    assert(j3 =~= kind_name(c.kind) + seq![','] + decimal(a as nat) + seq![','] + decimal(b as nat));
    match pair_pos(segs, c) {
        Some((i, j)) => {
            match c.tangent_segments {
                Some((x, y)) => {
                    lemma_first_pos_bounds(segs, x);
                    lemma_first_pos_bounds(segs, y);
                },
                None => {},
            }
            lemma_index_text_free(i);
            lemma_index_text_free(j);
            lemma_index_text_parses(i);
            lemma_index_text_parses(j);
            let f5 = f.push(decimal(i as nat)).push(decimal(j as nat));
            lemma_join_push(f, decimal(i as nat), ',');
            lemma_join_push(f.push(decimal(i as nat)), decimal(j as nat), ',');
            assert(join_with(f5, ',') =~= con_body(segs, c, a, b));
            assert(none_hold(f5, ','));
            assert(none_hold(f5, '|'));
            lemma_split_join(f5, ',');
            lemma_join_free(f5, ',', '|');
            assert(f5[3] == decimal(i as nat) && f5[4] == decimal(j as nat));
        },
        None => {
            assert(j3 =~= con_body(segs, c, a, b));
            assert(none_hold(f, ','));
            assert(none_hold(f, '|'));
            lemma_split_join(f, ',');
            lemma_join_free(f, ',', '|');
        },
    }
}

proof fn lemma_con_record_text(segs: Seq<SegmentId>, c: Constraint, a: int, b: int)
    ensures
        "|C:"@ + kind_name(c.kind) + ","@ + decimal(a as nat) + ","@ + decimal(b as nat) + pair_text(segs, c)
            == seq!['|'] + record('C', con_body(segs, c, a, b)),
{
    reveal_strlit("|C:");
    reveal_strlit(",");
    assert("|C:"@ =~= seq!['|', 'C', ':']);
    assert(","@ =~= seq![',']);
    assert("|C:"@ + kind_name(c.kind) + ","@ + decimal(a as nat) + ","@ + decimal(b as nat) + pair_text(segs, c)
        =~= seq!['|'] + record('C', con_body(segs, c, a, b)));
}

#[verifier::spinoff_prover]
pub proof fn lemma_constraint_records(pts: Seq<PointId>, segs: Seq<SegmentId>, cs: Seq<Constraint>)
    requires
        indexable_len(pts.len()),
        indexable_len(segs.len()),
    ensures
        constraint_records(pts, segs, cs) == bars(con_recs(pts, segs, cs)),
        none_hold(con_recs(pts, segs, cs), '|'),
    decreases cs.len(),
{
    if cs.len() > 0 {
        lemma_constraint_records(pts, segs, cs.drop_last());
        let c = cs.last();
        let (a, b) = (first_pos(pts, c.a), first_pos(pts, c.b));
        lemma_first_pos_bounds(pts, c.a);
        lemma_first_pos_bounds(pts, c.b);
        let recs = con_recs(pts, segs, cs);
        if a >= 0 && b >= 0 {
            assert(recs.drop_last() =~= con_recs(pts, segs, cs.drop_last()));
            lemma_con_record_text(segs, c, a, b);
            assert(recs.last() == record('C', con_body(segs, c, a, b)));
            assert(constraint_records(pts, segs, cs) =~= bars(recs));
            lemma_con_body(segs, c, a, b);
            let r = record('C', con_body(segs, c, a, b));
            assert(!r.contains('|')) by {
                if r.contains('|') {
                    let k = choose|k: int| 0 <= k < r.len() && r[k] == '|';
                    assert(con_body(segs, c, a, b)[k - 2] == '|');
                }
            }
            assert forall|i: int| 0 <= i < recs.len() implies !(#[trigger] recs[i]).contains('|') by {
                if i < recs.len() - 1 {
                    assert(recs[i] == recs.drop_last()[i]);
                }
            }
        } else {
            assert(constraint_records(pts, segs, cs) =~= constraint_records(pts, segs, cs.drop_last()));
        }
    }
}

pub open spec fn with_cons(acc: Decoded, c: Seq<ConRec>) -> Decoded {
    (acc.0, acc.1, acc.2, acc.3, acc.4 + c)
}

pub proof fn lemma_decode_cons(acc: Decoded, pts: Seq<PointId>, segs: Seq<SegmentId>, cs: Seq<Constraint>)
    requires
        indexable_len(pts.len()),
        indexable_len(segs.len()),
    ensures
        decode_from(acc, con_recs(pts, segs, cs)) == with_cons(acc, expected_cons(pts, segs, cs)),
    decreases cs.len(),
{
    lemma_tags();
    if cs.len() == 0 {
        assert(acc.4 + Seq::<ConRec>::empty() =~= acc.4);
    } else {
        lemma_decode_cons(acc, pts, segs, cs.drop_last());
        let c = cs.last();
        let (a, b) = (first_pos(pts, c.a), first_pos(pts, c.b));
        lemma_first_pos_bounds(pts, c.a);
        lemma_first_pos_bounds(pts, c.b);
        let prev = with_cons(acc, expected_cons(pts, segs, cs.drop_last()));
        if a >= 0 && b >= 0 {
            assert(con_recs(pts, segs, cs).drop_last() =~= con_recs(pts, segs, cs.drop_last()));
            let body = con_body(segs, c, a, b);
            lemma_record_split('C', body);
            lemma_con_body(segs, c, a, b);
            assert(seq!['C'][0] != seq!['P'][0]);
            assert(seq!['C'][0] != seq!['S'][0]);
            assert(seq!['C'][0] != seq!['F'][0]);
            assert(seq!['C'][0] != seq!['H'][0]);
            assert(decode_part(prev, record('C', body)) == with_cons(acc, expected_cons(pts, segs, cs))) by {
                assert(prev.4.push((c.kind, a as usize, b as usize, pair_fields(segs, c))) =~= acc.4 + expected_cons(pts, segs, cs));
            }
        }
    }
}

// ---- the whole text ----

proof fn lemma_none_hold_append(a: Seq<Seq<char>>, b: Seq<Seq<char>>, c: char)
    requires
        none_hold(a, c),
        none_hold(b, c),
    ensures
        none_hold(a + b, c),
{
    assert forall|i: int| 0 <= i < (a + b).len() implies !(#[trigger] (a + b)[i]).contains(c) by {
        if i < a.len() {
            assert((a + b)[i] == a[i]);
        } else {
            assert((a + b)[i] == b[i - a.len()]);
        }
    }
}

/// What a copied text decodes to, for any copied set whose point list is
/// not empty.
proof fn lemma_clip_text_decodes(
    d: Document,
    set: (Seq<PointId>, Seq<SegmentId>, Seq<FillId>, Seq<PathId>),
    ptext: Seq<Seq<char>>,
    stext: Seq<Seq<char>>,
)
    requires
        ptext.len() > 0,
        stext.len() >= set.1.len(),
        indexable_len(set.0.len()),
        indexable_len(set.1.len()),
        none_hold(ptext, '|'),
        none_hold(stext, '|'),
        none_hold(stext, ','),
    ensures
        decoded(clip_text(d, set, ptext, stext)) == Some((
            expected_points(ptext),
            expected_segs(d, set.0, set.1, stext),
            expected_fills(d, set.1, set.2),
            expected_paths(d, set.0, set.1, set.3),
            expected_cons(set.0, set.1, d.constraints@),
        )),
{
    let (pts, segs, fills, paths) = set;
    let rp = point_recs(ptext);
    let rs = seg_recs(d, pts, segs, stext);
    let rf = fill_recs(d, segs, fills);
    let rh = path_recs(d, pts, segs, paths);
    let rc = con_recs(pts, segs, d.constraints@);
    lemma_point_records(ptext);
    lemma_seg_records(d, pts, segs, stext);
    lemma_fill_records(d, segs, fills);
    lemma_path_records(d, pts, segs, paths);
    lemma_constraint_records(pts, segs, d.constraints@);
    let r = rp + rs + rf + rh + rc;
    lemma_bars_append(rp, rs);
    lemma_bars_append(rp + rs, rf);
    lemma_bars_append(rp + rs + rf, rh);
    lemma_bars_append(rp + rs + rf + rh, rc);
    lemma_none_hold_append(rp, rs, '|');
    lemma_none_hold_append(rp + rs, rf, '|');
    lemma_none_hold_append(rp + rs + rf, rh, '|');
    lemma_none_hold_append(rp + rs + rf + rh, rc, '|');
    assert(r.len() > 0);
    lemma_bars_join(r);
    let head = "parametric/v2"@;
    let pre = "parametric/v2|"@;
    reveal_strlit("parametric/v2");
    reveal_strlit("parametric/v2|");
    let body = join_with(r, '|');
    let t = clip_text(d, set, ptext, stext);
    assert(t =~= head + bars(r));
    assert(head + seq!['|'] =~= pre);
    assert(t =~= pre + body);
    assert(t.take(pre.len() as int) =~= pre);
    assert(t.skip(pre.len() as int) =~= body);
    lemma_split_join(r, '|');
    lemma_decode_parts_from(r);
    let a0 = no_records();
    lemma_decode_from_append(a0, rp + rs + rf + rh, rc);
    lemma_decode_from_append(a0, rp + rs + rf, rh);
    lemma_decode_from_append(a0, rp + rs, rf);
    lemma_decode_from_append(a0, rp, rs);
    lemma_decode_points(a0, ptext);
    let a1 = with_points(a0, expected_points(ptext));
    lemma_decode_segs(a1, d, pts, segs, stext);
    let a2 = with_segs(a1, expected_segs(d, pts, segs, stext));
    lemma_decode_fills(a2, d, segs, fills);
    let a3 = with_fills(a2, expected_fills(d, segs, fills));
    lemma_decode_paths(a3, d, pts, segs, paths);
    let a4 = with_paths(a3, expected_paths(d, pts, segs, paths));
    lemma_decode_cons(a4, pts, segs, d.constraints@);
    assert(Seq::<PointRec>::empty() + expected_points(ptext) =~= expected_points(ptext));
    assert(Seq::<SegRec>::empty() + expected_segs(d, pts, segs, stext) =~= expected_segs(d, pts, segs, stext));
    assert(Seq::<Seq<usize>>::empty() + expected_fills(d, segs, fills) =~= expected_fills(d, segs, fills));
    assert(Seq::<PathRec>::empty() + expected_paths(d, pts, segs, paths) =~= expected_paths(d, pts, segs, paths));
    assert(Seq::<ConRec>::empty() + expected_cons(pts, segs, d.constraints@)
        =~= expected_cons(pts, segs, d.constraints@));
}

/// Reading back a copy: the text that copying a selection gives decodes to
/// the copied points' coordinate texts, the copied segments with their
/// kinds, endpoint and control positions and stroke texts, the loops of the
/// copied fills and the copied paths as positions among the copied
/// segments (a fill or path none of whose segments was copied is left out),
/// and the constraints between copied points with the points' positions,
/// in the order they were copied.
pub proof fn law_copy_reads_back(d: Document, sel: Seq<ElementRef>, ptext: Seq<Seq<char>>, stext: Seq<Seq<char>>)
    requires
        ptext.len() == gather(d, sel).0.len(),
        ptext.len() > 0,
        stext.len() == gather(d, sel).1.len(),
        indexable_len(gather(d, sel).0.len()),
        indexable_len(gather(d, sel).1.len()),
        none_hold(ptext, '|'),
        none_hold(stext, '|'),
        none_hold(stext, ','),
    ensures
        ({
            let g = gather(d, sel);
            decoded(clip_text(d, g, ptext, stext)) == Some((
                expected_points(ptext),
                expected_segs(d, g.0, g.1, stext),
                expected_fills(d, g.1, g.2),
                expected_paths(d, g.0, g.1, g.3),
                expected_cons(g.0, g.1, d.constraints@),
            ))
        }),
{
    lemma_clip_text_decodes(d, gather(d, sel), ptext, stext);
}

} // verus!
