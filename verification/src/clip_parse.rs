//! Reading the `parametric/v2` clipboard text back into records. Every
//! field but the floating-point ones (point coordinates, stroke widths) is
//! decoded here; those stay text for the caller to parse.

use vstd::prelude::*;
use crate::clipboard::{first_pos, lemma_first_pos_bounds, lemma_first_pos_keep, lemma_first_pos_step};
use crate::document::ContinuityMode as Mode;
use crate::constraints::ConstraintKind;
use crate::document::{continuity_from_code, ContinuityMode, SegmentKind};
use crate::text::{decimal, digit_char, str_eq};
use vstd::string::{StrSliceExecFns, StringExecFns};

verus! {

// ---- splitting ----

/// The pieces of `s` between occurrences of `sep` (one empty piece for an
/// empty `s`).
pub open spec fn split(s: Seq<char>, sep: char) -> Seq<Seq<char>>
    decreases s.len(),
{
    if s.len() == 0 {
        seq![seq![]]
    } else {
        let pre = split(s.drop_last(), sep);
        if s.last() == sep {
            pre.push(seq![])
        } else {
            pre.update(pre.len() - 1, pre.last().push(s.last()))
        }
    }
}

pub proof fn lemma_split_nonempty(s: Seq<char>, sep: char)
    ensures
        split(s, sep).len() >= 1,
    decreases s.len(),
{
    if s.len() > 0 {
        lemma_split_nonempty(s.drop_last(), sep);
    }
}

/// `s` up to the first `sep` (all of it when there is none).
pub open spec fn head_of(s: Seq<char>, sep: char) -> Seq<char> {
    if first_pos(s, sep) >= 0 { s.take(first_pos(s, sep)) } else { s }
}

/// What follows the first `sep`, if any.
pub open spec fn tail_of(s: Seq<char>, sep: char) -> Option<Seq<char>> {
    if first_pos(s, sep) >= 0 { Some(s.skip(first_pos(s, sep) + 1)) } else { None }
}

pub open spec fn or_empty(o: Option<Seq<char>>) -> Seq<char> {
    match o {
        Some(s) => s,
        None => seq![],
    }
}

pub open spec fn head_or_empty(o: Option<Seq<char>>, sep: char) -> Seq<char> {
    match o {
        Some(s) => head_of(s, sep),
        None => seq![],
    }
}

pub open spec fn tail_next(o: Option<Seq<char>>, sep: char) -> Option<Seq<char>> {
    match o {
        Some(s) => tail_of(s, sep),
        None => None,
    }
}

// ---- numbers ----

pub open spec fn is_digit(c: char) -> bool {
    48 <= (c as u32) <= 57
}

pub open spec fn all_digits(s: Seq<char>) -> bool {
    forall|i: int| 0 <= i < s.len() ==> is_digit(#[trigger] s[i])
}

/// The value of a run of decimal digits.
pub open spec fn digits_value(s: Seq<char>) -> nat
    decreases s.len(),
{
    if s.len() == 0 {
        0
    } else {
        digits_value(s.drop_last()) * 10 + ((s.last() as u32) - 48) as nat
    }
}

/// A non-empty run of digits whose value is at most `max`.
pub open spec fn digits_num(s: Seq<char>, max: nat) -> Option<nat> {
    if s.len() > 0 && all_digits(s) && digits_value(s) <= max { Some(digits_value(s)) } else { None }
}

/// An unsigned integer field: an optional '+' then digits, at most `max`.
pub open spec fn parse_uint(s: Seq<char>, max: nat) -> Option<nat> {
    digits_num(if s.len() > 0 && s[0] == '+' { s.skip(1) } else { s }, max)
}

/// A signed 64-bit integer field: an optional sign then digits, in range.
pub open spec fn parse_int(s: Seq<char>) -> Option<int> {
    if s.len() > 0 && s[0] == '-' {
        match digits_num(s.skip(1), 9223372036854775808) {
            Some(v) => Some(-(v as int)),
            None => None,
        }
    } else {
        match parse_uint(s, 9223372036854775807) {
            Some(v) => Some(v as int),
            None => None,
        }
    }
}

pub open spec fn parse_index(s: Seq<char>) -> Option<usize> {
    match parse_uint(s, usize::MAX as nat) {
        Some(v) => Some(v as usize),
        None => None,
    }
}

/// The fields of `f` that parse as indices, in order.
pub open spec fn parse_indices(f: Seq<Seq<char>>) -> Seq<usize>
    decreases f.len(),
{
    if f.len() == 0 {
        seq![]
    } else {
        let pre = parse_indices(f.drop_last());
        match parse_index(f.last()) {
            Some(v) => pre.push(v),
            None => pre,
        }
    }
}

/// The fields of `f` that parse as mode codes, decoded, in order.
pub open spec fn parse_modes(f: Seq<Seq<char>>) -> Seq<ContinuityMode>
    decreases f.len(),
{
    if f.len() == 0 {
        seq![]
    } else {
        let pre = parse_modes(f.drop_last());
        match parse_uint(f.last(), 255) {
            Some(v) => pre.push(continuity_from_code(v as u8)),
            None => pre,
        }
    }
}

/// Optional point field `i` of a segment record: a non-negative integer.
pub open spec fn opt_field(f: Seq<Seq<char>>, i: int) -> Option<usize> {
    if i < f.len() {
        match parse_int(f[i]) {
            Some(v) => if v >= 0 { Some(v as usize) } else { None },
            None => None,
        }
    } else {
        None
    }
}

// ---- records ----

pub open spec fn seg_kind_of(t: Seq<char>) -> Option<SegmentKind> {
    if t == "L"@ {
        Some(SegmentKind::Line)
    } else if t == "M"@ {
        Some(SegmentKind::Ruler)
    } else if t == "A"@ {
        Some(SegmentKind::Arc)
    } else if t == "B"@ {
        Some(SegmentKind::Bezier)
    } else {
        None
    }
}

pub open spec fn constraint_kind_of(t: Seq<char>) -> Option<ConstraintKind> {
    if t == "coincident"@ {
        Some(ConstraintKind::Coincident)
    } else if t == "horizontal"@ {
        Some(ConstraintKind::Horizontal)
    } else if t == "vertical"@ {
        Some(ConstraintKind::Vertical)
    } else if t == "tangent"@ {
        Some(ConstraintKind::Tangent)
    } else if t == "parallel"@ {
        Some(ConstraintKind::Parallel)
    } else if t == "perpendicular"@ {
        Some(ConstraintKind::Perpendicular)
    } else {
        None
    }
}

/// A decoded point record: the x text and, when present, the y text.
pub type PointRec = (Seq<char>, Option<Seq<char>>);

/// A decoded segment record: kind, start, end, stroke text, and the
/// control, center and two handle fields.
pub type SegRec = (SegmentKind, usize, usize, Seq<char>, (Option<usize>, Option<usize>, Option<usize>, Option<usize>));

/// A decoded path record: closed, segment fields, modes, handle fields.
pub type PathRec = (bool, Seq<usize>, Seq<ContinuityMode>, Seq<usize>);

/// A decoded constraint record: kind, the two point fields and, when the
/// record carries them, the two segment fields of its segment pair.
pub type ConRec = (ConstraintKind, usize, usize, Option<(usize, usize)>);

pub type Decoded = (Seq<PointRec>, Seq<SegRec>, Seq<Seq<usize>>, Seq<PathRec>, Seq<ConRec>);

pub open spec fn seg_rec_of(rest: Seq<char>) -> Option<SegRec> {
    let f = split(rest, ',');
    if f.len() < 6 {
        None
    } else {
        match (seg_kind_of(f[0]), parse_index(f[1]), parse_index(f[2])) {
            (Some(k), Some(s), Some(e)) => Some((k, s, e, f[3], (opt_field(f, 4), opt_field(f, 5), opt_field(f, 6), opt_field(f, 7)))),
            _ => None,
        }
    }
}

pub open spec fn path_rec_of(rest: Seq<char>) -> PathRec {
    let t1 = tail_of(rest, ':');
    let t2 = tail_next(t1, ':');
    let t3 = tail_next(t2, ':');
    (
        head_of(rest, ':') == "1"@,
        parse_indices(split(head_or_empty(t1, ':'), ',')),
        parse_modes(split(head_or_empty(t2, ':'), ',')),
        parse_indices(split(or_empty(t3), ',')),
    )
}

/// The segment pair fields 3 and 4 of a constraint record, when both
/// parse.
pub open spec fn seg_pair_of(f: Seq<Seq<char>>) -> Option<(usize, usize)> {
    if f.len() >= 5 {
        match (parse_index(f[3]), parse_index(f[4])) {
            (Some(i), Some(j)) => Some((i, j)),
            _ => None,
        }
    } else {
        None
    }
}

pub open spec fn con_rec_of(rest: Seq<char>) -> Option<ConRec> {
    let f = split(rest, ',');
    if f.len() < 3 {
        None
    } else {
        match (constraint_kind_of(f[0]), parse_index(f[1]), parse_index(f[2])) {
            (Some(k), Some(a), Some(b)) => Some((k, a, b, seg_pair_of(f))),
            _ => None,
        }
    }
}

/// One '|'-separated part, by its tag (what precedes the first ':').
pub open spec fn decode_part(acc: Decoded, part: Seq<char>) -> Decoded {
    let tag = head_of(part, ':');
    let rest = or_empty(tail_of(part, ':'));
    if tag == "P"@ {
        let xy = split(rest, ',');
        (acc.0.push((xy[0], if xy.len() > 1 { Some(xy[1]) } else { None })), acc.1, acc.2, acc.3, acc.4)
    } else if tag == "S"@ {
        match seg_rec_of(rest) {
            Some(r) => (acc.0, acc.1.push(r), acc.2, acc.3, acc.4),
            None => acc,
        }
    } else if tag == "F"@ {
        let l = parse_indices(split(rest, ','));
        if l.len() > 0 { (acc.0, acc.1, acc.2.push(l), acc.3, acc.4) } else { acc }
    } else if tag == "H"@ {
        let p = path_rec_of(rest);
        if p.1.len() > 0 { (acc.0, acc.1, acc.2, acc.3.push(p), acc.4) } else { acc }
    } else if tag == "C"@ {
        match con_rec_of(rest) {
            Some(c) => (acc.0, acc.1, acc.2, acc.3, acc.4.push(c)),
            None => acc,
        }
    } else {
        acc
    }
}

pub open spec fn decode_parts(parts: Seq<Seq<char>>) -> Decoded
    decreases parts.len(),
{
    if parts.len() == 0 {
        (seq![], seq![], seq![], seq![], seq![])
    } else {
        decode_part(decode_parts(parts.drop_last()), parts.last())
    }
}

/// The records of a clipboard text, or `None` when it does not start with
/// "parametric/v2|".
pub open spec fn decoded(t: Seq<char>) -> Option<Decoded> {
    let pre = "parametric/v2|"@;
    if t.len() >= pre.len() && t.take(pre.len() as int) == pre {
        Some(decode_parts(split(t.skip(pre.len() as int), '|')))
    } else {
        None
    }
}

// ---- exec decoding ----

/// A point record: coordinate texts.
pub struct RawPoint {
    pub x: String,
    pub y: Option<String>,
}

impl View for RawPoint {
    type V = PointRec;

    open spec fn view(&self) -> PointRec {
        (self.x@, match self.y {
            Some(s) => Some(s@),
            None => None,
        })
    }
}

/// A segment record with its stroke width still text.
pub struct RawSegment {
    pub kind: SegmentKind,
    pub start: usize,
    pub end: usize,
    pub stroke: String,
    pub ctrl: Option<usize>,
    pub center: Option<usize>,
    pub handle_out: Option<usize>,
    pub handle_in: Option<usize>,
}

impl View for RawSegment {
    type V = SegRec;

    open spec fn view(&self) -> SegRec {
        (self.kind, self.start, self.end, self.stroke@, (self.ctrl, self.center, self.handle_out, self.handle_in))
    }
}

/// A decoded path record.
pub struct RawPath {
    pub closed: bool,
    pub segments: Vec<usize>,
    pub continuity: Vec<ContinuityMode>,
    pub handles: Vec<usize>,
}

impl View for RawPath {
    type V = PathRec;

    open spec fn view(&self) -> PathRec {
        (self.closed, self.segments@, self.continuity@, self.handles@)
    }
}

/// The records of a clipboard text.
pub struct RawClip {
    pub points: Vec<RawPoint>,
    pub segments: Vec<RawSegment>,
    pub fills: Vec<Vec<usize>>,
    pub paths: Vec<RawPath>,
    pub constraints: Vec<ConRec>,
}

impl View for RawClip {
    type V = Decoded;

    open spec fn view(&self) -> Decoded {
        (
            self.points@.map_values(|p: RawPoint| p@),
            self.segments@.map_values(|s: RawSegment| s@),
            self.fills@.map_values(|l: Vec<usize>| l@),
            self.paths@.map_values(|p: RawPath| p@),
            self.constraints@,
        )
    }
}

/// The pieces of `s` between occurrences of `sep`.
pub fn split_str(s: &str, sep: char) -> (r: Vec<String>)
    ensures
        r@.map_values(|t: String| t@) == split(s@, sep),
{
    let n = s.unicode_len();
    let mut out: Vec<String> = Vec::new();
    let mut start: usize = 0;
    let mut i: usize = 0;
    proof {
        assert(s@.take(0) =~= Seq::<char>::empty());
        assert(out@.map_values(|t: String| t@).push(s@.subrange(0, 0)) =~= split(s@.take(0), sep));
    }
    while i < n
        invariant
            n == s@.len(),
            start <= i <= n,
            out@.map_values(|t: String| t@).push(s@.subrange(start as int, i as int)) == split(s@.take(i as int), sep),
        decreases n - i,
    {
        let c = s.get_char(i);
        let ghost prev = out@.map_values(|t: String| t@);
        proof {
            assert(s@.take(i as int + 1).drop_last() =~= s@.take(i as int));
            assert(s@.take(i as int + 1).last() == c);
        }
        if c == sep {
            let ghost old_start = start as int;
            let piece = String::from_str(s.substring_char(start, i));
            out.push(piece);
            start = i + 1;
            proof {
                assert(out@.map_values(|t: String| t@) =~= prev.push(s@.subrange(old_start, i as int)));
                assert(s@.subrange(start as int, i as int + 1) =~= Seq::<char>::empty());
                assert(out@.map_values(|t: String| t@).push(s@.subrange(start as int, i as int + 1))
                    =~= split(s@.take(i as int + 1), sep));
            }
        } else {
            proof {
                assert(s@.subrange(start as int, i as int + 1) =~= s@.subrange(start as int, i as int).push(c));
                assert(prev.push(s@.subrange(start as int, i as int + 1))
                    =~= split(s@.take(i as int + 1), sep));
            }
        }
        i = i + 1;
    }
    let last = String::from_str(s.substring_char(start, n));
    let ghost prev = out@.map_values(|t: String| t@);
    out.push(last);
    proof {
        assert(s@.take(n as int) =~= s@);
        assert(out@.map_values(|t: String| t@) =~= prev.push(s@.subrange(start as int, n as int)));
    }
    out
}

/// A non-empty run of digits from `from` to the end of `s`, at most `max`.
fn parse_digits(s: &str, from: usize, max: u64) -> (r: Option<u64>)
    requires
        from <= s@.len(),
    ensures
        r == (match digits_num(s@.skip(from as int), max as nat) {
            Some(v) => Some(v as u64),
            None => None::<u64>,
        }),
{
    let n = s.unicode_len();
    if from >= n {
        proof {
            assert(s@.skip(from as int).len() == 0);
        }
        return None;
    }
    let mut acc: u128 = 0;
    let mut over = false;
    let mut i: usize = from;
    proof {
        assert(s@.subrange(from as int, from as int) =~= Seq::<char>::empty());
    }
    while i < n
        invariant
            n == s@.len(),
            from < n,
            from <= i <= n,
            all_digits(s@.subrange(from as int, i as int)),
            over ==> digits_value(s@.subrange(from as int, i as int)) > max,
            !over ==> acc == digits_value(s@.subrange(from as int, i as int)) && acc <= max,
        decreases n - i,
    {
        let c = s.get_char(i);
        let ghost pre = s@.subrange(from as int, i as int);
        proof {
            assert(s@.subrange(from as int, i as int + 1) =~= pre.push(c));
            assert(s@.subrange(from as int, i as int + 1).drop_last() =~= pre);
        }
        let code = c as u32;
        if !(48 <= code && code <= 57) {
            proof {
                let whole = s@.skip(from as int);
                assert(whole[i - from] == c);
                assert(!is_digit(whole[i - from]));
            }
            return None;
        }
        let d = (code - 48) as u128;
        if !over {
            let next = acc * 10 + d;
            if next > max as u128 {
                over = true;
            } else {
                acc = next;
            }
        }
        proof {
            let now = s@.subrange(from as int, i as int + 1);
            assert(digits_value(now) == digits_value(pre) * 10 + d);
            assert forall|j: int| 0 <= j < now.len() implies is_digit(#[trigger] now[j]) by {
                if j < pre.len() {
                    assert(now[j] == pre[j]);
                }
            }
        }
        i = i + 1;
    }
    proof {
        assert(s@.subrange(from as int, n as int) =~= s@.skip(from as int));
    }
    if over {
        None
    } else {
        Some(acc as u64)
    }
}

/// An unsigned field: optional '+', then digits, at most `max`.
pub fn parse_unsigned(s: &str, max: u64) -> (r: Option<u64>)
    ensures
        r == (match parse_uint(s@, max as nat) {
            Some(v) => Some(v as u64),
            None => None::<u64>,
        }),
{
    let n = s.unicode_len();
    if n > 0 && s.get_char(0) == '+' {
        parse_digits(s, 1, max)
    } else {
        proof {
            assert(s@.skip(0) =~= s@);
        }
        parse_digits(s, 0, max)
    }
}

/// A signed 64-bit field: optional sign, then digits, in range.
pub fn parse_signed(s: &str) -> (r: Option<i64>)
    ensures
        r == (match parse_int(s@) {
            Some(v) => Some(v as i64),
            None => None::<i64>,
        }),
{
    let n = s.unicode_len();
    if n > 0 && s.get_char(0) == '-' {
        match parse_digits(s, 1, 9223372036854775808u64) {
            Some(v) => {
                if v == 9223372036854775808u64 {
                    Some(i64::MIN)
                } else {
                    Some(-(v as i64))
                }
            },
            None => None,
        }
    } else {
        match parse_unsigned(s, 9223372036854775807u64) {
            Some(v) => Some(v as i64),
            None => None,
        }
    }
}

/// An index field.
pub fn parse_usize(s: &str) -> (r: Option<usize>)
    ensures
        r == parse_index(s@),
{
    match parse_unsigned(s, usize::MAX as u64) {
        Some(v) => Some(v as usize),
        None => None,
    }
}

/// `s` up to the first `sep`, and what follows it if there is one.
pub fn split_once(s: &str, sep: char) -> (r: (String, Option<String>))
    ensures
        r.0@ == head_of(s@, sep),
        (match r.1 {
            Some(t) => Some(t@),
            None => None,
        }) == tail_of(s@, sep),
{
    let n = s.unicode_len();
    let mut i: usize = 0;
    while i < n
        invariant
            n == s@.len(),
            i <= n,
            first_pos(s@.take(i as int), sep) < 0,
        decreases n - i,
    {
        proof {
            lemma_first_pos_step(s@, sep, i as int);
        }
        if s.get_char(i) == sep {
            proof {
                lemma_first_pos_keep(s@, sep, i as int + 1);
            }
            let head = String::from_str(s.substring_char(0, i));
            let tail = String::from_str(s.substring_char(i + 1, n));
            proof {
                assert(head@ =~= head_of(s@, sep));
                assert(tail@ =~= s@.skip(i as int + 1));
            }
            return (head, Some(tail));
        }
        i = i + 1;
    }
    proof {
        assert(s@.take(i as int) =~= s@);
    }
    let whole = String::from_str(s.substring_char(0, n));
    proof {
        assert(whole@ =~= s@);
    }
    (whole, None)
}

/// The fields that parse as indices, in order.
fn parse_index_list(f: &Vec<String>) -> (r: Vec<usize>)
    ensures
        r@ == parse_indices(f@.map_values(|t: String| t@)),
{
    let ghost fv = f@.map_values(|t: String| t@);
    let mut out: Vec<usize> = Vec::new();
    let mut i: usize = 0;
    while i < f.len()
        invariant
            i <= f@.len(),
            fv == f@.map_values(|t: String| t@),
            out@ == parse_indices(fv.take(i as int)),
        decreases f@.len() - i,
    {
        proof {
            assert(fv.take(i as int + 1).drop_last() =~= fv.take(i as int));
        }
        match parse_usize(f[i].as_str()) {
            Some(v) => out.push(v),
            None => {},
        }
        i = i + 1;
    }
    proof {
        assert(fv.take(i as int) =~= fv);
    }
    out
}

/// The fields that parse as mode codes, decoded, in order.
fn parse_mode_list(f: &Vec<String>) -> (r: Vec<Mode>)
    ensures
        r@ == parse_modes(f@.map_values(|t: String| t@)),
{
    let ghost fv = f@.map_values(|t: String| t@);
    let mut out: Vec<Mode> = Vec::new();
    let mut i: usize = 0;
    while i < f.len()
        invariant
            i <= f@.len(),
            fv == f@.map_values(|t: String| t@),
            out@ == parse_modes(fv.take(i as int)),
        decreases f@.len() - i,
    {
        proof {
            assert(fv.take(i as int + 1).drop_last() =~= fv.take(i as int));
        }
        match parse_unsigned(f[i].as_str(), 255) {
            Some(v) => out.push(Mode::from_code(v as u8)),
            None => {},
        }
        i = i + 1;
    }
    proof {
        assert(fv.take(i as int) =~= fv);
    }
    out
}

fn opt_field_of(f: &Vec<String>, i: usize) -> (r: Option<usize>)
    ensures
        r == opt_field(f@.map_values(|t: String| t@), i as int),
{
    if i < f.len() {
        match parse_signed(f[i].as_str()) {
            Some(v) => {
                if v >= 0 {
                    Some(v as usize)
                } else {
                    None
                }
            },
            None => None,
        }
    } else {
        None
    }
}

fn seg_rec(rest: &str) -> (r: Option<RawSegment>)
    ensures
        (match r {
            Some(x) => Some(x@),
            None => None,
        }) == seg_rec_of(rest@),
{
    let f = split_str(rest, ',');
    let ghost fv = f@.map_values(|t: String| t@);
    if f.len() < 6 {
        return None;
    }
    let k0 = f[0].as_str();
    let kind = if str_eq(k0, "L") {
        SegmentKind::Line
    } else if str_eq(k0, "M") {
        SegmentKind::Ruler
    } else if str_eq(k0, "A") {
        SegmentKind::Arc
    } else if str_eq(k0, "B") {
        SegmentKind::Bezier
    } else {
        return None;
    };
    let si = parse_usize(f[1].as_str());
    let ei = parse_usize(f[2].as_str());
    match (si, ei) {
        (Some(start), Some(end)) => {
            let stroke = f[3].clone();
            Some(RawSegment {
                kind,
                start,
                end,
                stroke,
                ctrl: opt_field_of(&f, 4),
                center: opt_field_of(&f, 5),
                handle_out: opt_field_of(&f, 6),
                handle_in: opt_field_of(&f, 7),
            })
        },
        _ => None,
    }
}

fn con_rec(rest: &str) -> (r: Option<ConRec>)
    ensures
        r == con_rec_of(rest@),
{
    let f = split_str(rest, ',');
    let ghost fv = f@.map_values(|t: String| t@);
    if f.len() < 3 {
        return None;
    }
    let k0 = f[0].as_str();
    let kind = if str_eq(k0, "coincident") {
        ConstraintKind::Coincident
    } else if str_eq(k0, "horizontal") {
        ConstraintKind::Horizontal
    } else if str_eq(k0, "vertical") {
        ConstraintKind::Vertical
    } else if str_eq(k0, "tangent") {
        ConstraintKind::Tangent
    } else if str_eq(k0, "parallel") {
        ConstraintKind::Parallel
    } else if str_eq(k0, "perpendicular") {
        ConstraintKind::Perpendicular
    } else {
        return None;
    };
    let pair = if f.len() >= 5 {
        match (parse_usize(f[3].as_str()), parse_usize(f[4].as_str())) {
            (Some(i), Some(j)) => Some((i, j)),
            _ => None,
        }
    } else {
        None
    };
    proof {
        assert(pair == seg_pair_of(fv));
    }
    match (parse_usize(f[1].as_str()), parse_usize(f[2].as_str())) {
        (Some(a), Some(b)) => Some((kind, a, b, pair)),
        _ => None,
    }
}

fn path_rec(rest: &str) -> (r: RawPath)
    ensures
        r@ == path_rec_of(rest@),
{
    let (p1, t1) = split_once(rest, ':');
    let closed = str_eq(p1.as_str(), "1");
    let (p2, t2) = match &t1 {
        Some(t) => {
            let (h, rest2) = split_once(t.as_str(), ':');
            (h, rest2)
        },
        None => (String::new(), None),
    };
    let (p3, t3) = match &t2 {
        Some(t) => {
            let (h, rest3) = split_once(t.as_str(), ':');
            (h, rest3)
        },
        None => (String::new(), None),
    };
    let p4 = match t3 {
        Some(t) => t,
        None => String::new(),
    };
    let segments = parse_index_list(&split_str(p2.as_str(), ','));
    let continuity = parse_mode_list(&split_str(p3.as_str(), ','));
    let handles = parse_index_list(&split_str(p4.as_str(), ','));
    RawPath { closed, segments, continuity, handles }
}

/// Adds the record of one '|'-separated part.
fn decode_into(acc: &mut RawClip, part: &str)
    ensures
        final(acc)@ == decode_part(old(acc)@, part@),
{
    let (tag, rest_opt) = split_once(part, ':');
    let rest = match rest_opt {
        Some(r) => r,
        None => String::new(),
    };
    let t = tag.as_str();
    let ghost before = acc@;
    if str_eq(t, "P") {
        let xy = split_str(rest.as_str(), ',');
        proof {
            lemma_split_nonempty(rest@, ',');
        }
        let x = xy[0].clone();
        let y = if xy.len() > 1 { Some(xy[1].clone()) } else { None };
        let ghost pv = acc.points@;
        acc.points.push(RawPoint { x, y });
        proof {
            assert(acc.points@.map_values(|p: RawPoint| p@) =~= pv.map_values(|p: RawPoint| p@).push(
                (x@, match y { Some(s) => Some(s@), None => None })));
        }
    } else if str_eq(t, "S") {
        match seg_rec(rest.as_str()) {
            Some(r) => {
                let ghost sv = acc.segments@;
                acc.segments.push(r);
                proof {
                    assert(acc.segments@.map_values(|s: RawSegment| s@) =~= sv.map_values(|s: RawSegment| s@).push(r@));
                }
            },
            None => {},
        }
    } else if str_eq(t, "F") {
        let l = parse_index_list(&split_str(rest.as_str(), ','));
        if l.len() > 0 {
            let ghost fv = acc.fills@;
            acc.fills.push(l);
            proof {
                assert(acc.fills@.map_values(|l: Vec<usize>| l@) =~= fv.map_values(|l: Vec<usize>| l@).push(l@));
            }
        }
    } else if str_eq(t, "H") {
        let p = path_rec(rest.as_str());
        if p.segments.len() > 0 {
            let ghost hv = acc.paths@;
            acc.paths.push(p);
            proof {
                assert(acc.paths@.map_values(|p: RawPath| p@) =~= hv.map_values(|p: RawPath| p@).push(p@));
            }
        }
    } else if str_eq(t, "C") {
        match con_rec(rest.as_str()) {
            Some(c) => acc.constraints.push(c),
            None => {},
        }
    }
}

/// The records of a clipboard text; `None` unless it starts with
/// "parametric/v2|".
pub fn decode_clip(text: &str) -> (r: Option<RawClip>)
    ensures
        (match r {
            Some(c) => Some(c@),
            None => None,
        }) == decoded(text@),
{
    let n = text.unicode_len();
    proof {
        reveal_strlit("parametric/v2|");
    }
    if n < 14 {
        return None;
    }
    if !str_eq(text.substring_char(0, 14), "parametric/v2|") {
        proof {
            assert(text@.subrange(0, 14) =~= text@.take(14));
        }
        return None;
    }
    let payload = text.substring_char(14, n);
    let parts = split_str(payload, '|');
    let ghost pv = parts@.map_values(|t: String| t@);
    let mut acc = RawClip {
        points: Vec::new(),
        segments: Vec::new(),
        fills: Vec::new(),
        paths: Vec::new(),
        constraints: Vec::new(),
    };
    proof {
        assert(acc@ =~= decode_parts(pv.take(0)));
    }
    let mut i: usize = 0;
    while i < parts.len()
        invariant
            i <= parts@.len(),
            pv == parts@.map_values(|t: String| t@),
            acc@ == decode_parts(pv.take(i as int)),
        decreases parts@.len() - i,
    {
        proof {
            assert(pv.take(i as int + 1).drop_last() =~= pv.take(i as int));
        }
        decode_into(&mut acc, parts[i].as_str());
        i = i + 1;
    }
    proof {
        assert(pv.take(i as int) =~= pv);
        assert(text@.subrange(0, 14) =~= text@.take(14));
        assert(payload@ =~= text@.skip(14));
    }
    Some(acc)
}

/// Decimal text parses back to its number.
pub proof fn law_decimal_parses_back(n: nat, max: nat)
    ensures
        decimal(n).len() > 0,
        all_digits(decimal(n)),
        digits_value(decimal(n)) == n,
        n <= max ==> parse_uint(decimal(n), max) == Some(n),
    decreases n,
{
    reveal_with_fuel(decimal, 2);
    if n < 10 {
        assert(decimal(n) == seq![digit_char(n)]);
        assert(decimal(n).drop_last() =~= Seq::<char>::empty());
        assert((digit_char(n) as u32) == 48 + n);
        assert(digits_value(Seq::<char>::empty()) == 0);
        assert(digits_value(decimal(n)) == digits_value(decimal(n).drop_last()) * 10 + ((decimal(n).last() as u32) - 48) as nat);
        assert(digits_value(decimal(n)) == n);
    } else {
        law_decimal_parses_back(n / 10, max);
        let pre = decimal(n / 10);
        let d = digit_char(n % 10);
        assert(decimal(n) == pre.push(d));
        assert(pre.push(d).drop_last() =~= pre);
        assert((d as u32) == 48 + n % 10);
        assert forall|i: int| 0 <= i < pre.push(d).len() implies is_digit(#[trigger] pre.push(d)[i]) by {
            if i < pre.len() {
                assert(pre.push(d)[i] == pre[i]);
            }
        }
        assert(digits_value(decimal(n)) == digits_value(pre) * 10 + ((d as u32) - 48) as nat);
        assert(digits_value(decimal(n)) == (n / 10) * 10 + n % 10);
        assert(digits_value(decimal(n)) == n);
    }
    assert(decimal(n).len() == 0 || decimal(n)[0] != '+');
}

} // verus!
