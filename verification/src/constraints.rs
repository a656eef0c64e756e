//! Geometric constraints, dimensions and element references. Constraints
//! bind to points: every kind reduces to equations over point positions.

use vstd::prelude::*;
use crate::ids::{FillId, PathId, PointId, SegmentId};
use crate::text::str_eq;

verus! {

#[derive(Clone, Copy, Debug, PartialEq, Eq, Structural)]
pub enum ConstraintKind {
    /// The two points occupy the same location.
    Coincident,
    /// The two points share a Y coordinate.
    Horizontal,
    /// The two points share an X coordinate.
    Vertical,
    /// A line and a circular arc share a tangent direction at a point.
    Tangent,
    /// Two straight segments have parallel directions.
    Parallel,
    /// Two straight segments meet at a right angle.
    Perpendicular,
}

/// The persisted name of a constraint kind.
pub open spec fn kind_name(k: ConstraintKind) -> Seq<char> {
    match k {
        ConstraintKind::Coincident => "coincident"@,
        ConstraintKind::Horizontal => "horizontal"@,
        ConstraintKind::Vertical => "vertical"@,
        ConstraintKind::Tangent => "tangent"@,
        ConstraintKind::Parallel => "parallel"@,
        ConstraintKind::Perpendicular => "perpendicular"@,
    }
}

impl ConstraintKind {
    pub fn as_str(self) -> (r: &'static str)
        ensures
            r@ == kind_name(self),
    {
        match self {
            ConstraintKind::Coincident => "coincident",
            ConstraintKind::Horizontal => "horizontal",
            ConstraintKind::Vertical => "vertical",
            ConstraintKind::Tangent => "tangent",
            ConstraintKind::Parallel => "parallel",
            ConstraintKind::Perpendicular => "perpendicular",
        }
    }
}

#[derive(Clone, Copy, Debug)]
pub struct Constraint {
    pub kind: ConstraintKind,
    pub a: PointId,
    pub b: PointId,
    /// Owning segment pair for tangent / parallel constraints.
    pub tangent_segments: Option<(SegmentId, SegmentId)>,
    /// For a point-to-edge coincidence: the edge `a` must stay on.
    pub point_on_segment: Option<SegmentId>,
}

impl PartialEq for Constraint {
    fn eq(&self, other: &Self) -> (r: bool) {
        let ts = match (self.tangent_segments, other.tangent_segments) {
            (Some(p), Some(q)) => p.0 == q.0 && p.1 == q.1,
            (None, None) => true,
            _ => false,
        };
        let ps = match (self.point_on_segment, other.point_on_segment) {
            (Some(p), Some(q)) => p == q,
            (None, None) => true,
            _ => false,
        };
        self.kind == other.kind && self.a == other.a && self.b == other.b && ts && ps
    }
}

impl vstd::std_specs::cmp::PartialEqSpecImpl for Constraint {
    open spec fn obeys_eq_spec() -> bool {
        true
    }

    open spec fn eq_spec(&self, other: &Self) -> bool {
        *self == *other
    }
}

impl Eq for Constraint {}

/// Orientation of a point-pair distance dimension.
#[derive(Clone, Copy, Debug, PartialEq, Eq, Structural)]
pub enum DimMode {
    Aligned,
    X,
    Y,
}

/// Persisted suffix of a point-pair dimension mode.
pub open spec fn mode_suffix(m: DimMode) -> Seq<char> {
    match m {
        DimMode::Aligned => ""@,
        DimMode::X => "_x"@,
        DimMode::Y => "_y"@,
    }
}

/// Result of parsing a persisted point-pair dimension kind: whether the
/// text names a point-pair dimension, and its mode.
pub open spec fn parse_suffix_spec(kind: Seq<char>) -> (bool, DimMode) {
    if kind == "points_x"@ {
        (true, DimMode::X)
    } else if kind == "points_y"@ {
        (true, DimMode::Y)
    } else {
        (kind == "points"@, DimMode::Aligned)
    }
}

impl DimMode {
    pub fn as_str(self) -> (r: &'static str)
        ensures
            r@ == mode_suffix(self),
    {
        match self {
            DimMode::Aligned => "",
            DimMode::X => "_x",
            DimMode::Y => "_y",
        }
    }

    pub fn parse_suffix(kind: &str) -> (r: (bool, DimMode))
        ensures
            r == parse_suffix_spec(kind@),
    {
        if str_eq(kind, "points_x") {
            (true, DimMode::X)
        } else if str_eq(kind, "points_y") {
            (true, DimMode::Y)
        } else {
            (str_eq(kind, "points"), DimMode::Aligned)
        }
    }
}

/// What a dimension measures and between what.
#[allow(inconsistent_fields)]
#[derive(Clone, Copy, Debug, PartialEq, Eq, Structural)]
pub enum DimTarget {
    /// Distance between two points: straight (Aligned) or the X/Y span.
    Points { a: PointId, b: PointId, mode: DimMode },
    /// Perpendicular distance from a point to a line.
    PointLine { p: PointId, line: SegmentId },
    /// Perpendicular distance between two parallel lines.
    Lines { a: SegmentId, b: SegmentId },
    /// Angle between two lines.
    Angle { a: SegmentId, b: SegmentId },
    /// Radius of an arc or circle.
    Radius { seg: SegmentId },
}

impl DimTarget {
    /// The target with a point-pair mode applied (unchanged for targets
    /// that carry no mode).
    pub fn with_mode(self, mode: DimMode) -> (r: Self)
        ensures
            r == (match self {
                DimTarget::Points { a, b, .. } => DimTarget::Points { a, b, mode },
                other => other,
            }),
    {
        match self {
            DimTarget::Points { a, b, .. } => DimTarget::Points { a, b, mode },
            other => other,
        }
    }
}

/// One stored dimension. The four measurement fields hold the IEEE-754
/// bit patterns of the document values (value, perpendicular offset,
/// slide along the dimension line, signed angle sweep); the engine only
/// carries them.
#[derive(Clone, Copy, Debug, PartialEq, Eq, Structural)]
pub struct Dimension {
    pub target: DimTarget,
    pub value_bits: u64,
    pub offset_bits: u64,
    pub slide_bits: u64,
    pub sweep_bits: u64,
}

/// A reference to any first-class document element.
#[derive(Clone, Copy, Debug, PartialEq, Eq, Hash, Structural)]
pub enum ElementRef {
    Point(PointId),
    Segment(SegmentId),
    Fill(FillId),
    Path(PathId),
}

impl ElementRef {
    pub fn as_point(self) -> (r: Option<PointId>)
        ensures
            r == (match self {
                ElementRef::Point(p) => Some(p),
                _ => None,
            }),
    {
        match self {
            ElementRef::Point(p) => Some(p),
            _ => None,
        }
    }

    pub fn as_segment(self) -> (r: Option<SegmentId>)
        ensures
            r == (match self {
                ElementRef::Segment(s) => Some(s),
                _ => None,
            }),
    {
        match self {
            ElementRef::Segment(s) => Some(s),
            _ => None,
        }
    }

    pub fn as_fill(self) -> (r: Option<FillId>)
        ensures
            r == (match self {
                ElementRef::Fill(f) => Some(f),
                _ => None,
            }),
    {
        match self {
            ElementRef::Fill(f) => Some(f),
            _ => None,
        }
    }
}

/// A point-pair dimension kind written with its mode's suffix parses back
/// to that mode.
pub proof fn law_mode_suffix_round_trip(m: DimMode)
    ensures
        parse_suffix_spec("points"@ + mode_suffix(m)) == (true, m),
{
    reveal_strlit("points");
    reveal_strlit("points_x");
    reveal_strlit("points_y");
    reveal_strlit("_x");
    reveal_strlit("_y");
    reveal_strlit("");
    match m {
        DimMode::Aligned => {
            assert("points"@ + ""@ =~= "points"@);
            assert("points"@ != "points_x"@);
            assert("points"@ != "points_y"@);
        },
        DimMode::X => {
            assert("points"@ + "_x"@ =~= "points_x"@);
        },
        DimMode::Y => {
            assert("points"@ + "_y"@ =~= "points_y"@);
            assert("points_y"@[7] != "points_x"@[7]);
        },
    }
}

} // verus!
