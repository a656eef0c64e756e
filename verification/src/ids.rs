//! Generational ids: stable handles into arena storage. A stale id (one
//! whose slot generation moved on) resolves to nothing instead of to
//! whatever now occupies the slot.

use vstd::prelude::*;

verus! {

/// The index value that marks "no element".
pub const NONE_IDX: u32 = 0xffff_ffffu32;

#[derive(Clone, Copy, Debug, PartialEq, Eq, Hash, Structural)]
pub struct PointId {
    pub idx: u32,
    pub generation: u32,
}

#[derive(Clone, Copy, Debug, PartialEq, Eq, Hash, Structural)]
pub struct SegmentId {
    pub idx: u32,
    pub generation: u32,
}

#[derive(Clone, Copy, Debug, PartialEq, Eq, Hash, Structural)]
pub struct FillId {
    pub idx: u32,
    pub generation: u32,
}

#[derive(Clone, Copy, Debug, PartialEq, Eq, Hash, Structural)]
pub struct PathId {
    pub idx: u32,
    pub generation: u32,
}

impl PointId {
    /// The "no point" sentinel.
    pub fn none() -> (r: Self)
        ensures
            r.idx == NONE_IDX,
            r.generation == 0,
    {
        PointId { idx: NONE_IDX, generation: 0 }
    }

    pub fn is_some(self) -> (r: bool)
        ensures
            r == (self.idx != NONE_IDX),
    {
        self.idx != NONE_IDX
    }
}

impl SegmentId {
    /// The "no segment" sentinel.
    pub fn none() -> (r: Self)
        ensures
            r.idx == NONE_IDX,
            r.generation == 0,
    {
        SegmentId { idx: NONE_IDX, generation: 0 }
    }

    pub fn is_some(self) -> (r: bool)
        ensures
            r == (self.idx != NONE_IDX),
    {
        self.idx != NONE_IDX
    }
}

impl FillId {
    /// The "no fill" sentinel.
    pub fn none() -> (r: Self)
        ensures
            r.idx == NONE_IDX,
            r.generation == 0,
    {
        FillId { idx: NONE_IDX, generation: 0 }
    }

    pub fn is_some(self) -> (r: bool)
        ensures
            r == (self.idx != NONE_IDX),
    {
        self.idx != NONE_IDX
    }
}

impl PathId {
    /// The "no path" sentinel.
    pub fn none() -> (r: Self)
        ensures
            r.idx == NONE_IDX,
            r.generation == 0,
    {
        PathId { idx: NONE_IDX, generation: 0 }
    }

    pub fn is_some(self) -> (r: bool)
        ensures
            r == (self.idx != NONE_IDX),
    {
        self.idx != NONE_IDX
    }
}

} // verus!
