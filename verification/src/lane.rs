//! Lanes: a fitted curve bound to the two connections it joins.
//!
//! All cross-references run through a single arena: a lane names its
//! entry and exit connection by index, and connections name their lanes
//! the same way, so the whole lane graph lives in one owning structure
//! and old lanes stay valid after an intersection rebuild.

use vstd::prelude::*;
use crate::curve::{Curve, curve_length, lerp_at};
use crate::node::Node;

verus! {

/// The mode of travel a lane serves.
#[derive(Clone, Copy, PartialEq, Eq, Structural, Debug)]
pub enum LaneKind {
    Car,
    Bike,
    Pedestrian,
}

/// The fixed width of a lane of kind `k`, in milliunits.
pub open spec fn lane_kind_width(k: LaneKind) -> int {
    match k {
        LaneKind::Car => 4000,
        LaneKind::Bike => 2000,
        LaneKind::Pedestrian => 2000,
    }
}

impl LaneKind {
    /// The fixed width of this lane kind, in milliunits.
    pub fn width(&self) -> (r: u64)
        ensures
            r == lane_kind_width(*self),
    {
        match self {
            LaneKind::Car => 4000,
            LaneKind::Bike => 2000,
            LaneKind::Pedestrian => 2000,
        }
    }
}

/// A lane from connection `c0` to connection `c1` (both indices into
/// the owning map's connection arena), along `curve`. Immutable once
/// created.
#[derive(Clone, Copy, Debug)]
pub struct Lane {
    pub c0: usize,
    pub c1: usize,
    pub curve: Curve,
    pub width: u64,
    pub kind: LaneKind,
}

impl Lane {
    /// Its connection indices stay inside an arena of `n_conns`
    /// connections, and its curve is in range.
    pub open spec fn ok(self, n_conns: int) -> bool {
        &&& self.c0 < n_conns
        &&& self.c1 < n_conns
        &&& self.curve.wf()
    }

    pub fn new(c0: usize, c1: usize, curve: Curve, width: u64, kind: LaneKind) -> (r: Lane)
        ensures
            r.c0 == c0,
            r.c1 == c1,
            r.curve == curve,
            r.width == width,
            r.kind == kind,
    {
        Lane { c0, c1, curve, width, kind }
    }

    /// The lane's length, in milliunits: the length of its curve.
    pub fn length(&self) -> (r: u64)
        requires
            self.curve.wf(),
        ensures
            r == curve_length(self.curve),
    {
        self.curve.length()
    }

    /// Where the lane stands after `d` milliunits of travel, for a
    /// straight lane (arc sampling is the painting layer's projection).
    pub fn position_at(&self, d: u64) -> (r: Node)
        requires
            self.curve.wf(),
            !self.curve.is_curved,
            d <= curve_length(self.curve),
        ensures
            r.x == lerp_at(self.curve, d as int).0,
            r.y == lerp_at(self.curve, d as int).1,
    {
        self.curve.position_at(d)
    }
}

} // verus!
