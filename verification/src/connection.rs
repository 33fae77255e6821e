//! Connections: tagged attachment points on an intersection.
//!
//! An `In` connection carries traffic into the intersection's internal
//! lane graph (lanes depart from it, listed in `out_lane`); an `Out`
//! connection carries traffic away (lanes arrive at it, listed in
//! `in_lane`). Lane references are indices into the owning map's lane
//! arena.

use vstd::prelude::*;
use crate::lane::LaneKind;
use crate::node::{Node, Heading};
use crate::MAX_COORD;

verus! {

/// Which way traffic crosses the connection, seen from the
/// intersection.
#[derive(Clone, Copy, PartialEq, Eq, Structural, Debug)]
pub enum ConnectionKind {
    In,
    Out,
}

/// An attachment point: its position, side, lane category, the heading
/// of the road it serves, and its lateral offset from the road's
/// center line.
pub struct Connection {
    pub center: Node,
    pub kind: ConnectionKind,
    pub lane_kind: LaneKind,
    pub angle: Heading,
    pub offset: i64,
    pub in_lane: Vec<usize>,
    pub out_lane: Vec<usize>,
}

impl Connection {
    /// Its position is in fitting range, its heading is a heading, and
    /// every lane it lists stays inside an arena of `n_lanes` lanes.
    pub open spec fn ok(self, n_lanes: int) -> bool {
        &&& self.center.bounded(MAX_COORD as int)
        &&& self.angle.wf()
        &&& forall|i: int| 0 <= i < self.in_lane@.len() ==> self.in_lane@[i] < n_lanes
        &&& forall|i: int| 0 <= i < self.out_lane@.len() ==> self.out_lane@[i] < n_lanes
    }

    pub fn new(center: Node, kind: ConnectionKind, lane_kind: LaneKind, angle: Heading, offset: i64)
        -> (r: Connection)
        ensures
            r.center == center,
            r.kind == kind,
            r.lane_kind == lane_kind,
            r.angle == angle,
            r.offset == offset,
            r.in_lane@ == Seq::<usize>::empty(),
            r.out_lane@ == Seq::<usize>::empty(),
    {
        Connection {
            center,
            kind,
            lane_kind,
            angle,
            offset,
            in_lane: Vec::new(),
            out_lane: Vec::new(),
        }
    }
}

} // verus!
