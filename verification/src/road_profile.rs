//! Road profiles: the ordered lane categories on each side of a road.

use vstd::prelude::*;
use crate::lane::{LaneKind, lane_kind_width};

verus! {

/// The total width, in milliunits, of a run of lanes.
pub open spec fn kinds_width(s: Seq<LaneKind>) -> int
    decreases s.len(),
{
    if s.len() == 0 {
        0
    } else {
        kinds_width(s.drop_last()) + lane_kind_width(s.last())
    }
}

/// The widths of a run of lanes are never negative and never exceed
/// four units a lane.
pub proof fn lemma_kinds_width_bounds(s: Seq<LaneKind>)
    ensures
        0 <= kinds_width(s) <= 4000 * s.len(),
    decreases s.len(),
{
    if s.len() > 0 {
        lemma_kinds_width_bounds(s.drop_last());
    }
}

/// The ordered lane categories for the right and the left side of a
/// road.
pub struct RoadProfile {
    pub right_lane_kinds: Vec<LaneKind>,
    pub left_lane_kinds: Vec<LaneKind>,
}

impl RoadProfile {
    /// A profile small enough for its width arithmetic to stay in
    /// machine range: at most a thousand lanes a side.
    pub open spec fn ok(self) -> bool {
        &&& self.right_lane_kinds@.len() <= 1000
        &&& self.left_lane_kinds@.len() <= 1000
    }

    /// An empty profile, to be filled side by side.
    pub fn new() -> (r: RoadProfile)
        ensures
            r.right_lane_kinds@ == Seq::<LaneKind>::empty(),
            r.left_lane_kinds@ == Seq::<LaneKind>::empty(),
            r.ok(),
    {
        RoadProfile { right_lane_kinds: Vec::new(), left_lane_kinds: Vec::new() }
    }

    /// The road's full width: the widths of every lane on both sides,
    /// summed, in milliunits.
    pub fn width(&self) -> (r: u64)
        requires
            self.ok(),
        ensures
            r == kinds_width(self.right_lane_kinds@) + kinds_width(self.left_lane_kinds@),
            r <= 8_000_000,
    {
        let mut w: u64 = 0;
        let mut i: usize = 0;
        proof {
            lemma_kinds_width_bounds(self.right_lane_kinds@);
            lemma_kinds_width_bounds(self.left_lane_kinds@);
        }
        while i < self.right_lane_kinds.len()
            invariant
                i <= self.right_lane_kinds@.len(),
                self.right_lane_kinds@.len() <= 1000,
                w == kinds_width(self.right_lane_kinds@.take(i as int)),
                w <= 4000 * i,
            decreases self.right_lane_kinds@.len() - i,
        {
            proof {
                assert(self.right_lane_kinds@.take(i + 1).drop_last() == self.right_lane_kinds@
                    .take(i as int));
                assert(self.right_lane_kinds@.take(i + 1).last() == self.right_lane_kinds@[
                    i as int]);
            }
            w = w + self.right_lane_kinds[i].width();
            i = i + 1;
        }
        proof {
            assert(self.right_lane_kinds@.take(self.right_lane_kinds@.len() as int)
                == self.right_lane_kinds@);
        }
        let mut j: usize = 0;
        let base: u64 = w;
        while j < self.left_lane_kinds.len()
            invariant
                j <= self.left_lane_kinds@.len(),
                self.left_lane_kinds@.len() <= 1000,
                base <= 4_000_000,
                w == base + kinds_width(self.left_lane_kinds@.take(j as int)),
                w <= base + 4000 * j,
            decreases self.left_lane_kinds@.len() - j,
        {
            proof {
                assert(self.left_lane_kinds@.take(j + 1).drop_last() == self.left_lane_kinds@
                    .take(j as int));
                assert(self.left_lane_kinds@.take(j + 1).last() == self.left_lane_kinds@[
                    j as int]);
            }
            w = w + self.left_lane_kinds[j].width();
            j = j + 1;
        }
        proof {
            assert(self.left_lane_kinds@.take(self.left_lane_kinds@.len() as int)
                == self.left_lane_kinds@);
        }
        w
    }
}

} // verus!
