//! Roads: the link between two intersections.
//!
//! A road asks each endpoint intersection for one connection per lane
//! category, fits its own central curve between the two endpoints, and
//! lays one "through" lane per category and direction directly between
//! the matching near-side and far-side connections — bypassing the
//! intersections' own turn-lane cross-joins. A third, decorative
//! middle intersection is only an anchor for later branching and
//! receives no connections.

use vstd::prelude::*;
use crate::connection::{Connection, ConnectionKind};
use crate::curve::{Curve, fits, offset_fits, reversed_of};
use crate::intersection::{
    Intersection,
    graph_wf,
    wire_lane,
    lemma_push_lane_wf,
    lemma_wire_wf,
};
use crate::lane::{Lane, LaneKind, lane_kind_width};
use crate::node::{Node, Heading, heading_to, off_coord};
use crate::road_profile::{RoadProfile, kinds_width};
use crate::MAX_COORD;

verus! {

/// The sorts of road the network can hold.
pub enum RoadKind {
    Normal,
}

/// The through lane the road lays for category `kinds[t]`: from
/// connection `e` to connection `x`, on the central curve `central`
/// displaced laterally by the accumulated half-widths.
pub open spec fn through_lane_matches(
    l: Lane,
    central: Curve,
    kinds: Seq<LaneKind>,
    t: int,
    e: usize,
    x: usize,
) -> bool {
    let off = kinds_width(kinds.take(t)) + lane_kind_width(kinds[t]) / 2;
    &&& l.c0 == e
    &&& l.c1 == x
    &&& l.kind == kinds[t]
    &&& l.width == lane_kind_width(kinds[t])
    &&& l.curve.wf()
    &&& offset_fits(l.curve, central, off)
}

/// A road: its near, middle and far intersections (indices into the
/// owning map), its central curve, its full width in milliunits, and
/// the through lanes it laid (indices into the lane arena).
pub struct Road {
    pub i0: usize,
    pub i1: usize,
    pub i2: usize,
    pub curve: Curve,
    pub width: u64,
    pub lanes: Vec<usize>,
}

impl Road {
    /// Connect intersections `i0` and `i2` (the decorative middle one
    /// only recorded by its index `id1`): attach one connection per
    /// category on each endpoint, fit the central curve between the
    /// two road anchors, and lay the through lanes of both directions.
    ///
    /// A through road carries the same ordered profile on both sides
    /// (the `requires` below). Lanes only connect within one category,
    /// and a through lane runs along one lateral line of the road: the
    /// far-side connection on that line belongs to the far end's other
    /// side, so a category-matched partner exists for every lane
    /// exactly when the two sides list the same categories in the same
    /// order.
    pub fn new(
        i0: &mut Intersection,
        i2: &mut Intersection,
        id0: usize,
        id1: usize,
        id2: usize,
        road_profile: &RoadProfile,
        conns: &mut Vec<Connection>,
        lanes: &mut Vec<Lane>,
    ) -> (r: Road)
        requires
            road_profile.ok(),
            road_profile.right_lane_kinds@ == road_profile.left_lane_kinds@,
            graph_wf(old(conns)@, old(lanes)@),
            old(i0).ok(old(conns)@.len() as int, old(lanes)@.len() as int),
            old(i2).ok(old(conns)@.len() as int, old(lanes)@.len() as int),
            old(i0).center.bounded(MAX_COORD as int - 100_000_000),
            old(i2).center.bounded(MAX_COORD as int - 100_000_000),
        ensures
            graph_wf(final(conns)@, final(lanes)@),
            final(i0).ok(final(conns)@.len() as int, final(lanes)@.len() as int),
            final(i2).ok(final(conns)@.len() as int, final(lanes)@.len() as int),
            final(i0).center == old(i0).center,
            final(i2).center == old(i2).center,
            forall|t: int| 0 <= t < old(lanes)@.len() ==> final(lanes)@[t] == old(lanes)@[t],
            final(lanes)@.len() >= old(lanes)@.len(),
            r.i0 == id0,
            r.i1 == id1,
            r.i2 == id2,
            r.width == kinds_width(road_profile.right_lane_kinds@) + kinds_width(
                road_profile.left_lane_kinds@,
            ),
            r.curve.wf(),
            // The central curve is fitted between the two road anchors
            // (each endpoint's center pushed a full road width toward
            // the other), along the heading between the two centers.
            (exists|an0: Node, an1: Node, h0: Heading, h2: Heading|
                #![trigger fits(r.curve, an0, an1, h0, h2)]
                {
                    let w = kinds_width(road_profile.right_lane_kinds@) + kinds_width(
                        road_profile.left_lane_kinds@,
                    );
                    &&& h0.x == heading_to(old(i0).center, old(i2).center).0
                    &&& h0.y == heading_to(old(i0).center, old(i2).center).1
                    &&& h2.x == heading_to(old(i2).center, old(i0).center).0
                    &&& h2.y == heading_to(old(i2).center, old(i0).center).1
                    &&& an0.x == off_coord(old(i0).center.x as int, h0.x as int, w)
                    &&& an0.y == off_coord(old(i0).center.y as int, h0.y as int, w)
                    &&& an1.x == off_coord(old(i2).center.x as int, h2.x as int, w)
                    &&& an1.y == off_coord(old(i2).center.y as int, h2.y as int, w)
                    &&& fits(r.curve, an0, an1, h0, h2)
                }),
            // One through lane per category and direction, appended
            // last to the arena, each between the matching pair of new
            // connections.
            ({
                let n = road_profile.right_lane_kinds@.len() as int;
                let kinds = road_profile.right_lane_kinds@;
                let b0 = old(conns)@.len() as int;
                let b1 = b0 + 2 * n;
                let m = final(lanes)@.len() as int;
                &&& final(conns)@.len() == b0 + 4 * n
                &&& r.lanes@.len() == 2 * n
                &&& m >= 2 * n
                &&& forall|t: int| 0 <= t < 2 * n ==> r.lanes@[t] == m - 2 * n + t
                &&& forall|t: int|
                    0 <= t < n ==> through_lane_matches(
                        #[trigger] final(lanes)@[m - 2 * n + t],
                        r.curve,
                        kinds,
                        t,
                        (b0 + t) as usize,
                        (b1 + n + t) as usize,
                    )
                &&& forall|t: int|
                    0 <= t < n ==> through_lane_matches(
                        #[trigger] final(lanes)@[m - n + t],
                        reversed_of(r.curve),
                        kinds,
                        t,
                        (b1 + t) as usize,
                        (b0 + n + t) as usize,
                    )
                // each through lane is wired into both of its
                // connections: listed as departing from its exit-side
                // connection and as arriving at its entry-side one
                &&& forall|t: int|
                    0 <= t < n ==> (#[trigger] final(conns)@[b0 + t]).out_lane@.contains(
                        (m - 2 * n + t) as usize,
                    ) && final(conns)@[b1 + n + t].in_lane@.contains((m - 2 * n + t) as usize)
                &&& forall|t: int|
                    0 <= t < n ==> (#[trigger] final(conns)@[b1 + t]).out_lane@.contains(
                        (m - n + t) as usize,
                    ) && final(conns)@[b0 + n + t].in_lane@.contains((m - n + t) as usize)
            }),
    {
        let width: u64 = road_profile.width();

        // Headings between the two endpoints, and the road anchors.
        let a0: Heading = i0.center.angle(&i2.center);
        let a2: Heading = i2.center.angle(&i0.center);
        let an0: Node = i0.center.offset(a0, width as i64);
        let an1: Node = i2.center.offset(a2, width as i64);
        let central: Curve = Curve::new(an0, an1, a0, a2);

        // Attach the connections on both endpoints.
        let ghost b0 = conns@.len() as int;
        let c0s: Vec<usize> = i0.get_connections(a0, road_profile, conns, lanes);
        let ghost b1 = conns@.len() as int;
        let c1s: Vec<usize> = i2.get_connections(a2, road_profile, conns, lanes);
        let n: usize = road_profile.right_lane_kinds.len();
        let ghost kinds = road_profile.right_lane_kinds@;
        let ghost lmid = lanes@.len() as int;
        proof {
            assert(b1 == b0 + 2 * n);
            assert(conns@.len() == b0 + 4 * n);
        }

        // Lay the through lanes: near-to-far on the right side of the
        // central curve, far-to-near on its reverse.
        let mut rl: Vec<usize> = Vec::new();
        let mut off: u64 = 0;
        let mut t: usize = 0;
        while t < n
            invariant
                t <= n,
                n == kinds.len(),
                kinds == road_profile.right_lane_kinds@,
                kinds.len() <= 1000,
                b0 >= 0,
                b1 == b0 + 2 * n,
                conns@.len() == b0 + 4 * n,
                c0s@.len() == 2 * n,
                c1s@.len() == 2 * n,
                forall|u: int| 0 <= u < 2 * n ==> c0s@[u] == b0 + u,
                forall|u: int| 0 <= u < 2 * n ==> c1s@[u] == b1 + u,
                central.wf(),
                central.n0.bounded(crate::MAX_SPAN - crate::MAX_LATERAL as int),
                central.n1.bounded(crate::MAX_SPAN - crate::MAX_LATERAL as int),
                central.c.bounded(crate::MAX_SPAN - crate::MAX_LATERAL as int),
                graph_wf(conns@, lanes@),
                i0.ok(conns@.len() as int, lanes@.len() as int),
                i2.ok(conns@.len() as int, lanes@.len() as int),
                i0.center == old(i0).center,
                i2.center == old(i2).center,
                forall|u: int|
                    0 <= u < n ==> {
                        &&& (#[trigger] conns@[b0 + u]).kind == ConnectionKind::Out
                        &&& conns@[b0 + u].lane_kind == kinds[u]
                        &&& conns@[b1 + n + u].kind == ConnectionKind::In
                        &&& conns@[b1 + n + u].lane_kind == kinds[u]
                        &&& conns@[b1 + u].kind == ConnectionKind::Out
                        &&& conns@[b1 + u].lane_kind == kinds[u]
                        &&& conns@[b0 + n + u].kind == ConnectionKind::In
                        &&& conns@[b0 + n + u].lane_kind == kinds[u]
                    },
                off == kinds_width(kinds.take(t as int)),
                off <= 4_000_000,
                lmid >= 0,
                old(lanes)@.len() <= lmid,
                lanes@.len() == lmid + t,
                forall|u: int| 0 <= u < old(lanes)@.len() ==> lanes@[u] == old(lanes)@[u],
                rl@.len() == t as int,
                forall|u: int| 0 <= u < t ==> rl@[u] == lmid + u,
                forall|u: int|
                    0 <= u < t ==> through_lane_matches(
                        #[trigger] lanes@[lmid + u],
                        central,
                        kinds,
                        u,
                        (b0 + u) as usize,
                        (b1 + n + u) as usize,
                    ),
                forall|u: int|
                    0 <= u < t ==> (#[trigger] conns@[b0 + u]).out_lane@.contains(
                        (lmid + u) as usize,
                    ) && conns@[b1 + n + u].in_lane@.contains((lmid + u) as usize),
            decreases n - t,
        {
            let k: LaneKind = road_profile.right_lane_kinds[t];
            let kw: u64 = k.width();
            proof {
                crate::road_profile::lemma_kinds_width_bounds(kinds.take(t as int));
                crate::road_profile::lemma_kinds_width_bounds(kinds.take(t + 1));
                assert(kinds.take(t + 1).drop_last() =~= kinds.take(t as int));
                assert(kinds.take(t + 1).last() == kinds[t as int]);
            }
            off = off + kw / 2;
            let lc: Curve = central.offset(off as i64);
            let e: usize = c0s[t];
            let x: usize = c1s[n + t];
            let lane: Lane = Lane::new(e, x, lc, kw, k);
            let id: usize = lanes.len();
            let ghost lanes_pre = lanes@;
            let ghost conns_pre = conns@;
            proof {
                assert(conns@[b0 + t].kind == ConnectionKind::Out);
                assert(conns@[b0 + t].lane_kind == kinds[t as int]);
                assert(conns@[b1 + n + t].kind == ConnectionKind::In);
                assert(conns@[b1 + n + t].lane_kind == kinds[t as int]);
                lemma_push_lane_wf(conns@, lanes@, lane);
            }
            lanes.push(lane);
            rl.push(id);
            wire_lane(conns, e, x, id);
            proof {
                assert(lanes@ =~= lanes_pre.push(lane));
                lemma_wire_wf(conns_pre, conns@, lanes@, e, x, id);
                let eo = conns@[e as int].out_lane@;
                assert(eo[eo.len() - 1] == id);
                assert(conns@[e as int].out_lane@.contains(id));
                let xi = conns@[x as int].in_lane@;
                assert(xi[xi.len() - 1] == id);
                assert(conns@[x as int].in_lane@.contains(id));
                assert forall|u: int| 0 <= u < t implies (#[trigger] conns@[b0 + u]).out_lane@
                    .contains((lmid + u) as usize) && conns@[b1 + n + u].in_lane@.contains(
                    (lmid + u) as usize,
                ) by {
                    assert(conns@[b0 + u] == conns_pre[b0 + u]);
                    assert(conns@[b1 + n + u] == conns_pre[b1 + n + u]);
                }
            }
            off = off + kw / 2;
            t = t + 1;
        }
        let mut off2: u64 = 0;
        let mut t2: usize = 0;
        while t2 < n
            invariant
                t2 <= n,
                n == kinds.len(),
                kinds == road_profile.right_lane_kinds@,
                kinds.len() <= 1000,
                b0 >= 0,
                b1 == b0 + 2 * n,
                conns@.len() == b0 + 4 * n,
                c0s@.len() == 2 * n,
                c1s@.len() == 2 * n,
                forall|u: int| 0 <= u < 2 * n ==> c0s@[u] == b0 + u,
                forall|u: int| 0 <= u < 2 * n ==> c1s@[u] == b1 + u,
                central.wf(),
                central.n0.bounded(crate::MAX_SPAN - crate::MAX_LATERAL as int),
                central.n1.bounded(crate::MAX_SPAN - crate::MAX_LATERAL as int),
                central.c.bounded(crate::MAX_SPAN - crate::MAX_LATERAL as int),
                graph_wf(conns@, lanes@),
                i0.ok(conns@.len() as int, lanes@.len() as int),
                i2.ok(conns@.len() as int, lanes@.len() as int),
                i0.center == old(i0).center,
                i2.center == old(i2).center,
                forall|u: int|
                    0 <= u < n ==> {
                        &&& (#[trigger] conns@[b0 + u]).kind == ConnectionKind::Out
                        &&& conns@[b0 + u].lane_kind == kinds[u]
                        &&& conns@[b1 + n + u].kind == ConnectionKind::In
                        &&& conns@[b1 + n + u].lane_kind == kinds[u]
                        &&& conns@[b1 + u].kind == ConnectionKind::Out
                        &&& conns@[b1 + u].lane_kind == kinds[u]
                        &&& conns@[b0 + n + u].kind == ConnectionKind::In
                        &&& conns@[b0 + n + u].lane_kind == kinds[u]
                    },
                off2 == kinds_width(kinds.take(t2 as int)),
                off2 <= 4_000_000,
                lmid >= 0,
                old(lanes)@.len() <= lmid,
                lanes@.len() == lmid + n + t2,
                forall|u: int| 0 <= u < old(lanes)@.len() ==> lanes@[u] == old(lanes)@[u],
                rl@.len() == n + t2,
                forall|u: int| 0 <= u < n + t2 ==> rl@[u] == lmid + u,
                forall|u: int|
                    0 <= u < n ==> through_lane_matches(
                        #[trigger] lanes@[lmid + u],
                        central,
                        kinds,
                        u,
                        (b0 + u) as usize,
                        (b1 + n + u) as usize,
                    ),
                forall|u: int|
                    0 <= u < t2 ==> through_lane_matches(
                        #[trigger] lanes@[lmid + n + u],
                        reversed_of(central),
                        kinds,
                        u,
                        (b1 + u) as usize,
                        (b0 + n + u) as usize,
                    ),
                forall|u: int|
                    0 <= u < n ==> (#[trigger] conns@[b0 + u]).out_lane@.contains(
                        (lmid + u) as usize,
                    ) && conns@[b1 + n + u].in_lane@.contains((lmid + u) as usize),
                forall|u: int|
                    0 <= u < t2 ==> (#[trigger] conns@[b1 + u]).out_lane@.contains(
                        (lmid + n + u) as usize,
                    ) && conns@[b0 + n + u].in_lane@.contains((lmid + n + u) as usize),
            decreases n - t2,
        {
            let k: LaneKind = road_profile.right_lane_kinds[t2];
            let kw: u64 = k.width();
            proof {
                crate::road_profile::lemma_kinds_width_bounds(kinds.take(t2 as int));
                crate::road_profile::lemma_kinds_width_bounds(kinds.take(t2 + 1));
                assert(kinds.take(t2 + 1).drop_last() =~= kinds.take(t2 as int));
                assert(kinds.take(t2 + 1).last() == kinds[t2 as int]);
            }
            off2 = off2 + kw / 2;
            let rev: Curve = central.reverse();
            let lc: Curve = rev.offset(off2 as i64);
            let e: usize = c1s[t2];
            let x: usize = c0s[n + t2];
            let lane: Lane = Lane::new(e, x, lc, kw, k);
            let id: usize = lanes.len();
            let ghost lanes_pre = lanes@;
            let ghost conns_pre = conns@;
            proof {
                assert(conns@[b0 + t2].kind == ConnectionKind::Out);
                assert(conns@[b1 + t2].kind == ConnectionKind::Out);
                assert(conns@[b1 + t2].lane_kind == kinds[t2 as int]);
                assert(conns@[b0 + n + t2].kind == ConnectionKind::In);
                assert(conns@[b0 + n + t2].lane_kind == kinds[t2 as int]);
                lemma_push_lane_wf(conns@, lanes@, lane);
            }
            lanes.push(lane);
            rl.push(id);
            wire_lane(conns, e, x, id);
            proof {
                assert(lanes@ =~= lanes_pre.push(lane));
                lemma_wire_wf(conns_pre, conns@, lanes@, e, x, id);
                let eo = conns@[e as int].out_lane@;
                assert(eo[eo.len() - 1] == id);
                assert(conns@[e as int].out_lane@.contains(id));
                let xi = conns@[x as int].in_lane@;
                assert(xi[xi.len() - 1] == id);
                assert(conns@[x as int].in_lane@.contains(id));
                assert forall|u: int| 0 <= u < n implies (#[trigger] conns@[b0 + u]).out_lane@
                    .contains((lmid + u) as usize) && conns@[b1 + n + u].in_lane@.contains(
                    (lmid + u) as usize,
                ) by {
                    assert(conns@[b0 + u] == conns_pre[b0 + u]);
                    assert(conns@[b1 + n + u] == conns_pre[b1 + n + u]);
                }
                assert forall|u: int| 0 <= u < t2 implies (#[trigger] conns@[b1 + u]).out_lane@
                    .contains((lmid + n + u) as usize) && conns@[b0 + n + u].in_lane@.contains(
                    (lmid + n + u) as usize,
                ) by {
                    assert(conns@[b1 + u] == conns_pre[b1 + u]);
                    assert(conns@[b0 + n + u] == conns_pre[b0 + n + u]);
                }
            }
            off2 = off2 + kw / 2;
            t2 = t2 + 1;
        }
        Road { i0: id0, i1: id1, i2: id2, curve: central, width, lanes: rl }
    }
}

} // verus!
