//! Agents: point-like travellers that advance along the lane graph.
//!
//! An agent's authoritative state is the lane it is on and the distance
//! travelled along it, in milliunits. Each tick advances it a fixed
//! step, crossing lane boundaries by a uniformly random choice among
//! the exit connection's outgoing lanes; the leftover travel distance
//! carries over into the next lane. A dead end (no outgoing lane) is a
//! recoverable condition: the agent stalls at the boundary instead of
//! failing.

use vstd::prelude::*;
use rand::distributions::Distribution;
use crate::connection::Connection;
use crate::lane::Lane;
use crate::curve::curve_length;
use crate::intersection::graph_wf;

verus! {

/// How far an agent travels in one tick, in milliunits.
pub const STEP: u64 = 2000;

/// How many lane boundaries one tick may cross before the agent
/// pauses; a guard against walking a cycle of degenerate, zero-length
/// lanes forever.
pub const MAX_HOPS: u64 = 64;

/// What one tick did.
#[derive(Clone, Copy, PartialEq, Eq, Structural, Debug)]
pub enum UpdateOutcome {
    /// The full step was travelled.
    Advanced,
    /// The agent reached an exit with no outgoing lane and stalled at
    /// the boundary.
    DeadEnd,
    /// The agent crossed [`MAX_HOPS`] boundaries in one tick and
    /// paused at the last one.
    HopLimit,
}

/// The traversal relation of one tick, exactly as spec'd by the
/// advance loop: from lane `l0` at distance `d0` with `step` milliunits
/// to travel and `hops` boundary crossings still allowed, the tick may
/// end as outcome `r` on lane `l1` at distance `d1`. When the step fits
/// the lane, the result is fully determined; at a boundary the
/// successor is one of the exit connection's outgoing lanes (the random
/// draw picks which), entered at distance zero with the leftover step;
/// an empty outgoing list is a dead end and stalls the agent at the
/// boundary, and an exhausted crossing budget pauses it there likewise.
pub open spec fn advances(
    conns: Seq<Connection>,
    lanes: Seq<Lane>,
    l0: int,
    d0: int,
    step: int,
    hops: int,
    r: UpdateOutcome,
    l1: int,
    d1: int,
) -> bool
    decreases hops,
{
    let len0 = curve_length(lanes[l0].curve);
    if d0 + step <= len0 {
        &&& r == UpdateOutcome::Advanced
        &&& l1 == l0
        &&& d1 == d0 + step
    } else {
        let outs = conns[lanes[l0].c1 as int].out_lane@;
        if outs.len() == 0 {
            &&& r == UpdateOutcome::DeadEnd
            &&& l1 == l0
            &&& d1 == len0
        } else if hops <= 0 {
            &&& r == UpdateOutcome::HopLimit
            &&& l1 == l0
            &&& d1 == len0
        } else {
            exists|k: int|
                0 <= k < outs.len() && advances(
                    conns,
                    lanes,
                    outs[k] as int,
                    0,
                    step - (len0 - d0),
                    hops - 1,
                    r,
                    l1,
                    d1,
                )
        }
    }
}

/// One tick's effect on an agent, the outcome abstracted away: some
/// outcome relates the two states through [`advances`], over a full
/// [`STEP`] and a fresh crossing budget.
pub open spec fn agent_steps(
    conns: Seq<Connection>,
    lanes: Seq<Lane>,
    before: Agent,
    after: Agent,
) -> bool {
    exists|r: UpdateOutcome|
        advances(
            conns,
            lanes,
            before.l as int,
            before.distance as int,
            STEP as int,
            MAX_HOPS as int,
            r,
            after.l as int,
            after.distance as int,
        )
}

/// Relies on rand's `thread_rng` and `Uniform` distribution: a
/// uniformly random index below `n`. Nothing is assumed beyond the
/// range; every outcome is handled.
#[verifier::external_body]
fn pick_index(n: usize) -> (r: usize)
    requires
        n > 0,
    ensures
        r < n,
{
    let mut rng = rand::thread_rng();
    rand::distributions::Uniform::from(0..n).sample(&mut rng)
}

/// A point-like traveller: its current lane (an index into the map's
/// lane arena) and the distance covered along it.
pub struct Agent {
    pub l: usize,
    pub distance: u64,
}

impl Agent {
    /// The agent stands on a real lane, within its length.
    pub open spec fn ok(self, lanes: Seq<Lane>) -> bool {
        &&& self.l < lanes.len()
        &&& self.distance <= curve_length(lanes[self.l as int].curve)
    }

    pub fn new(l: usize, distance: u64) -> (r: Agent)
        ensures
            r.l == l,
            r.distance == distance,
    {
        Agent { l, distance }
    }

    /// Where the agent stands, as a point, when its lane is straight;
    /// sampling an arc takes the trigonometric projection the painting
    /// layer does itself, so an agent on an arc gets no point here.
    pub fn position(&self, lanes: &Vec<Lane>) -> (r: Option<crate::node::Node>)
        requires
            self.ok(lanes@),
            lanes@[self.l as int].curve.wf(),
        ensures
            r.is_some() == !lanes@[self.l as int].curve.is_curved,
            !lanes@[self.l as int].curve.is_curved ==> {
                let p = crate::curve::lerp_at(lanes@[self.l as int].curve, self.distance as int);
                r.unwrap().x == p.0 && r.unwrap().y == p.1
            },
    {
        let lane = &lanes[self.l];
        if lane.curve.is_curved {
            None
        } else {
            Some(lane.position_at(self.distance))
        }
    }

    /// Advance the agent one tick of [`STEP`] milliunits.
    pub fn update(&mut self, conns: &Vec<Connection>, lanes: &Vec<Lane>) -> (r: UpdateOutcome)
        requires
            graph_wf(conns@, lanes@),
            old(self).ok(lanes@),
        ensures
            final(self).ok(lanes@),
            lanes@[final(self).l as int].kind == lanes@[old(self).l as int].kind,
            final(self).distance <= old(self).distance + STEP,
            advances(
                conns@,
                lanes@,
                old(self).l as int,
                old(self).distance as int,
                STEP as int,
                MAX_HOPS as int,
                r,
                final(self).l as int,
                final(self).distance as int,
            ),
            old(self).distance + STEP <= curve_length(lanes@[old(self).l as int].curve) ==> {
                &&& r == UpdateOutcome::Advanced
                &&& final(self).l == old(self).l
                &&& final(self).distance == old(self).distance + STEP
            },
            r == UpdateOutcome::DeadEnd ==> {
                &&& final(self).distance == curve_length(lanes@[final(self).l as int].curve)
                &&& conns@[lanes@[final(self).l as int].c1 as int].out_lane@.len() == 0
            },
    {
        self.advance(STEP, conns, lanes)
    }

    /// Advance the agent `step` milliunits. While the step outruns the
    /// current lane, the agent crosses into a uniformly random
    /// outgoing lane of the exit connection, keeping the leftover
    /// travel distance. When there is no way on, it stalls at the
    /// boundary. The result always stands in the [`advances`] relation
    /// with the starting state, over a fresh [`MAX_HOPS`] crossing
    /// budget; the budget binds only when one step would cross more
    /// than [`MAX_HOPS`] boundaries — a chain of lanes each shorter
    /// than the step's [`MAX_HOPS`]th part, as degenerate fitting
    /// inputs can produce.
    pub fn advance(&mut self, step: u64, conns: &Vec<Connection>, lanes: &Vec<Lane>) -> (r:
        UpdateOutcome)
        requires
            graph_wf(conns@, lanes@),
            old(self).ok(lanes@),
        ensures
            final(self).ok(lanes@),
            lanes@[final(self).l as int].kind == lanes@[old(self).l as int].kind,
            final(self).distance <= old(self).distance + step,
            advances(
                conns@,
                lanes@,
                old(self).l as int,
                old(self).distance as int,
                step as int,
                MAX_HOPS as int,
                r,
                final(self).l as int,
                final(self).distance as int,
            ),
            old(self).distance + step <= curve_length(lanes@[old(self).l as int].curve) ==> {
                &&& r == UpdateOutcome::Advanced
                &&& final(self).l == old(self).l
                &&& final(self).distance == old(self).distance + step
            },
            r == UpdateOutcome::DeadEnd ==> {
                &&& final(self).distance == curve_length(lanes@[final(self).l as int].curve)
                &&& conns@[lanes@[final(self).l as int].c1 as int].out_lane@.len() == 0
            },
    {
        let mut remaining: u64 = step;
        let mut hops: u64 = MAX_HOPS;
        loop
            invariant
                graph_wf(conns@, lanes@),
                self.l < lanes@.len(),
                self.distance <= curve_length(lanes@[self.l as int].curve),
                lanes@[self.l as int].kind == lanes@[old(self).l as int].kind,
                remaining <= step,
                self.distance + remaining <= old(self).distance + step,
                (self.l == old(self).l && self.distance == old(self).distance && remaining
                    == step) || old(self).distance + step > curve_length(
                    lanes@[old(self).l as int].curve,
                ),
                // whatever the tick may still do from here, it could do
                // from where it began
                forall|r: UpdateOutcome, l1: int, d1: int|
                    #[trigger] advances(
                        conns@,
                        lanes@,
                        self.l as int,
                        self.distance as int,
                        remaining as int,
                        hops as int,
                        r,
                        l1,
                        d1,
                    ) ==> advances(
                        conns@,
                        lanes@,
                        old(self).l as int,
                        old(self).distance as int,
                        step as int,
                        MAX_HOPS as int,
                        r,
                        l1,
                        d1,
                    ),
            decreases hops,
        {
            let ghost l_in = self.l as int;
            let ghost d_in = self.distance as int;
            let ghost rem_in = remaining as int;
            let ghost hops_in = hops as int;
            proof {
                assert(lanes@[self.l as int].ok(conns@.len() as int));
            }
            let lane = &lanes[self.l];
            let len: u64 = lane.length();
            let room: u64 = len - self.distance;
            if room >= remaining {
                proof {
                    assert(advances(
                        conns@,
                        lanes@,
                        l_in,
                        d_in,
                        rem_in,
                        hops_in,
                        UpdateOutcome::Advanced,
                        l_in,
                        d_in + rem_in,
                    ));
                }
                self.distance = self.distance + remaining;
                return UpdateOutcome::Advanced;
            }
            remaining = remaining - room;
            let c1: usize = lane.c1;
            proof {
                assert(crate::intersection::conn_lists_ok(conns@, lanes@, c1 as int));
                assert(crate::intersection::lane_conns_ok(conns@, lanes@[self.l as int]));
            }
            let nout: usize = conns[c1].out_lane.len();
            if nout == 0 {
                proof {
                    assert(advances(
                        conns@,
                        lanes@,
                        l_in,
                        d_in,
                        rem_in,
                        hops_in,
                        UpdateOutcome::DeadEnd,
                        l_in,
                        len as int,
                    ));
                }
                self.distance = len;
                return UpdateOutcome::DeadEnd;
            }
            if hops == 0 {
                proof {
                    assert(advances(
                        conns@,
                        lanes@,
                        l_in,
                        d_in,
                        rem_in,
                        hops_in,
                        UpdateOutcome::HopLimit,
                        l_in,
                        len as int,
                    ));
                }
                self.distance = len;
                return UpdateOutcome::HopLimit;
            }
            hops = hops - 1;
            let pick: usize = pick_index(nout);
            let nl: usize = conns[c1].out_lane[pick];
            proof {
                assert(conns@[c1 as int].out_lane@[pick as int] == nl);
                assert(nl < lanes@.len() && lanes@[nl as int].c0 == c1 && lanes@[nl as int].kind
                    == conns@[c1 as int].lane_kind);
                // a tick that goes on from the picked successor is one
                // of the crossings allowed from the lane just left
                assert forall|r: UpdateOutcome, l1: int, d1: int|
                    #[trigger] advances(
                        conns@,
                        lanes@,
                        nl as int,
                        0,
                        remaining as int,
                        hops as int,
                        r,
                        l1,
                        d1,
                    ) implies advances(
                    conns@,
                    lanes@,
                    l_in,
                    d_in,
                    rem_in,
                    hops_in,
                    r,
                    l1,
                    d1,
                ) by {
                    let outs = conns@[lanes@[l_in].c1 as int].out_lane@;
                    assert(outs[pick as int] == nl);
                    assert(exists|k: int|
                        0 <= k < outs.len() && advances(
                            conns@,
                            lanes@,
                            outs[k] as int,
                            0,
                            rem_in - (curve_length(lanes@[l_in].curve) - d_in),
                            hops_in - 1,
                            r,
                            l1,
                            d1,
                        ));
                }
            }
            self.l = nl;
            self.distance = 0;
        }
    }
}

} // verus!
