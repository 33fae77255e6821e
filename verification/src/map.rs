//! The map: the single owner of every intersection, road, agent,
//! connection and lane. All cross-references between those parts are
//! indices into the arenas held here, so readers and the simulation
//! tick work against one structure, and a lane once created is never
//! destroyed while the map lives.

use vstd::prelude::*;
use crate::agent::{Agent, UpdateOutcome, advances, agent_steps, STEP, MAX_HOPS};
use crate::connection::Connection;
use crate::intersection::{Intersection, graph_wf};
use crate::lane::Lane;
use crate::road::Road;

verus! {

/// The world: arenas for every part of the network.
pub struct RoadMap {
    pub intersections: Vec<Intersection>,
    pub roads: Vec<Road>,
    pub agents: Vec<Agent>,
    pub connections: Vec<Connection>,
    pub lanes: Vec<Lane>,
}

impl RoadMap {
    /// The lane graph is sound, every intersection's references land
    /// in the arenas, and every agent stands on a real lane within its
    /// length.
    pub open spec fn wf(self) -> bool {
        &&& graph_wf(self.connections@, self.lanes@)
        &&& forall|i: int|
            0 <= i < self.intersections@.len() ==> (#[trigger] self.intersections@[i]).ok(
                self.connections@.len() as int,
                self.lanes@.len() as int,
            )
        &&& forall|i: int|
            0 <= i < self.agents@.len() ==> (#[trigger] self.agents@[i]).ok(self.lanes@)
    }

    pub fn new() -> (r: RoadMap)
        ensures
            r.intersections@.len() == 0,
            r.roads@.len() == 0,
            r.agents@.len() == 0,
            r.connections@.len() == 0,
            r.lanes@.len() == 0,
            r.wf(),
    {
        RoadMap {
            intersections: Vec::new(),
            roads: Vec::new(),
            agents: Vec::new(),
            connections: Vec::new(),
            lanes: Vec::new(),
        }
    }

    /// One simulation tick: advance every agent one [`STEP`] across the
    /// lane graph — each agent's new state stands in the advance
    /// relation with its old one. The graph itself is only read.
    pub fn tick(&mut self)
        requires
            old(self).wf(),
        ensures
            final(self).wf(),
            final(self).intersections@ == old(self).intersections@,
            final(self).connections@ == old(self).connections@,
            final(self).lanes@ == old(self).lanes@,
            final(self).agents@.len() == old(self).agents@.len(),
            forall|j: int|
                0 <= j < old(self).agents@.len() ==> agent_steps(
                    old(self).connections@,
                    old(self).lanes@,
                    old(self).agents@[j],
                    #[trigger] final(self).agents@[j],
                ),
            forall|j: int|
                0 <= j < old(self).agents@.len()
                    ==> old(self).lanes@[(#[trigger] final(self).agents@[j]).l as int].kind
                    == old(self).lanes@[old(self).agents@[j].l as int].kind,
    {
        let mut i: usize = 0;
        while i < self.agents.len()
            invariant
                self.wf(),
                i <= self.agents@.len(),
                self.agents@.len() == old(self).agents@.len(),
                self.intersections@ == old(self).intersections@,
                self.connections@ == old(self).connections@,
                self.lanes@ == old(self).lanes@,
                self.roads@ == old(self).roads@,
                forall|j: int|
                    i <= j < old(self).agents@.len() ==> (#[trigger] self.agents@[j]) == old(
                        self,
                    ).agents@[j],
                forall|j: int|
                    0 <= j < i ==> agent_steps(
                        old(self).connections@,
                        old(self).lanes@,
                        old(self).agents@[j],
                        #[trigger] self.agents@[j],
                    ),
                forall|j: int|
                    0 <= j < i ==> self.lanes@[(#[trigger] self.agents@[j]).l as int].kind
                        == self.lanes@[old(self).agents@[j].l as int].kind,
            decreases self.agents@.len() - i,
        {
            let mut a: Agent = Agent::new(self.agents[i].l, self.agents[i].distance);
            proof {
                assert(a.ok(self.lanes@));
                assert(a == old(self).agents@[i as int]);
            }
            let ghost pre = self.agents@;
            let outcome: UpdateOutcome = a.update(&self.connections, &self.lanes);
            proof {
                assert(self.connections@ == old(self).connections@);
                assert(self.lanes@ == old(self).lanes@);
                assert(advances(
                    old(self).connections@,
                    old(self).lanes@,
                    old(self).agents@[i as int].l as int,
                    old(self).agents@[i as int].distance as int,
                    STEP as int,
                    MAX_HOPS as int,
                    outcome,
                    a.l as int,
                    a.distance as int,
                ));
            }
            self.agents.set(i, a);
            proof {
                assert(self.agents@[i as int] == a);
                assert forall|j: int| 0 <= j < i + 1 implies agent_steps(
                    old(self).connections@,
                    old(self).lanes@,
                    old(self).agents@[j],
                    #[trigger] self.agents@[j],
                ) by {
                    if j == i {
                        assert(advances(
                            old(self).connections@,
                            old(self).lanes@,
                            old(self).agents@[j].l as int,
                            old(self).agents@[j].distance as int,
                            STEP as int,
                            MAX_HOPS as int,
                            outcome,
                            a.l as int,
                            a.distance as int,
                        ));
                        assert(agent_steps(
                            old(self).connections@,
                            old(self).lanes@,
                            old(self).agents@[j],
                            a,
                        ));
                    } else {
                        assert(self.agents@[j] == pre[j]);
                        assert(agent_steps(
                            old(self).connections@,
                            old(self).lanes@,
                            old(self).agents@[j],
                            pre[j],
                        ));
                    }
                }
            }
            i = i + 1;
        }
    }
}

} // verus!
