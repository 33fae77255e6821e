//! The lane graph: intersections, roads, and agents crossing them.

use roads::agent::{Agent, UpdateOutcome};
use roads::connection::{Connection, ConnectionKind};
use roads::curve::Curve;
use roads::intersection::Intersection;
use roads::lane::{Lane, LaneKind};
use roads::map::RoadMap;
use roads::node::{Heading, Node};
use roads::road::Road;
use roads::road_profile::RoadProfile;

fn east() -> Heading {
    Heading::new(1000, 0)
}

fn west() -> Heading {
    Heading::new(-1000, 0)
}

/// A straight lane from `(x0, 0)` to `(x1, 0)` between connections
/// `c0` and `c1`.
fn straight_lane(c0: usize, c1: usize, x0: i64, x1: i64) -> Lane {
    let curve = Curve::new(Node::new(x0, 0), Node::new(x1, 0), east(), west());
    Lane::new(c0, c1, curve, 4000, LaneKind::Car)
}

fn car_profile() -> RoadProfile {
    let mut p = RoadProfile::new();
    p.right_lane_kinds.push(LaneKind::Car);
    p.left_lane_kinds.push(LaneKind::Car);
    p
}

#[test]
fn test_lane_length() {
    let l = straight_lane(0, 1, 0, 10_000);
    assert_eq!(l.length(), 10_000);
    assert_eq!(l.position_at(1000), Node::new(1000, 0));
}

#[test]
fn test_road_profile_width() {
    let mut p = RoadProfile::new();
    assert_eq!(p.width(), 0);
    p.right_lane_kinds.push(LaneKind::Car);
    p.right_lane_kinds.push(LaneKind::Bike);
    p.right_lane_kinds.push(LaneKind::Pedestrian);
    p.left_lane_kinds.push(LaneKind::Car);
    p.left_lane_kinds.push(LaneKind::Bike);
    p.left_lane_kinds.push(LaneKind::Pedestrian);
    assert_eq!(p.width(), 16_000);
}

#[test]
fn test_get_connections() {
    // One car lane each way: a full road width of eight units.
    let mut map = RoadMap::new();
    let mut i = Intersection::new(0, 0);
    let p = car_profile();
    let cs = i.get_connections(east(), &p, &mut map.connections, &mut map.lanes);
    assert_eq!(cs, vec![0, 1]);
    // Right side: an exit connection two units off the anchor.
    assert_eq!(map.connections[0].kind, ConnectionKind::Out);
    assert_eq!(map.connections[0].lane_kind, LaneKind::Car);
    assert_eq!(map.connections[0].center, Node::new(8000, 2000));
    // Left side: an entry connection on the other side.
    assert_eq!(map.connections[1].kind, ConnectionKind::In);
    assert_eq!(map.connections[1].center, Node::new(8000, -2000));
    // One entry and one exit of one category: one turn lane.
    assert_eq!(i.lanes.len(), 1);
    assert_eq!(map.lanes[i.lanes[0]].c0, 1);
    assert_eq!(map.lanes[i.lanes[0]].c1, 0);
}

#[test]
fn test_intersection_lane_cross_product() {
    // Two roads of one car lane each way: two entries and two exits,
    // so the rebuild holds two-times-two turn lanes, and the
    // connections' lane lists partition them exactly.
    let mut map = RoadMap::new();
    let mut i = Intersection::new(0, 0);
    let p = car_profile();
    i.get_connections(east(), &p, &mut map.connections, &mut map.lanes);
    i.get_connections(west(), &p, &mut map.connections, &mut map.lanes);
    assert_eq!(i.connections.len(), 4);
    assert_eq!(i.lanes.len(), 4);
    let mut out_total = 0;
    let mut in_total = 0;
    for &c in &i.connections {
        match map.connections[c].kind {
            ConnectionKind::In => {
                out_total += map.connections[c].out_lane.len();
                assert_eq!(map.connections[c].in_lane.len(), 0);
            }
            ConnectionKind::Out => {
                in_total += map.connections[c].in_lane.len();
                assert_eq!(map.connections[c].out_lane.len(), 0);
            }
        }
    }
    assert_eq!(out_total, i.lanes.len());
    assert_eq!(in_total, i.lanes.len());
    for &l in &i.lanes {
        assert_eq!(map.connections[map.lanes[l].c0].kind, ConnectionKind::In);
        assert_eq!(map.connections[map.lanes[l].c1].kind, ConnectionKind::Out);
        assert_eq!(map.lanes[l].kind, LaneKind::Car);
    }
}

#[test]
fn test_road_connect() {
    // A road between two intersections a hundred units apart lays one
    // through lane per direction, joined to the matching connections.
    let mut map = RoadMap::new();
    let mut i0 = Intersection::new(0, 0);
    let mut i1 = Intersection::new(50_000, 0);
    let mut i2 = Intersection::new(100_000, 0);
    let p = car_profile();
    let road = Road::new(
        &mut i0,
        &mut i2,
        0,
        1,
        2,
        &p,
        &mut map.connections,
        &mut map.lanes,
    );
    assert_eq!(road.i0, 0);
    assert_eq!(road.i1, 1);
    assert_eq!(road.i2, 2);
    assert_eq!(road.width, 8000);
    assert!(!road.curve.is_curved);
    assert_eq!(road.lanes.len(), 2);
    // Near-to-far: from the near exit straight onto the far entry.
    let fwd = &map.lanes[road.lanes[0]];
    assert_eq!(fwd.c0, 0);
    assert_eq!(fwd.c1, 3);
    assert_eq!(map.connections[fwd.c0].kind, ConnectionKind::Out);
    assert_eq!(map.connections[fwd.c1].kind, ConnectionKind::In);
    // The through lane runs connection to connection.
    assert_eq!(fwd.curve.n0, map.connections[0].center);
    assert_eq!(fwd.curve.n1, map.connections[3].center);
    assert_eq!(fwd.length(), 84_000);
    // Far-to-near mirrors it.
    let back = &map.lanes[road.lanes[1]];
    assert_eq!(back.c0, 2);
    assert_eq!(back.c1, 1);
    assert_eq!(back.curve.n0, map.connections[2].center);
    assert_eq!(back.curve.n1, map.connections[1].center);
    i0.roads.push(0);
    i1.roads.push(0);
    i2.roads.push(0);
    map.intersections.push(i0);
    map.intersections.push(i1);
    map.intersections.push(i2);
    map.roads.push(road);
}

#[test]
fn test_agent_advances_within_lane() {
    let mut map = RoadMap::new();
    map.connections.push(Connection::new(
        Node::new(0, 0),
        ConnectionKind::In,
        LaneKind::Car,
        east(),
        0,
    ));
    map.connections.push(Connection::new(
        Node::new(10_000, 0),
        ConnectionKind::Out,
        LaneKind::Car,
        east(),
        0,
    ));
    map.lanes.push(straight_lane(0, 1, 0, 10_000));
    map.connections[0].out_lane.push(0);
    map.connections[1].in_lane.push(0);
    let mut a = Agent::new(0, 500);
    let outcome = a.update(&map.connections, &map.lanes);
    assert_eq!(outcome, UpdateOutcome::Advanced);
    assert_eq!(a.l, 0);
    assert_eq!(a.distance, 2500);
}

#[test]
fn test_agent_crosses_boundary() {
    // A lane of ten units with one hundred-unit lane downstream; the
    // agent starts at nine and steps two: it crosses, ending one unit
    // into the new lane.
    let mut map = RoadMap::new();
    for (x, kind) in [
        (0, ConnectionKind::In),
        (10_000, ConnectionKind::Out),
        (110_000, ConnectionKind::In),
    ] {
        map.connections.push(Connection::new(
            Node::new(x, 0),
            kind,
            LaneKind::Car,
            east(),
            0,
        ));
    }
    map.lanes.push(straight_lane(0, 1, 0, 10_000));
    map.lanes.push(straight_lane(1, 2, 10_000, 110_000));
    map.connections[0].out_lane.push(0);
    map.connections[1].in_lane.push(0);
    map.connections[1].out_lane.push(1);
    map.connections[2].in_lane.push(1);
    let mut a = Agent::new(0, 9000);
    let outcome = a.update(&map.connections, &map.lanes);
    assert_eq!(outcome, UpdateOutcome::Advanced);
    assert_eq!(a.l, 1);
    assert_eq!(a.distance, 1000);
    assert_eq!(
        map.lanes[a.l].position_at(a.distance),
        Node::new(11_000, 0)
    );
    assert_eq!(a.position(&map.lanes), Some(Node::new(11_000, 0)));
}

#[test]
fn test_agent_crosses_two_boundaries() {
    // Lanes of one, one and a hundred units, a single way on at each
    // boundary; a step of three units lands one unit into the third.
    let mut map = RoadMap::new();
    for (x, kind) in [
        (0, ConnectionKind::In),
        (1000, ConnectionKind::Out),
        (2000, ConnectionKind::In),
        (102_000, ConnectionKind::Out),
    ] {
        map.connections.push(Connection::new(
            Node::new(x, 0),
            kind,
            LaneKind::Car,
            east(),
            0,
        ));
    }
    map.lanes.push(straight_lane(0, 1, 0, 1000));
    map.lanes.push(straight_lane(1, 2, 1000, 2000));
    map.lanes.push(straight_lane(2, 3, 2000, 102_000));
    map.connections[0].out_lane.push(0);
    map.connections[1].in_lane.push(0);
    map.connections[1].out_lane.push(1);
    map.connections[2].in_lane.push(1);
    map.connections[2].out_lane.push(2);
    map.connections[3].in_lane.push(2);
    // A step of three units from the start of the first lane crosses
    // both boundaries and ends one unit into the third lane.
    let mut a = Agent::new(0, 0);
    let outcome = a.advance(3000, &map.connections, &map.lanes);
    assert_eq!(outcome, UpdateOutcome::Advanced);
    assert_eq!(a.l, 2);
    assert_eq!(a.distance, 1000);
}

#[test]
fn test_agent_dead_end() {
    // No way on: the agent stalls at the boundary instead of failing.
    let mut map = RoadMap::new();
    map.connections.push(Connection::new(
        Node::new(0, 0),
        ConnectionKind::In,
        LaneKind::Car,
        east(),
        0,
    ));
    map.connections.push(Connection::new(
        Node::new(10_000, 0),
        ConnectionKind::Out,
        LaneKind::Car,
        east(),
        0,
    ));
    map.lanes.push(straight_lane(0, 1, 0, 10_000));
    map.connections[0].out_lane.push(0);
    let mut a = Agent::new(0, 9000);
    let outcome = a.update(&map.connections, &map.lanes);
    assert_eq!(outcome, UpdateOutcome::DeadEnd);
    assert_eq!(a.l, 0);
    assert_eq!(a.distance, 10_000);
}

#[test]
fn test_agent_hop_limit() {
    // A hundred chained lanes of a hundredth of a unit each: one step
    // of two units would cross more boundaries than the crossing
    // budget allows, so the agent pauses at a boundary instead of
    // walking on.
    let mut map = RoadMap::new();
    for j in 0..101 {
        let kind = if j % 2 == 0 {
            ConnectionKind::In
        } else {
            ConnectionKind::Out
        };
        map.connections.push(Connection::new(
            Node::new(j * 10, 0),
            kind,
            LaneKind::Car,
            east(),
            0,
        ));
    }
    for j in 0..100usize {
        let x0 = (j as i64) * 10;
        map.lanes.push(straight_lane(j, j + 1, x0, x0 + 10));
        map.connections[j].out_lane.push(j);
        map.connections[j + 1].in_lane.push(j);
    }
    let mut a = Agent::new(0, 0);
    let outcome = a.update(&map.connections, &map.lanes);
    assert_eq!(outcome, UpdateOutcome::HopLimit);
    // It stands at the end of the lane it paused on, 64 boundaries in.
    assert_eq!(a.l, 64);
    assert_eq!(a.distance, 10);
}

#[test]
fn test_agent_roams_network() {
    // Two roads sharing a middle intersection. Every arriving
    // connection has at least one turn lane out and every exit a
    // through lane, so the agent can roam forever: each tick must
    // advance fully, keep it on a real car lane within that lane's
    // length, whichever branch the random choice takes.
    let mut map = RoadMap::new();
    let mut i0 = Intersection::new(0, 0);
    let mut im = Intersection::new(100_000, 0);
    let mut i2 = Intersection::new(100_000, 100_000);
    let p = car_profile();
    let road_a = Road::new(
        &mut i0,
        &mut im,
        0,
        1,
        2,
        &p,
        &mut map.connections,
        &mut map.lanes,
    );
    let road_b = Road::new(
        &mut im,
        &mut i2,
        2,
        3,
        4,
        &p,
        &mut map.connections,
        &mut map.lanes,
    );
    let start = road_a.lanes[0];
    map.intersections.push(i0);
    map.intersections.push(im);
    map.intersections.push(i2);
    map.roads.push(road_a);
    map.roads.push(road_b);
    let mut a = Agent::new(start, 0);
    for _ in 0..200 {
        let outcome = a.update(&map.connections, &map.lanes);
        assert_eq!(outcome, UpdateOutcome::Advanced);
        assert!(a.l < map.lanes.len());
        let lane = &map.lanes[a.l];
        assert!(a.distance <= lane.length());
        assert_eq!(lane.kind, LaneKind::Car);
    }
}

#[test]
fn test_map_tick() {
    let mut map = RoadMap::new();
    map.connections.push(Connection::new(
        Node::new(0, 0),
        ConnectionKind::In,
        LaneKind::Car,
        east(),
        0,
    ));
    map.connections.push(Connection::new(
        Node::new(40_000, 0),
        ConnectionKind::Out,
        LaneKind::Car,
        east(),
        0,
    ));
    map.lanes.push(straight_lane(0, 1, 0, 40_000));
    map.connections[0].out_lane.push(0);
    map.connections[1].in_lane.push(0);
    map.agents.push(Agent::new(0, 0));
    map.agents.push(Agent::new(0, 1000));
    map.tick();
    map.tick();
    assert_eq!(map.agents[0].distance, 4000);
    assert_eq!(map.agents[1].distance, 5000);
}
