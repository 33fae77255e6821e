//! Point, heading and curve geometry, in milliunits.

use roads::curve::Curve;
use roads::node::{Heading, Node};

fn east() -> Heading {
    Heading::new(1000, 0)
}

fn west() -> Heading {
    Heading::new(-1000, 0)
}

fn north() -> Heading {
    Heading::new(0, 1000)
}

fn make_line() -> Curve {
    let n0 = Node::new(10_000, 10_000);
    let n1 = Node::new(30_000, 10_000);
    Curve::new(n0, n1, east(), west())
}

fn make_curve() -> Curve {
    let n0 = Node::new(10_000, 10_000);
    let n1 = Node::new(30_000, 30_000);
    Curve::new(n0, n1, west(), north())
}

#[test]
fn test_angle() {
    let n0 = Node::new(10_000, 10_000);
    let n1 = Node::new(20_000, 10_000);
    let a = n0.angle(&n1);
    assert!(a.x == 1000 && a.y == 0);
}

#[test]
fn test_angle_2() {
    let n0 = Node::new(10_000, 10_000);
    let n1 = Node::new(0, 10_000);
    let a = n0.angle(&n1);
    assert!(a.x == -1000 && a.y == 0);
}

#[test]
fn test_offset_x() {
    let n0 = Node::new(10_000, 10_000);
    let n1 = n0.offset(east(), 10_000);
    assert!(n1.x == 20_000);
}

#[test]
fn test_offset_y() {
    let n0 = Node::new(10_000, 10_000);
    let n1 = n0.offset(north(), 10_000);
    assert!(n1.y == 20_000);
}

#[test]
fn test_distance() {
    let n0 = Node::new(0, 0);
    let n1 = Node::new(3000, 4000);
    assert_eq!(n0.distance(&n1), 5000);
}

#[test]
fn test_offset_distance_axis() {
    // Along an axis the offset is metrically exact, both ways.
    let n0 = Node::new(10_000, 10_000);
    assert_eq!(n0.offset(north(), 7000).distance(&n0), 7000);
    assert_eq!(n0.offset(west(), -7000).distance(&n0), 7000);
}

#[test]
fn test_reverse() {
    let c0 = make_line();
    let c1 = c0.reverse();
    assert_eq!(c1.n0.x, c0.n1.x);
    assert_eq!(c1.n0.y, c0.n1.y);
    assert_eq!(c1.n1.x, c0.n0.x);
    assert_eq!(c1.n1.y, c0.n0.y);
    assert_ne!(c0.is_reversed, c1.is_reversed);
}

#[test]
fn test_reverse_reverse() {
    let c0 = make_curve();
    let c2 = c0.reverse().reverse();
    assert_eq!(c2.n0, c0.n0);
    assert_eq!(c2.n1, c0.n1);
    assert_eq!(c2.c, c0.c);
    assert_eq!(c2.is_curved, c0.is_curved);
    assert_eq!(c2.is_reversed, c0.is_reversed);
}

#[test]
fn test_offset_line() {
    let c0 = make_line();
    let c1 = c0.offset(10_000);
    assert_eq!(c1.n0.x, 10_000);
    assert_eq!(c1.n0.y, 20_000);
    assert_eq!(c1.n1.x, 30_000);
    assert_eq!(c1.n1.y, 20_000);
    assert_eq!(c0.is_curved, c1.is_curved);
    assert_eq!(c0.is_reversed, c1.is_reversed);
}

#[test]
fn test_offset_line_translates() {
    // Both endpoints and the center move by one and the same step.
    let c0 = make_line();
    let c1 = c0.offset(-7000);
    let dx = c1.n0.x - c0.n0.x;
    let dy = c1.n0.y - c0.n0.y;
    assert_eq!((dx, dy), (0, -7000));
    assert_eq!(c1.n1.x - c0.n1.x, dx);
    assert_eq!(c1.n1.y - c0.n1.y, dy);
    assert_eq!(c1.c.x - c0.c.x, dx);
    assert_eq!(c1.c.y - c0.c.y, dy);
}

#[test]
fn test_offset_line_round_trip() {
    // Out by seven units and back again restores the segment exactly.
    let c0 = make_line();
    let c2 = c0.offset(7000).offset(-7000);
    assert_eq!(c2.n0, c0.n0);
    assert_eq!(c2.n1, c0.n1);
    assert_eq!(c2.c, c0.c);
    assert_eq!(c2.is_curved, c0.is_curved);
    assert_eq!(c2.is_reversed, c0.is_reversed);
}

#[test]
fn test_length_line() {
    let c0 = make_line();
    assert_eq!(c0.length(), 20_000);
}

#[test]
fn test_fit_parallel_is_straight() {
    // Opposite tangents give parallel radius lines: a straight
    // segment, its center parked at the midpoint.
    let c0 = make_line();
    assert!(!c0.is_curved);
    assert!(!c0.is_reversed);
    assert_eq!(c0.c, Node::new(20_000, 10_000));
    // Equal tangents are parallel too and fall back the same way.
    let c1 = Curve::new(Node::new(0, 0), Node::new(10_000, 0), east(), east());
    assert!(!c1.is_curved);
}

#[test]
fn test_make_curve() {
    let c0 = make_curve();
    assert_eq!(c0.c.x, 10_000);
    assert_eq!(c0.c.y, 30_000);
    assert!(c0.is_curved);
}

#[test]
fn test_length_curve() {
    let c0 = make_curve();
    let length = c0.length();
    assert!(!c0.is_reversed);
    assert_eq!((length + 5) / 10, 3142);
}

#[test]
fn test_length_curve_reverse() {
    let c0 = make_curve().reverse();
    let length = c0.length();
    assert_eq!(c0.c.x, 10_000);
    assert_eq!(c0.c.y, 30_000);
    assert!(c0.is_reversed);
    assert_eq!((length + 5) / 10, 3142);
}

#[test]
fn test_offset_arc() {
    // Offsetting an arc slides each endpoint along its radius line
    // toward the center; the center stays put.
    let c0 = make_curve();
    let c1 = c0.offset(1000);
    assert_eq!(c1.c, c0.c);
    assert!(c1.is_curved);
    assert_eq!(c1.n0, Node::new(10_000, 11_000));
    assert_eq!(c1.n1, Node::new(29_000, 30_000));
}

#[test]
fn test_position_at() {
    let c0 = make_line();
    let p0 = c0.position_at(0);
    assert_eq!(p0, Node::new(10_000, 10_000));
    let pm = c0.position_at(5000);
    assert_eq!(pm, Node::new(15_000, 10_000));
    let pe = c0.position_at(20_000);
    assert_eq!(pe, Node::new(30_000, 10_000));
}
