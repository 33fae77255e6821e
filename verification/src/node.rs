//! 2D points and headings in fixed-point milliunits.
//!
//! A `Node` is a point whose coordinates are integers counting
//! thousandths of a distance unit. A `Heading` is a direction of travel,
//! carried as a vector scaled so that a unit-length direction has
//! magnitude [`UNIT`]; right-angle turns are exact coordinate swaps, and
//! the heading between two points comes from an integer square root, so
//! no trigonometry is ever needed.

use vstd::prelude::*;
use crate::num::{is_sqrt, sqrt_floor, tdiv, isqrt, mul_wide, div_trunc, lemma_mul_abs};
use crate::UNIT;

verus! {

/// A direction of travel: a vector of magnitude about [`UNIT`].
/// Components are bounded by [`UNIT`] in absolute value; that bound is
/// all `wf` enforces. A heading computed by [`Node::angle`] scales the
/// displacement to magnitude [`UNIT`] with each component rounded
/// toward zero, so its true magnitude falls short of [`UNIT`] by less
/// than the rounding of its two components; along the axes it is
/// exact. Metric identities over headings — that an offset of `d`
/// moves a point `d` milliunits, that opposite offsets cancel — hold
/// exactly for axis-aligned unit headings and otherwise up to that
/// per-coordinate truncation.
#[derive(Clone, Copy, PartialEq, Eq, Structural, Debug)]
pub struct Heading {
    pub x: i64,
    pub y: i64,
}

impl Heading {
    /// Both components fit the heading scale.
    pub open spec fn wf(self) -> bool {
        -UNIT <= self.x <= UNIT && -UNIT <= self.y <= UNIT
    }

    pub fn new(x: i64, y: i64) -> (r: Heading)
        requires
            -UNIT <= x <= UNIT,
            -UNIT <= y <= UNIT,
        ensures
            r == (Heading { x, y }),
            r.wf(),
    {
        Heading { x, y }
    }

    /// The heading a quarter turn to this one, on the side a turn of
    /// increasing angle reaches first.
    pub fn quarter_left(self) -> (r: Heading)
        requires
            self.wf(),
        ensures
            r.x == -self.y && r.y == self.x,
            r.wf(),
    {
        Heading { x: -self.y, y: self.x }
    }

    /// The heading a quarter turn away on the other side.
    pub fn quarter_right(self) -> (r: Heading)
        requires
            self.wf(),
        ensures
            r.x == self.y && r.y == -self.x,
            r.wf(),
    {
        Heading { x: self.y, y: -self.x }
    }

    /// The reverse direction.
    pub fn opposite(self) -> (r: Heading)
        requires
            self.wf(),
        ensures
            r.x == -self.x && r.y == -self.y,
            r.wf(),
    {
        Heading { x: -self.x, y: -self.y }
    }
}

/// A point, in milliunits.
#[derive(Clone, Copy, PartialEq, Eq, Structural, Debug)]
pub struct Node {
    pub x: i64,
    pub y: i64,
}

/// Where a coordinate lands after moving from `x` along a heading
/// component `u` for `d` milliunits.
pub open spec fn off_coord(x: int, u: int, d: int) -> int {
    x + tdiv(u * d, UNIT as int)
}

/// The squared distance between two points, an exact integer.
pub open spec fn sq_dist(a: Node, b: Node) -> int {
    (b.x - a.x) * (b.x - a.x) + (b.y - a.y) * (b.y - a.y)
}

/// The heading from `a` toward `b`, as a component pair: the
/// displacement scaled to magnitude [`UNIT`], rounded toward zero.
/// Coincident points give the heading of increasing x.
pub open spec fn heading_to(a: Node, b: Node) -> (int, int) {
    let d = sqrt_floor(sq_dist(a, b) as nat) as int;
    if d == 0 {
        (UNIT as int, 0)
    } else {
        (tdiv((b.x - a.x) * UNIT, d), tdiv((b.y - a.y) * UNIT, d))
    }
}

impl Node {
    /// Both coordinates are small enough for every squared distance to
    /// stay within machine range.
    pub open spec fn bounded(self, b: int) -> bool {
        -b <= self.x <= b && -b <= self.y <= b
    }

    pub fn new(x: i64, y: i64) -> (r: Node)
        ensures
            r == (Node { x, y }),
    {
        Node { x, y }
    }

    /// The Euclidean distance to `node`, in milliunits, rounded down.
    pub fn distance(&self, node: &Node) -> (r: u64)
        requires
            self.bounded(0x4000_0000_0000_0000),
            node.bounded(0x4000_0000_0000_0000),
        ensures
            is_sqrt(sq_dist(*self, *node) as nat, r as nat),
            r == sqrt_floor(sq_dist(*self, *node) as nat),
    {
        let dx: i128 = (node.x as i128) - (self.x as i128);
        let dy: i128 = (node.y as i128) - (self.y as i128);
        proof {
            assert(0 <= dx * dx <= 0x4000_0000_0000_0000_0000_0000_0000_0000
                && 0 <= dy * dy <= 0x4000_0000_0000_0000_0000_0000_0000_0000) by (nonlinear_arith)
                requires
                    -0x8000_0000_0000_0000 <= dx as int <= 0x8000_0000_0000_0000,
                    -0x8000_0000_0000_0000 <= dy as int <= 0x8000_0000_0000_0000,
            ;
        }
        let sx: i128 = dx * dx;
        let sy: i128 = dy * dy;
        let sq: u128 = (sx as u128) + (sy as u128);
        let r: u128 = isqrt(sq);
        proof {
            assert(r as int * r as int <= sq as int && sq <= u128::MAX ==> r <= u64::MAX as int)
                by (nonlinear_arith);
        }
        r as u64
    }

    /// The heading from this point toward `node`: the displacement scaled
    /// to magnitude [`UNIT`] (rounded toward zero). Coincident points get
    /// the heading of increasing x, as a stated policy.
    pub fn angle(&self, node: &Node) -> (r: Heading)
        requires
            self.bounded(0x4000_0000_0000_0000),
            node.bounded(0x4000_0000_0000_0000),
        ensures
            r.wf(),
            r.x == heading_to(*self, *node).0,
            r.y == heading_to(*self, *node).1,
    {
        let d: u64 = self.distance(node);
        if d == 0 {
            Heading { x: UNIT, y: 0 }
        } else {
            let dx: i128 = (node.x as i128) - (self.x as i128);
            let dy: i128 = (node.y as i128) - (self.y as i128);
            proof {
                lemma_component_le_dist(dx as int, dy as int, d as nat);
                assert(-0x8000_0000_0000_0000 <= dx <= 0x8000_0000_0000_0000);
                assert(-0x8000_0000_0000_0000 <= dy <= 0x8000_0000_0000_0000);
                lemma_mul_abs(dx as int, UNIT as int, 0x8000_0000_0000_0000, 1000);
                lemma_mul_abs(dy as int, UNIT as int, 0x8000_0000_0000_0000, 1000);
            }
            let hx: i128 = div_trunc(dx * (UNIT as i128), d as i128);
            let hy: i128 = div_trunc(dy * (UNIT as i128), d as i128);
            proof {
                lemma_scaled_component_bounded(dx as int, d as nat);
                lemma_scaled_component_bounded(dy as int, d as nat);
            }
            Heading { x: hx as i64, y: hy as i64 }
        }
    }

    /// The point `dist` milliunits away along heading `h`: each
    /// coordinate moves by `h`'s matching component scaled by
    /// `dist / UNIT`, rounded toward zero — so for a unit heading the
    /// distance moved is `dist` up to less than one milliunit of
    /// truncation per coordinate, and exact along the axes. A negative
    /// `dist` moves backwards.
    pub fn offset(&self, h: Heading, dist: i64) -> (r: Node)
        requires
            h.wf(),
            vstd::math::abs(self.x as int) + vstd::math::abs(dist as int) <= i64::MAX,
            vstd::math::abs(self.y as int) + vstd::math::abs(dist as int) <= i64::MAX,
        ensures
            r.x == off_coord(self.x as int, h.x as int, dist as int),
            r.y == off_coord(self.y as int, h.y as int, dist as int),
            vstd::math::abs(r.x as int) <= vstd::math::abs(self.x as int) + vstd::math::abs(
                dist as int,
            ),
            vstd::math::abs(r.y as int) <= vstd::math::abs(self.y as int) + vstd::math::abs(
                dist as int,
            ),
            vstd::math::abs(r.x - self.x) <= vstd::math::abs(dist as int),
            vstd::math::abs(r.y - self.y) <= vstd::math::abs(dist as int),
    {
        let mx: i128 = mul_wide(h.x, dist);
        let my: i128 = mul_wide(h.y, dist);
        proof {
            lemma_heading_step_bounded(h.x as int, dist as int);
            lemma_heading_step_bounded(h.y as int, dist as int);
        }
        let ox: i128 = div_trunc(mx, UNIT as i128);
        let oy: i128 = div_trunc(my, UNIT as i128);
        Node { x: self.x + (ox as i64), y: self.y + (oy as i64) }
    }
}

/// Along an axis-aligned unit heading the offset is metrically exact:
/// the displaced point lies exactly `|d|` milliunits from where it
/// started. (Off the axes the identity holds only up to the
/// per-coordinate truncation.)
pub proof fn lemma_axis_offset_distance(n: Node, h: Heading, d: int, rx: int, ry: int)
    requires
        (vstd::math::abs(h.x as int) == UNIT && h.y == 0) || (h.x == 0 && vstd::math::abs(
            h.y as int,
        ) == UNIT),
        rx == off_coord(n.x as int, h.x as int, d),
        ry == off_coord(n.y as int, h.y as int, d),
    ensures
        (rx - n.x) * (rx - n.x) + (ry - n.y) * (ry - n.y) == d * d,
        sqrt_floor(((rx - n.x) * (rx - n.x) + (ry - n.y) * (ry - n.y)) as nat) == vstd::math::abs(
            d,
        ),
{
    lemma_unit_component_step(h.x as int, d);
    lemma_unit_component_step(h.y as int, d);
    let sx = rx - n.x;
    let sy = ry - n.y;
    assert(sx * sx + sy * sy == d * d) by (nonlinear_arith)
        requires
            (vstd::math::abs(sx) == vstd::math::abs(d) && sy == 0) || (sx == 0 && vstd::math::abs(
                sy,
            ) == vstd::math::abs(d)),
    ;
    let m = vstd::math::abs(d);
    assert(m * m <= d * d < (m + 1) * (m + 1)) by (nonlinear_arith)
        requires
            m == vstd::math::abs(d),
    ;
    crate::num::lemma_sqrt_is((d * d) as nat, m);
}

/// One offset step along a unit-magnitude component moves the
/// coordinate by exactly the offset distance (with the component's
/// sign); a zero component leaves it be.
proof fn lemma_unit_component_step(u: int, d: int)
    requires
        vstd::math::abs(u) == UNIT || u == 0,
    ensures
        u == UNIT ==> tdiv(u * d, UNIT as int) == d,
        u == -UNIT ==> tdiv(u * d, UNIT as int) == -d,
        u == 0 ==> tdiv(u * d, UNIT as int) == 0,
        vstd::math::abs(tdiv(u * d, UNIT as int)) == if u == 0 {
            0int
        } else {
            vstd::math::abs(d) as int
        },
{
    let m = vstd::math::abs(d) as int;
    if u == 0 {
        assert(u * d == 0) by (nonlinear_arith)
            requires
                u == 0,
        ;
        vstd::arithmetic::div_mod::lemma_div_of0(UNIT as int);
    } else {
        assert((UNIT as int) * m == if d >= 0 {
            (UNIT as int) * d
        } else {
            -((UNIT as int) * d)
        }) by (nonlinear_arith)
            requires
                m == vstd::math::abs(d),
        ;
        vstd::arithmetic::div_mod::lemma_div_multiples_vanish(m, UNIT as int);
        if u == UNIT {
            assert(u * d == (UNIT as int) * d);
            crate::num::lemma_tdiv_neg((UNIT as int) * m, UNIT as int);
        } else {
            assert(u == -UNIT);
            assert(u * d == -((UNIT as int) * d)) by (nonlinear_arith)
                requires
                    u == -(UNIT as int),
            ;
            crate::num::lemma_tdiv_neg((UNIT as int) * d, UNIT as int);
            crate::num::lemma_tdiv_neg((UNIT as int) * m, UNIT as int);
        }
    }
}

/// The exact squared distance between two points.
pub fn sq_dist_of(a: &Node, b: &Node) -> (r: i128)
    requires
        a.bounded(crate::MAX_SPAN as int),
        b.bounded(crate::MAX_SPAN as int),
    ensures
        r == sq_dist(*a, *b),
        r >= 0,
{
    let dx: i128 = (b.x as i128) - (a.x as i128);
    let dy: i128 = (b.y as i128) - (a.y as i128);
    proof {
        assert(0 <= dx * dx <= 64_000_000_000_000_000_000_000_000_000_000_000_000
            && 0 <= dy * dy <= 64_000_000_000_000_000_000_000_000_000_000_000_000)
            by (nonlinear_arith)
            requires
                -8_000_000_000_000_000_000 <= dx as int <= 8_000_000_000_000_000_000,
                -8_000_000_000_000_000_000 <= dy as int <= 8_000_000_000_000_000_000,
        ;
    }
    dx * dx + dy * dy
}

/// A displacement component never exceeds the full distance.
proof fn lemma_component_le_dist(dx: int, dy: int, d: nat)
    requires
        is_sqrt((dx * dx + dy * dy) as nat, d),
    ensures
        vstd::math::abs(dx) <= d,
        vstd::math::abs(dy) <= d,
{
    assert(dx * dx >= 0) by (nonlinear_arith);
    assert(dy * dy >= 0) by (nonlinear_arith);
    assert(vstd::math::abs(dx) <= d && vstd::math::abs(dy) <= d) by (nonlinear_arith)
        requires
            dx * dx >= 0,
            dy * dy >= 0,
            d * d <= dx * dx + dy * dy < (d + 1) * (d + 1),
    ;
}

/// Scaling a component no longer than the distance by `UNIT / d` keeps
/// it within the heading scale.
proof fn lemma_scaled_component_bounded(dx: int, d: nat)
    requires
        d > 0,
        vstd::math::abs(dx) <= d,
    ensures
        -UNIT <= tdiv(dx * UNIT, d as int) <= UNIT,
{
    if dx >= 0 {
        assert(dx * UNIT <= d * UNIT) by (nonlinear_arith)
            requires 0 <= dx <= d,
        ;
        vstd::arithmetic::div_mod::lemma_div_is_ordered(dx * UNIT, d as int * UNIT, d as int);
        vstd::arithmetic::div_mod::lemma_div_multiples_vanish(UNIT as int, d as int);
        vstd::arithmetic::div_mod::lemma_div_pos_is_pos(dx * UNIT, d as int);
    } else {
        assert((-dx) * UNIT <= d * UNIT) by (nonlinear_arith)
            requires 0 <= -dx <= d,
        ;
        assert(-(dx * UNIT) == (-dx) * UNIT) by (nonlinear_arith);
        vstd::arithmetic::div_mod::lemma_div_is_ordered((-dx) * UNIT, d as int * UNIT, d as int);
        vstd::arithmetic::div_mod::lemma_div_multiples_vanish(UNIT as int, d as int);
        vstd::arithmetic::div_mod::lemma_div_pos_is_pos((-dx) * UNIT, d as int);
    }
}

/// One offset step moves a coordinate by no more than the offset
/// distance itself.
proof fn lemma_heading_step_bounded(u: int, dist: int)
    requires
        -UNIT <= u <= UNIT,
    ensures
        vstd::math::abs(tdiv(u * dist, UNIT as int)) <= vstd::math::abs(dist),
{
    let m = u * dist;
    assert(vstd::math::abs(m) <= UNIT * vstd::math::abs(dist)) by (nonlinear_arith)
        requires
            -UNIT <= u <= UNIT,
            m == u * dist,
    ;
    crate::num::lemma_tdiv_bound(m, UNIT as int);
    if m >= 0 {
        vstd::arithmetic::div_mod::lemma_div_is_ordered(m, UNIT * vstd::math::abs(dist), UNIT as int);
        vstd::arithmetic::div_mod::lemma_div_multiples_vanish(vstd::math::abs(dist) as int, UNIT as int);
        vstd::arithmetic::div_mod::lemma_div_pos_is_pos(m, UNIT as int);
    } else {
        vstd::arithmetic::div_mod::lemma_div_is_ordered(-m, UNIT * vstd::math::abs(dist), UNIT as int);
        vstd::arithmetic::div_mod::lemma_div_multiples_vanish(vstd::math::abs(dist) as int, UNIT as int);
        vstd::arithmetic::div_mod::lemma_div_pos_is_pos(-m, UNIT as int);
    }
}

} // verus!
