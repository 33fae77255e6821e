//! Straight segments and circular arcs between two endpoints, fitted to
//! tangent headings.
//!
//! Fitting intersects the two radius lines (each perpendicular to a
//! tangent at its endpoint, drawn through a probe point [`PROBE`]
//! milliunits out). A determinant below [`DET_MIN`] means the radius
//! lines are parallel and the segment falls back to a straight line, as
//! does a vanishing or over-large radius. Arc lengths are computed by
//! repeated chord halving, so the whole module stays in exact integer
//! arithmetic.

use vstd::prelude::*;
use crate::node::{Node, Heading, off_coord, sq_dist, sq_dist_of, heading_to};
use crate::num::{
    tdiv,
    sqrt_floor,
    is_sqrt,
    mul_wide,
    mul_wide128,
    div_trunc,
    isqrt,
    lemma_mul_abs,
    lemma_sqrt_le,
    lemma_tdiv_frac_bound,
    lemma_tdiv_sign,
};
use crate::{UNIT, PROBE, DET_MIN, MAX_COORD, MAX_CENTER, MAX_SPAN, MAX_RADIUS, RADIUS_CAP,
    MAX_LATERAL, PI_NANO, TWO_PI_NANO};

verus! {

/// The working scale of the arc-length computation (two to the
/// twentieth).
pub const ARC_SCALE: i64 = 1_048_576;

/// A path between `n0` and `n1`: a straight segment when `is_curved` is
/// false (then `c` is the midpoint and takes no part in the geometry),
/// or a circular arc around center `c`. `is_reversed` records whether
/// travel from `n0` to `n1` runs in decreasing angle around `c`.
#[derive(Clone, Copy, PartialEq, Eq, Structural, Debug)]
pub struct Curve {
    pub n0: Node,
    pub n1: Node,
    pub c: Node,
    pub is_curved: bool,
    pub is_reversed: bool,
}

/// Coefficients `(a, b, c)` of the implicit line `a*x + b*y = c`
/// through `n` and its probe point [`PROBE`] milliunits along the
/// (already rotated) heading `(hx, hy)`.
pub open spec fn line_abc(n: Node, hx: int, hy: int) -> (int, int, int) {
    let qx = off_coord(n.x as int, hx, PROBE as int);
    let qy = off_coord(n.y as int, hy, PROBE as int);
    let a = qy - n.y;
    let b = n.x - qx;
    (a, b, a * n.x + b * n.y)
}

/// The determinant of the two radius lines' system: zero (or nearly so)
/// exactly when the tangents are parallel.
pub open spec fn fit_det(n0: Node, n1: Node, a0: Heading, a1: Heading) -> int {
    let l0 = line_abc(n0, a0.y as int, -(a0.x as int));
    let l1 = line_abc(n1, -(a1.y as int), a1.x as int);
    l0.0 * l1.1 - l1.0 * l0.1
}

/// Where the two radius lines meet: the arc center candidate, rounded
/// toward zero.
pub open spec fn fit_center(n0: Node, n1: Node, a0: Heading, a1: Heading) -> (int, int) {
    let l0 = line_abc(n0, a0.y as int, -(a0.x as int));
    let l1 = line_abc(n1, -(a1.y as int), a1.x as int);
    let det = l0.0 * l1.1 - l1.0 * l0.1;
    let nx = l1.1 * l0.2 - l0.1 * l1.2;
    let ny = l0.0 * l1.2 - l1.0 * l0.2;
    if det < 0 {
        (tdiv(-nx, -det), tdiv(-ny, -det))
    } else {
        (tdiv(nx, det), tdiv(ny, det))
    }
}

/// The straight-segment outcome of fitting: endpoints kept, no arc, and
/// the center parked at the midpoint (rounded toward zero).
pub open spec fn straight_fit(r: Curve, n0: Node, n1: Node) -> bool {
    &&& r.n0 == n0
    &&& r.n1 == n1
    &&& !r.is_curved
    &&& !r.is_reversed
    &&& r.c.x == tdiv(n0.x + n1.x, 2)
    &&& r.c.y == tdiv(n0.y + n1.y, 2)
}

/// What fitting promises. Parallel radius lines (including equal
/// tangent headings), a vanishing radius and an over-large radius all
/// fall back to the straight segment; otherwise the result is the arc
/// around the radius lines' intersection, traversed in decreasing angle
/// exactly when the first probe point lies farther from the center than
/// the first endpoint does.
pub open spec fn fits(r: Curve, n0: Node, n1: Node, a0: Heading, a1: Heading) -> bool {
    let det = fit_det(n0, n1, a0, a1);
    if -DET_MIN < det < DET_MIN {
        straight_fit(r, n0, n1)
    } else {
        let cx = fit_center(n0, n1, a0, a1).0;
        let cy = fit_center(n0, n1, a0, a1).1;
        let r2a = (n0.x - cx) * (n0.x - cx) + (n0.y - cy) * (n0.y - cy);
        let r2b = (n1.x - cx) * (n1.x - cx) + (n1.y - cy) * (n1.y - cy);
        if r2a == 0 || r2b == 0 || r2a > MAX_RADIUS * MAX_RADIUS || r2b > MAX_RADIUS
            * MAX_RADIUS {
            straight_fit(r, n0, n1)
        } else {
            let p0x = off_coord(n0.x as int, a0.y as int, PROBE as int);
            let p0y = off_coord(n0.y as int, -(a0.x as int), PROBE as int);
            let d1sq = (cx - p0x) * (cx - p0x) + (cy - p0y) * (cy - p0y);
            &&& r.n0 == n0
            &&& r.n1 == n1
            &&& r.c.x == cx
            &&& r.c.y == cy
            &&& r.is_curved
            &&& r.is_reversed == (d1sq > r2a)
        }
    }
}

/// One chord-halving step at the working scale: from the scaled
/// half-chord `s` of some sweep to the scaled half-chord of half that
/// sweep, on a circle of scaled radius `rf`.
pub open spec fn chord_half_step(rf: int, s: int) -> int
    recommends
        0 <= s <= rf,
{
    let h = sqrt_floor((rf * rf - s * s) as nat) as int;
    sqrt_floor(((rf * (rf - h)) / 2) as nat) as int
}

/// `k` chord-halving steps applied to `s`.
pub open spec fn chord_halvings(rf: int, s: int, k: nat) -> int
    decreases k,
{
    if k == 0 {
        s
    } else {
        chord_half_step(rf, chord_halvings(rf, s, (k - 1) as nat))
    }
}

/// The length of the minor arc (a sweep of at most a half turn) that a
/// chord of length `chord` cuts from a circle of radius `r`: eight
/// chord halvings, then the half-chord count scaled back, rounded to
/// nearest. A chord reaching the diameter (or passing it, as rounding
/// noise can make it) counts as a half turn.
pub open spec fn minor_arc_len(r: int, chord: int) -> int {
    let rf = r * ARC_SCALE;
    let half = chord * (ARC_SCALE / 2);
    if half >= rf {
        tdiv(r * PI_NANO, 1_000_000_000)
    } else {
        tdiv(chord_halvings(rf, half, 8) * 512 + ARC_SCALE / 2, ARC_SCALE as int)
    }
}

/// The full circumference of a circle of radius `r` milliunits.
pub open spec fn circle_len(r: int) -> int {
    tdiv(r * TWO_PI_NANO, 1_000_000_000)
}

/// The cross product of the two radius vectors: positive when the
/// sweep from `n0` to `n1` in increasing angle is less than a half
/// turn.
pub open spec fn arc_cross(cv: Curve) -> int {
    (cv.n0.x - cv.c.x) * (cv.n1.y - cv.c.y) - (cv.n0.y - cv.c.y) * (cv.n1.x - cv.c.x)
}

/// The length of a curve, in milliunits: the endpoint distance for a
/// straight segment; for an arc, the radius times the sweep the
/// traversal direction dictates — the minor arc when that direction
/// crosses the short way (the cross product's sign, against
/// `is_reversed`, decides), else the rest of the circle.
pub open spec fn curve_length(cv: Curve) -> int {
    if !cv.is_curved {
        sqrt_floor(sq_dist(cv.n0, cv.n1) as nat) as int
    } else {
        let r = sqrt_floor(sq_dist(cv.c, cv.n0) as nat) as int;
        let chord = sqrt_floor(sq_dist(cv.n0, cv.n1) as nat) as int;
        let minor = if cv.is_reversed {
            arc_cross(cv) <= 0
        } else {
            arc_cross(cv) >= 0
        };
        let m = minor_arc_len(r, chord);
        if minor {
            m
        } else {
            let full = circle_len(r);
            if m > full {
                0
            } else {
                full - m
            }
        }
    }
}

/// Where a straight segment stands after `d` milliunits of travel:
/// linear interpolation between the endpoints, rounded toward zero. A
/// zero-length segment stays at its start.
pub open spec fn lerp_at(cv: Curve, d: int) -> (int, int) {
    let len = sqrt_floor(sq_dist(cv.n0, cv.n1) as nat) as int;
    if len == 0 {
        (cv.n0.x as int, cv.n0.y as int)
    } else {
        (
            cv.n0.x + tdiv((cv.n1.x - cv.n0.x) * d, len),
            cv.n0.y + tdiv((cv.n1.y - cv.n0.y) * d, len),
        )
    }
}

/// What laterally displacing a curve by `w` promises. A straight
/// segment is translated rigidly: every point moves by the same step,
/// `w` scaled along the quarter-left turn of the heading toward the
/// midpoint. An arc keeps its center and slides each endpoint `w`
/// milliunits along its own radius line (toward the center for a
/// positive `w`, away for a traversal in decreasing angle); should
/// that ever collapse or overgrow the radius, the result falls back to
/// the straight segment between the displaced endpoints.
pub open spec fn offset_fits(r: Curve, cv: Curve, w: int) -> bool {
    if cv.is_curved {
        let wi = if cv.is_reversed {
            -w
        } else {
            w
        };
        let h0 = heading_to(cv.n0, cv.c);
        let h1 = heading_to(cv.n1, cv.c);
        let n0x = off_coord(cv.n0.x as int, h0.0, wi);
        let n0y = off_coord(cv.n0.y as int, h0.1, wi);
        let n1x = off_coord(cv.n1.x as int, h1.0, wi);
        let n1y = off_coord(cv.n1.y as int, h1.1, wi);
        let r2a = (n0x - cv.c.x) * (n0x - cv.c.x) + (n0y - cv.c.y) * (n0y - cv.c.y);
        let r2b = (n1x - cv.c.x) * (n1x - cv.c.x) + (n1y - cv.c.y) * (n1y - cv.c.y);
        if r2a == 0 || r2b == 0 || r2a > RADIUS_CAP * RADIUS_CAP || r2b > RADIUS_CAP
            * RADIUS_CAP {
            &&& r.n0.x == n0x
            &&& r.n0.y == n0y
            &&& r.n1.x == n1x
            &&& r.n1.y == n1y
            &&& !r.is_curved
            &&& !r.is_reversed
            &&& r.c.x == tdiv(n0x + n1x, 2)
            &&& r.c.y == tdiv(n0y + n1y, 2)
        } else {
            &&& r.n0.x == n0x
            &&& r.n0.y == n0y
            &&& r.n1.x == n1x
            &&& r.n1.y == n1y
            &&& r.c == cv.c
            &&& r.is_curved
            &&& r.is_reversed == cv.is_reversed
        }
    } else {
        let hm = heading_to(cv.n0, cv.c);
        let px = -hm.1;
        let py = hm.0;
        &&& r.n0.x == off_coord(cv.n0.x as int, px, w)
        &&& r.n0.y == off_coord(cv.n0.y as int, py, w)
        &&& r.n1.x == off_coord(cv.n1.x as int, px, w)
        &&& r.n1.y == off_coord(cv.n1.y as int, py, w)
        &&& r.c.x == off_coord(cv.c.x as int, px, w)
        &&& r.c.y == off_coord(cv.c.y as int, py, w)
        &&& !r.is_curved
        &&& r.is_reversed == cv.is_reversed
    }
}

/// The same path bound for travel the other way: endpoints swapped,
/// same center, direction flag flipped.
pub open spec fn reversed_of(cv: Curve) -> Curve {
    Curve { n0: cv.n1, n1: cv.n0, c: cv.c, is_curved: cv.is_curved, is_reversed: !cv.is_reversed }
}

impl Curve {
    /// Every point of the curve is in range, and an arc's radius —
    /// measured from either endpoint — is at least one milliunit and at
    /// most [`RADIUS_CAP`].
    pub open spec fn wf(self) -> bool {
        &&& self.n0.bounded(MAX_SPAN as int)
        &&& self.n1.bounded(MAX_SPAN as int)
        &&& self.c.bounded(MAX_SPAN as int)
        &&& (self.is_curved ==> {
            &&& 1 <= sq_dist(self.c, self.n0) <= RADIUS_CAP * RADIUS_CAP
            &&& 1 <= sq_dist(self.c, self.n1) <= RADIUS_CAP * RADIUS_CAP
        })
    }

    /// Fit a path from `n0` to `n1` that leaves `n0` along tangent
    /// heading `a0` and arrives at `n1` along tangent heading `a1`.
    pub fn new(n0: Node, n1: Node, a0: Heading, a1: Heading) -> (r: Curve)
        requires
            n0.bounded(MAX_COORD as int),
            n1.bounded(MAX_COORD as int),
            a0.wf(),
            a1.wf(),
        ensures
            fits(r, n0, n1, a0, a1),
            r.n0 == n0,
            r.n1 == n1,
            r.wf(),
            r.c.bounded(MAX_CENTER as int),
    {
        let no0 = n0.offset(a0.quarter_right(), PROBE);
        let no1 = n1.offset(a1.quarter_left(), PROBE);
        let la0: i64 = no0.y - n0.y;
        let lb0: i64 = n0.x - no0.x;
        let la1: i64 = no1.y - n1.y;
        let lb1: i64 = n1.x - no1.x;
        proof {
            lemma_mul_abs(la0 as int, n0.x as int, PROBE as int, MAX_COORD as int);
            lemma_mul_abs(lb0 as int, n0.y as int, PROBE as int, MAX_COORD as int);
            lemma_mul_abs(la1 as int, n1.x as int, PROBE as int, MAX_COORD as int);
            lemma_mul_abs(lb1 as int, n1.y as int, PROBE as int, MAX_COORD as int);
        }
        let lc0: i128 = mul_wide(la0, n0.x) + mul_wide(lb0, n0.y);
        let lc1: i128 = mul_wide(la1, n1.x) + mul_wide(lb1, n1.y);
        proof {
            lemma_mul_abs(la0 as int, lb1 as int, PROBE as int, PROBE as int);
            lemma_mul_abs(la1 as int, lb0 as int, PROBE as int, PROBE as int);
        }
        let det: i128 = mul_wide(la0, lb1) - mul_wide(la1, lb0);
        if -(DET_MIN as i128) < det && det < DET_MIN as i128 {
            Self::straight_between(n0, n1)
        } else {
            proof {
                lemma_mul_abs(lb1 as int, lc0 as int, PROBE as int, 80_000_000_000_000);
                lemma_mul_abs(lb0 as int, lc1 as int, PROBE as int, 80_000_000_000_000);
                lemma_mul_abs(la0 as int, lc1 as int, PROBE as int, 80_000_000_000_000);
                lemma_mul_abs(la1 as int, lc0 as int, PROBE as int, 80_000_000_000_000);
            }
            let nx: i128 = mul_wide128(lb1 as i128, lc0) - mul_wide128(lb0 as i128, lc1);
            let ny: i128 = mul_wide128(la0 as i128, lc1) - mul_wide128(la1 as i128, lc0);
            let (pnx, pny, pd): (i128, i128, i128) = if det < 0 {
                (-nx, -ny, -det)
            } else {
                (nx, ny, det)
            };
            proof {
                lemma_tdiv_frac_bound(pnx as int, pd as int, 1_600_000_000_000_000_000, DET_MIN as int);
                lemma_tdiv_frac_bound(pny as int, pd as int, 1_600_000_000_000_000_000, DET_MIN as int);
            }
            let cx: i128 = div_trunc(pnx, pd);
            let cy: i128 = div_trunc(pny, pd);
            let c = Node { x: cx as i64, y: cy as i64 };
            let r2a: i128 = sq_dist_of(&c, &n0);
            let r2b: i128 = sq_dist_of(&c, &n1);
            if r2a == 0 || r2b == 0 || r2a > 1_000_000_000_000_000_000_000_000 || r2b
                > 1_000_000_000_000_000_000_000_000 {
                Self::straight_between(n0, n1)
            } else {
                let d1sq: i128 = sq_dist_of(&no0, &c);
                Curve { n0, n1, c, is_curved: true, is_reversed: d1sq > r2a }
            }
        }
    }

    /// The straight segment from `n0` to `n1`, its center parked at the
    /// midpoint.
    fn straight_between(n0: Node, n1: Node) -> (r: Curve)
        requires
            n0.bounded(MAX_COORD as int),
            n1.bounded(MAX_COORD as int),
        ensures
            straight_fit(r, n0, n1),
            r.wf(),
            r.c.bounded(MAX_COORD as int),
    {
        let sx: i128 = (n0.x as i128) + (n1.x as i128);
        let sy: i128 = (n0.y as i128) + (n1.y as i128);
        proof {
            lemma_tdiv_frac_bound(sx as int, 2, 2 * MAX_COORD as int, 2);
            lemma_tdiv_frac_bound(sy as int, 2, 2 * MAX_COORD as int, 2);
        }
        let cx: i128 = div_trunc(sx, 2);
        let cy: i128 = div_trunc(sy, 2);
        Curve {
            n0,
            n1,
            c: Node { x: cx as i64, y: cy as i64 },
            is_curved: false,
            is_reversed: false,
        }
    }

    /// Assemble a curve from its parts, unchecked.
    pub fn new_1(n0: Node, n1: Node, c: Node, is_curved: bool, is_reversed: bool) -> (r: Curve)
        ensures
            r == (Curve { n0, n1, c, is_curved, is_reversed }),
    {
        Curve { n0, n1, c, is_curved, is_reversed }
    }

    /// The length of the path, in milliunits.
    pub fn length(&self) -> (r: u64)
        requires
            self.wf(),
        ensures
            r == curve_length(*self),
            !self.is_curved ==> is_sqrt(sq_dist(self.n0, self.n1) as nat, r as nat),
    {
        if !self.is_curved {
            self.n0.distance(&self.n1)
        } else {
            let rad: u64 = self.c.distance(&self.n0);
            let chord: u64 = self.n0.distance(&self.n1);
            proof {
                lemma_sqrt_le(sq_dist(self.c, self.n0) as nat, rad as nat, RADIUS_CAP as nat);
            }
            let ax: i64 = self.n0.x - self.c.x;
            let ay: i64 = self.n0.y - self.c.y;
            let bx: i64 = self.n1.x - self.c.x;
            let by: i64 = self.n1.y - self.c.y;
            proof {
                lemma_mul_abs(ax as int, by as int, 2 * MAX_SPAN as int, 2 * MAX_SPAN as int);
                lemma_mul_abs(ay as int, bx as int, 2 * MAX_SPAN as int, 2 * MAX_SPAN as int);
            }
            let cross: i128 = mul_wide(ax, by) - mul_wide(ay, bx);
            let minor: bool = if self.is_reversed {
                cross <= 0
            } else {
                cross >= 0
            };
            let m: u64 = Self::minor_arc(rad, chord);
            if minor {
                m
            } else {
                let full: u64 = Self::circumference(rad);
                if m > full {
                    0
                } else {
                    full - m
                }
            }
        }
    }

    /// The full circumference of a circle of radius `rad` milliunits.
    fn circumference(rad: u64) -> (r: u64)
        requires
            rad <= RADIUS_CAP,
        ensures
            r == circle_len(rad as int),
            r <= 13_000_000_000_000,
    {
        let t: u128 = (rad as u128) * 6_283_185_307;
        proof {
            vstd::arithmetic::div_mod::lemma_div_pos_is_pos(t as int, 1_000_000_000);
            vstd::arithmetic::div_mod::lemma_div_is_ordered(
                t as int,
                12_600_000_000_000_000_000_000,
                1_000_000_000,
            );
        }
        (t / 1_000_000_000) as u64
    }

    /// The length of the minor arc cut by `chord` from a circle of
    /// radius `rad`, by chord halving.
    fn minor_arc(rad: u64, chord: u64) -> (r: u64)
        requires
            rad <= RADIUS_CAP,
        ensures
            r == minor_arc_len(rad as int, chord as int),
    {
        let rf: u128 = (rad as u128) * 1_048_576;
        let half: u128 = (chord as u128) * 524_288;
        if half >= rf {
            let t: u128 = (rad as u128) * 3_141_592_653;
            proof {
                vstd::arithmetic::div_mod::lemma_div_pos_is_pos(t as int, 1_000_000_000);
                vstd::arithmetic::div_mod::lemma_div_is_ordered(
                    t as int,
                    6_300_000_000_000_000_000_000,
                    1_000_000_000,
                );
            }
            (t / 1_000_000_000) as u64
        } else {
            let mut s: u128 = half;
            let mut k: u64 = 0;
            while k < 8
                invariant
                    0 <= k <= 8,
                    rf == rad * 1_048_576,
                    rad <= RADIUS_CAP,
                    0 <= s <= rf,
                    s == chord_halvings(rf as int, half as int, k as nat),
                decreases 8 - k,
            {
                proof {
                    assert(rf * rf <= 4_398_046_511_104_000_000_000_000_000_000_000_000)
                        by (nonlinear_arith)
                        requires
                            0 <= rf <= 2_097_152_000_000_000_000,
                    ;
                    assert(s * s <= rf * rf) by (nonlinear_arith)
                        requires
                            0 <= s <= rf,
                    ;
                }
                let h: u128 = isqrt(rf * rf - s * s);
                proof {
                    lemma_sqrt_le((rf * rf - s * s) as nat, h as nat, rf as nat);
                    assert(rf * (rf - h) <= rf * rf) by (nonlinear_arith)
                        requires
                            0 <= h <= rf,
                    ;
                }
                let t: u128 = (rf * (rf - h)) / 2;
                proof {
                    vstd::arithmetic::div_mod::lemma_div_pos_is_pos((rf * (rf - h)) as int, 2);
                    vstd::arithmetic::div_mod::lemma_div_is_ordered(
                        (rf * (rf - h)) as int,
                        rf * rf,
                        2,
                    );
                    assert((rf * rf) / 2 <= rf * rf);
                }
                s = isqrt(t);
                proof {
                    lemma_sqrt_le(t as nat, s as nat, rf as nat);
                }
                k = k + 1;
            }
            let num: u128 = s * 512 + 524_288;
            proof {
                vstd::arithmetic::div_mod::lemma_div_pos_is_pos(num as int, 1_048_576);
                vstd::arithmetic::div_mod::lemma_div_is_ordered(
                    num as int,
                    1_073_741_824_000_000_000_000_000,
                    1_048_576,
                );
            }
            (num / 1_048_576) as u64
        }
    }

    /// Where the path stands after `d` milliunits of travel from `n0`,
    /// for a straight segment. (Sampling an arc means rotating by an
    /// arbitrary angle, which calls for trigonometry; the layer that
    /// paints arcs does that projection itself.)
    pub fn position_at(&self, d: u64) -> (r: Node)
        requires
            self.wf(),
            !self.is_curved,
            d <= curve_length(*self),
        ensures
            r.x == lerp_at(*self, d as int).0,
            r.y == lerp_at(*self, d as int).1,
    {
        let len: u64 = self.n0.distance(&self.n1);
        if len == 0 {
            Node { x: self.n0.x, y: self.n0.y }
        } else {
            let dx: i64 = self.n1.x - self.n0.x;
            let dy: i64 = self.n1.y - self.n0.y;
            proof {
                lemma_mul_abs(dx as int, d as int, 2 * MAX_SPAN as int, len as int);
                lemma_mul_abs(dy as int, d as int, 2 * MAX_SPAN as int, len as int);
                assert((2 * MAX_SPAN as int) * (len as int)
                    < 0x8000_0000_0000_0000_0000_0000_0000_0000) by (nonlinear_arith)
                    requires
                        0 <= len <= 0xffff_ffff_ffff_ffff,
                ;
            }
            let qx: i128 = div_trunc(mul_wide128(dx as i128, d as i128), len as i128);
            let qy: i128 = div_trunc(mul_wide128(dy as i128, d as i128), len as i128);
            proof {
                Self::lemma_lerp_step(dx as int, d as int, len as int);
                Self::lemma_lerp_step(dy as int, d as int, len as int);
            }
            Node { x: self.n0.x + (qx as i64), y: self.n0.y + (qy as i64) }
        }
    }

    /// The interpolation step along one coordinate stays between zero
    /// and the full displacement.
    proof fn lemma_lerp_step(dx: int, d: int, len: int)
        requires
            len > 0,
            0 <= d,
        ensures
            dx >= 0 ==> 0 <= tdiv(dx * d, len) <= dx * d / len,
            vstd::math::abs(tdiv(dx * d, len)) <= vstd::math::abs(dx) * d / len,
            d <= len ==> vstd::math::abs(tdiv(dx * d, len)) <= vstd::math::abs(dx),
            dx >= 0 ==> tdiv(dx * d, len) >= 0,
            dx < 0 ==> tdiv(dx * d, len) <= 0,
    {
        let m = vstd::math::abs(dx) as int;
        assert(vstd::math::abs(dx * d) == m * d && (dx >= 0 ==> dx * d >= 0) && (dx < 0 ==> dx
            * d <= 0)) by (nonlinear_arith)
            requires
                d >= 0,
                m == vstd::math::abs(dx),
        ;
        lemma_tdiv_sign(dx * d, len);
        crate::num::lemma_tdiv_bound(dx * d, len);
        vstd::arithmetic::div_mod::lemma_div_pos_is_pos(m * d, len);
        if d <= len {
            assert(m * d <= m * len) by (nonlinear_arith)
                requires
                    0 <= d <= len,
                    m >= 0,
            ;
            vstd::arithmetic::div_mod::lemma_div_is_ordered(m * d, m * len, len);
            vstd::arithmetic::div_mod::lemma_div_multiples_vanish(m, len);
        }
    }

    /// The path displaced laterally by `w` milliunits (to the right of
    /// travel for positive `w`). A straight segment is translated
    /// rigidly and exactly; an arc's endpoints slide along their radius
    /// lines, recomputed from the stored points, so an arc's new radius
    /// differs from `radius - w` by less than the one-milliunit
    /// truncation of each scaled step.
    #[verifier::rlimit(60)]
    pub fn offset(&self, w: i64) -> (r: Curve)
        requires
            self.wf(),
            -MAX_LATERAL <= w <= MAX_LATERAL,
            self.n0.bounded(MAX_SPAN - MAX_LATERAL as int),
            self.n1.bounded(MAX_SPAN - MAX_LATERAL as int),
            self.c.bounded(MAX_SPAN - MAX_LATERAL as int),
        ensures
            offset_fits(r, *self, w as int),
            r.wf(),
            r.n0.bounded(MAX_SPAN as int),
            r.n1.bounded(MAX_SPAN as int),
            r.c.bounded(MAX_SPAN as int),
            r.is_curved ==> self.is_curved && r.c == self.c,
    {
        if self.is_curved {
            let wi: i64 = if self.is_reversed {
                -w
            } else {
                w
            };
            let h0 = self.n0.angle(&self.c);
            let h1 = self.n1.angle(&self.c);
            let p0 = self.n0.offset(h0, wi);
            let p1 = self.n1.offset(h1, wi);
            let r2a: i128 = sq_dist_of(&p0, &self.c);
            let r2b: i128 = sq_dist_of(&p1, &self.c);
            proof {
                assert((p0.x - self.c.x) * (p0.x - self.c.x) == (self.c.x - p0.x) * (self.c.x
                    - p0.x) && (p0.y - self.c.y) * (p0.y - self.c.y) == (self.c.y - p0.y) * (
                self.c.y - p0.y)) by (nonlinear_arith);
                assert((p1.x - self.c.x) * (p1.x - self.c.x) == (self.c.x - p1.x) * (self.c.x
                    - p1.x) && (p1.y - self.c.y) * (p1.y - self.c.y) == (self.c.y - p1.y) * (
                self.c.y - p1.y)) by (nonlinear_arith);
            }
            if r2a == 0 || r2b == 0 || r2a > 4_000_000_000_000_000_000_000_000 || r2b
                > 4_000_000_000_000_000_000_000_000 {
                let sx: i128 = (p0.x as i128) + (p1.x as i128);
                let sy: i128 = (p0.y as i128) + (p1.y as i128);
                proof {
                    lemma_tdiv_frac_bound(sx as int, 2, 2 * MAX_SPAN as int, 2);
                    lemma_tdiv_frac_bound(sy as int, 2, 2 * MAX_SPAN as int, 2);
                }
                let cx: i128 = div_trunc(sx, 2);
                let cy: i128 = div_trunc(sy, 2);
                Curve {
                    n0: p0,
                    n1: p1,
                    c: Node { x: cx as i64, y: cy as i64 },
                    is_curved: false,
                    is_reversed: false,
                }
            } else {
                Curve { n0: p0, n1: p1, c: self.c, is_curved: true, is_reversed: self.is_reversed }
            }
        } else {
            let hm = self.n0.angle(&self.c);
            let hp = hm.quarter_left();
            let p0 = self.n0.offset(hp, w);
            let p1 = self.n1.offset(hp, w);
            let pc = self.c.offset(hp, w);
            Curve { n0: p0, n1: p1, c: pc, is_curved: false, is_reversed: self.is_reversed }
        }
    }

    /// The same path traversed the other way.
    pub fn reverse(&self) -> (r: Curve)
        ensures
            r == reversed_of(*self),
            self.wf() ==> r.wf(),
    {
        Curve::new_1(self.n1, self.n0, self.c, self.is_curved, !self.is_reversed)
    }
}

/// Displacing a straight curve laterally by `w` and then by `-w`
/// restores it exactly. The reverse pass recomputes the perpendicular
/// from the translated points, but a rigid translation keeps their
/// mutual heading, and truncation toward zero makes the reverse step
/// the exact negation of the forward one. (For an arc the radial
/// headings are recomputed from the moved endpoints and the round trip
/// holds only up to that truncation, which is under one milliunit per
/// coordinate and pass.)
pub proof fn lemma_offset_straight_round_trip(cv: Curve, r: Curve, r2: Curve, w: int)
    requires
        !cv.is_curved,
        offset_fits(r, cv, w),
        offset_fits(r2, r, -w),
    ensures
        r2.n0 == cv.n0,
        r2.n1 == cv.n1,
        r2.c == cv.c,
        r2.is_curved == cv.is_curved,
        r2.is_reversed == cv.is_reversed,
{
    let hm = heading_to(cv.n0, cv.c);
    let px = -hm.1;
    let py = hm.0;
    lemma_offset_straight_translates(cv, r, w);
    assert(r.c.x - r.n0.x == cv.c.x - cv.n0.x);
    assert(r.c.y - r.n0.y == cv.c.y - cv.n0.y);
    assert(sq_dist(r.n0, r.c) == sq_dist(cv.n0, cv.c));
    assert(heading_to(r.n0, r.c) == heading_to(cv.n0, cv.c));
    lemma_offset_straight_translates(r, r2, -w);
    crate::num::lemma_tdiv_neg(px * w, UNIT as int);
    crate::num::lemma_tdiv_neg(py * w, UNIT as int);
    assert(px * (-w) == -(px * w)) by (nonlinear_arith);
    assert(py * (-w) == -(py * w)) by (nonlinear_arith);
    assert(r2.n0.x == cv.n0.x && r2.n0.y == cv.n0.y);
    assert(r2.n1.x == cv.n1.x && r2.n1.y == cv.n1.y);
    assert(r2.c.x == cv.c.x && r2.c.y == cv.c.y);
}

/// Reversing a curve twice restores it exactly: the same endpoints, the
/// same center, and the original arc and direction flags.
pub proof fn lemma_reverse_reverse(cv: Curve)
    ensures
        reversed_of(reversed_of(cv)) == cv,
{
}

/// Displacing a straight curve laterally translates it rigidly: both
/// endpoints and the center move by one and the same step — the offset
/// width scaled along the perpendicular of the segment's heading.
pub proof fn lemma_offset_straight_translates(cv: Curve, r: Curve, w: int)
    requires
        !cv.is_curved,
        offset_fits(r, cv, w),
    ensures
        ({
            let hm = heading_to(cv.n0, cv.c);
            let sx = tdiv(-hm.1 * w, UNIT as int);
            let sy = tdiv(hm.0 * w, UNIT as int);
            &&& r.n0.x - cv.n0.x == sx
            &&& r.n0.y - cv.n0.y == sy
            &&& r.n1.x - cv.n1.x == sx
            &&& r.n1.y - cv.n1.y == sy
            &&& r.c.x - cv.c.x == sx
            &&& r.c.y - cv.c.y == sy
        }),
{
}

} // verus!
