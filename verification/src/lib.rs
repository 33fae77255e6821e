//! A road-network geometry and connectivity engine.
//!
//! The crate models straight and circular path segments fitted to tangent
//! headings, builds the directed lane graph inside an intersection from
//! entry/exit connection points, and drives point-like agents across that
//! graph. All geometry is carried in fixed-point milliunits (one thousandth
//! of a distance unit), and headings are carried as fixed-point unit
//! vectors, so that every computation is exact integer arithmetic.

use vstd::prelude::*;

pub mod num;
pub mod node;
pub mod curve;
pub mod lane;
pub mod connection;
pub mod road_profile;
pub mod intersection;
pub mod agent;
pub mod property;
pub mod road;
pub mod map;

verus! {

/// One distance unit, expressed in milliunits.
pub const UNIT: i64 = 1000;

/// Length of the probe arm used to build a radius line during arc
/// fitting: ten distance units, as milliunits.
pub const PROBE: i64 = 10 * UNIT;

/// Smallest determinant (in squared milliunits) that still counts as two
/// radius lines meeting; below it the tangents are treated as parallel
/// and the segment falls back to a straight line. This matches rounding
/// the determinant to two decimals in whole units before the zero test.
pub const DET_MIN: i64 = 5000;

/// Largest coordinate magnitude accepted for the points handed to arc
/// fitting.
pub const MAX_COORD: i64 = 4_000_000_000;

/// Largest coordinate magnitude an arc center produced by fitting can
/// reach (the determinant floor bounds how far the radius lines'
/// intersection can run away).
pub const MAX_CENTER: i64 = 400_000_000_000_000;

/// Largest coordinate magnitude any curve point may carry; squared
/// distances of such points still fit machine words.
pub const MAX_SPAN: i64 = 4_000_000_000_000_000_000;

/// Largest radius (in milliunits) a fitted arc may have; a larger one is
/// indistinguishable from a straight segment and falls back to one.
pub const MAX_RADIUS: i64 = 1_000_000_000_000;

/// Hard cap on the radius of any arc held by a curve, leaving room for
/// lateral offsets applied after fitting.
pub const RADIUS_CAP: i64 = 2_000_000_000_000;

/// Largest lateral offset a curve can be displaced by in one step.
pub const MAX_LATERAL: i64 = 1_000_000_000;

/// Pi, scaled by a thousand millions.
pub const PI_NANO: i64 = 3_141_592_653;

/// Two pi, scaled by a thousand millions.
pub const TWO_PI_NANO: i64 = 6_283_185_307;

} // verus!
