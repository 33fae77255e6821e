//! Property plots: quadrilateral parcels of land beside a road. The
//! core only carries them as inert geometry; zoning and painting are
//! the surrounding application's business.

use vstd::prelude::*;
use crate::node::Node;

verus! {

/// What a parcel is used for.
#[derive(Clone, Copy, PartialEq, Eq, Structural, Debug)]
pub enum PropertyKind {
    Vacant,
    Residential,
    Commercial,
    Industrial,
}

/// A parcel: its use and its four corners.
#[derive(Clone, Copy, Debug)]
pub struct Property {
    pub kind: PropertyKind,
    pub n0: Node,
    pub n1: Node,
    pub n2: Node,
    pub n3: Node,
}

impl Property {
    pub fn new(kind: PropertyKind, n0: Node, n1: Node, n2: Node, n3: Node) -> (r: Property)
        ensures
            r.kind == kind,
            r.n0 == n0,
            r.n1 == n1,
            r.n2 == n2,
            r.n3 == n3,
    {
        Property { kind, n0, n1, n2, n3 }
    }
}

} // verus!
