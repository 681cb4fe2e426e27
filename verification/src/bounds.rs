//! Axis-aligned boxes.

use vstd::prelude::*;

use crate::float::F64;

verus! {

/// A box, by its corners.
#[derive(Clone, Copy, Debug, PartialEq)]
pub struct Bounds {
    pub min: (F64, F64, F64),
    pub max: (F64, F64, F64),
}

impl Bounds {
    /// Whether the point lies in the box. The faces belong to it.
    pub open spec fn holds(self, x: F64, y: F64, z: F64) -> bool {
        &&& self.min.0.le(x) && x.le(self.max.0)
        &&& self.min.1.le(y) && y.le(self.max.1)
        &&& self.min.2.le(z) && z.le(self.max.2)
    }

    /// Whether the two boxes have a common point; touching is enough.
    pub open spec fn meets(self, other: Bounds) -> bool {
        &&& self.min.0.le(other.max.0) && other.min.0.le(self.max.0)
        &&& self.min.1.le(other.max.1) && other.min.1.le(self.max.1)
        &&& self.min.2.le(other.max.2) && other.min.2.le(self.max.2)
    }

    /// The box grown to the point.
    pub open spec fn extended(self, x: F64, y: F64, z: F64) -> Bounds {
        Bounds {
            min: (self.min.0.lower(x), self.min.1.lower(y), self.min.2.lower(z)),
            max: (self.max.0.upper(x), self.max.1.upper(y), self.max.2.upper(z)),
        }
    }

    pub fn new(min: (F64, F64, F64), max: (F64, F64, F64)) -> (r: Bounds)
        ensures
            r == (Bounds { min, max }),
    {
        Bounds { min, max }
    }

    /// The box that is one point.
    pub fn point(x: F64, y: F64, z: F64) -> (r: Bounds)
        ensures
            r == (Bounds { min: (x, y, z), max: (x, y, z) }),
    {
        Bounds { min: (x, y, z), max: (x, y, z) }
    }

    /// Grows the box to the point.
    pub fn extend(&mut self, x: F64, y: F64, z: F64)
        ensures
            *final(self) == old(self).extended(x, y, z),
    {
        self.min = (self.min.0.min(x), self.min.1.min(y), self.min.2.min(z));
        self.max = (self.max.0.max(x), self.max.1.max(y), self.max.2.max(z));
    }

    pub fn contains_xyz(self, x: F64, y: F64, z: F64) -> (r: bool)
        ensures
            r == self.holds(x, y, z),
    {
        self.min.0.is_at_most(x) && x.is_at_most(self.max.0) && self.min.1.is_at_most(y)
            && y.is_at_most(self.max.1) && self.min.2.is_at_most(z) && z.is_at_most(self.max.2)
    }

    pub fn intersects(self, other: Bounds) -> (r: bool)
        ensures
            r == self.meets(other),
    {
        self.min.0.is_at_most(other.max.0) && other.min.0.is_at_most(self.max.0)
            && self.min.1.is_at_most(other.max.1) && other.min.1.is_at_most(self.max.1)
            && self.min.2.is_at_most(other.max.2) && other.min.2.is_at_most(self.max.2)
    }
}

/// Growing a box keeps what it held and adds the point.
pub proof fn law_extend(b: Bounds, x: F64, y: F64, z: F64, px: F64, py: F64, pz: F64)
    requires
        !x.nan() && !y.nan() && !z.nan(),
    ensures
        b.holds(px, py, pz) ==> b.extended(x, y, z).holds(px, py, pz),
        b.holds(px, py, pz) ==> b.extended(x, y, z).holds(x, y, z),
{
}

/// Two boxes that hold the same point meet.
pub proof fn law_common_point(a: Bounds, b: Bounds, x: F64, y: F64, z: F64)
    requires
        a.holds(x, y, z),
        b.holds(x, y, z),
    ensures
        a.meets(b),
        b.meets(a),
{
}

/// A box holds a point just where on no axis the point lies below the lower corner or above
/// the upper one, and no number is missing.
pub proof fn law_inside_on_every_axis(b: Bounds, x: F64, y: F64, z: F64)
    requires
        !b.min.0.nan() && !b.min.1.nan() && !b.min.2.nan(),
        !b.max.0.nan() && !b.max.1.nan() && !b.max.2.nan(),
    ensures
        b.holds(x, y, z) <==> {
            &&& !x.nan() && !y.nan() && !z.nan()
            &&& !x.lt(b.min.0) && !b.max.0.lt(x)
            &&& !y.lt(b.min.1) && !b.max.1.lt(y)
            &&& !z.lt(b.min.2) && !b.max.2.lt(z)
        },
{
}

/// Two boxes are apart just where their ranges are on some axis.
pub proof fn law_apart_on_some_axis(a: Bounds, b: Bounds)
    requires
        !a.min.0.nan() && !a.min.1.nan() && !a.min.2.nan(),
        !a.max.0.nan() && !a.max.1.nan() && !a.max.2.nan(),
        !b.min.0.nan() && !b.min.1.nan() && !b.min.2.nan(),
        !b.max.0.nan() && !b.max.1.nan() && !b.max.2.nan(),
    ensures
        !a.meets(b) <==> {
            ||| a.max.0.lt(b.min.0) || b.max.0.lt(a.min.0)
            ||| a.max.1.lt(b.min.1) || b.max.1.lt(a.min.1)
            ||| a.max.2.lt(b.min.2) || b.max.2.lt(a.min.2)
        },
        a.meets(b) <==> b.meets(a),
{
}

/// Boxes that meet have a point in common, and one with missing numbers holds and meets
/// nothing.
pub proof fn law_meeting_boxes_share_a_point(a: Bounds, b: Bounds)
    ensures
        a.meets(b) && a.holds(a.min.0, a.min.1, a.min.2) && b.holds(b.min.0, b.min.1, b.min.2)
            ==> {
            let x = a.min.0.upper(b.min.0);
            let y = a.min.1.upper(b.min.1);
            let z = a.min.2.upper(b.min.2);
            a.holds(x, y, z) && b.holds(x, y, z)
        },
        a.min.0.nan() || a.min.1.nan() || a.min.2.nan() || a.max.0.nan() || a.max.1.nan()
            || a.max.2.nan() ==> !a.meets(b) && !b.meets(a) && !a.holds(
            b.min.0,
            b.min.1,
            b.min.2,
        ),
{
}

/// A box grows no further than it must: a box that holds the corners and the point holds the
/// corners of the grown box too.
pub proof fn law_extend_is_least(b: Bounds, c: Bounds, x: F64, y: F64, z: F64)
    requires
        c.holds(b.min.0, b.min.1, b.min.2),
        c.holds(b.max.0, b.max.1, b.max.2),
        c.holds(x, y, z),
    ensures
        c.holds(
            b.extended(x, y, z).min.0,
            b.extended(x, y, z).min.1,
            b.extended(x, y, z).min.2,
        ),
        c.holds(
            b.extended(x, y, z).max.0,
            b.extended(x, y, z).max.1,
            b.extended(x, y, z).max.2,
        ),
{
}

} // verus!
