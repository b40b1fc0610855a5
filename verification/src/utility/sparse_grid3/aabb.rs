//! Half-open unsigned axis-aligned boxes.

use vstd::prelude::*;

use crate::vec3::UVec3;

verus! {

/// Half-open unsigned 3D axis-aligned box: `[min, max)`.
#[derive(Debug, Clone, Copy, PartialEq, Eq, Hash, Structural)]
pub struct Aabb3u {
    pub min: UVec3,
    pub max: UVec3,
}

/// `a + b`, capped at the largest `u32`.
pub open spec fn saturated_sum(a: u32, b: u32) -> u32 {
    if a + b > u32::MAX {
        u32::MAX
    } else {
        (a + b) as u32
    }
}

/// `a - b`, or zero where `b` is larger.
pub open spec fn truncated_difference(a: u32, b: u32) -> u32 {
    if a < b {
        0
    } else {
        (a - b) as u32
    }
}

impl Aabb3u {
    /// The set of points of the box, as a predicate.
    pub open spec fn has(self, p: UVec3) -> bool {
        &&& self.min.x <= p.x < self.max.x
        &&& self.min.y <= p.y < self.max.y
        &&& self.min.z <= p.z < self.max.z
    }

    /// True when the box holds no point.
    pub open spec fn vacant(self) -> bool {
        self.max.x <= self.min.x || self.max.y <= self.min.y || self.max.z <= self.min.z
    }

    /// Edge lengths, zero along every inverted axis.
    pub open spec fn edges(self) -> UVec3 {
        UVec3 {
            x: truncated_difference(self.max.x, self.min.x),
            y: truncated_difference(self.max.y, self.min.y),
            z: truncated_difference(self.max.z, self.min.z),
        }
    }

    /// Number of points in the box.
    pub open spec fn volume(self) -> nat {
        self.edges().x as nat * self.edges().y as nat * self.edges().z as nat
    }

    /// The box `[min, max)`.
    pub fn new(min: UVec3, max: UVec3) -> (r: Self)
        ensures
            r == (Aabb3u { min, max }),
    {
        Aabb3u { min, max }
    }

    /// The box of edge lengths `extent` at `min`, cut off at the largest coordinate.
    pub fn from_min_extent(min: UVec3, extent: UVec3) -> (r: Self)
        ensures
            r.min == min,
            r.max.x == saturated_sum(min.x, extent.x),
            r.max.y == saturated_sum(min.y, extent.y),
            r.max.z == saturated_sum(min.z, extent.z),
    {
        Aabb3u {
            min,
            max: UVec3::new(
                min.x.saturating_add(extent.x),
                min.y.saturating_add(extent.y),
                min.z.saturating_add(extent.z),
            ),
        }
    }

    /// The box `[0, bounds)`.
    pub fn full_grid(bounds: UVec3) -> (r: Self)
        ensures
            r.min == (UVec3 { x: 0, y: 0, z: 0 }),
            r.max == bounds,
    {
        Aabb3u { min: UVec3::new(0, 0, 0), max: bounds }
    }

    /// Edge lengths of the box.
    pub fn extent(self) -> (e: UVec3)
        ensures
            e == self.edges(),
    {
        UVec3::new(
            self.max.x.saturating_sub(self.min.x),
            self.max.y.saturating_sub(self.min.y),
            self.max.z.saturating_sub(self.min.z),
        )
    }

    /// True when the box holds no point.
    pub fn is_empty(self) -> (b: bool)
        ensures
            b == self.vacant(),
            b <==> forall|p: UVec3| !self.has(p),
    {
        proof {
            if !self.vacant() {
                assert(self.has(self.min));
            }
        }
        self.max.x <= self.min.x || self.max.y <= self.min.y || self.max.z <= self.min.z
    }

    /// True when `p` lies in the box.
    pub fn contains_point(self, p: UVec3) -> (b: bool)
        ensures
            b == self.has(p),
    {
        p.x >= self.min.x && p.y >= self.min.y && p.z >= self.min.z && p.x < self.max.x && p.y
            < self.max.y && p.z < self.max.z
    }

    /// The points that two boxes share, or `None` when they share none.
    pub fn intersect(self, other: Self) -> (r: Option<Self>)
        ensures
            r matches Some(c) ==> !c.vacant() && (forall|p: UVec3|
                c.has(p) <==> self.has(p) && other.has(p)),
            r is None <==> forall|p: UVec3| !(self.has(p) && other.has(p)),
            r matches Some(c) ==> {
                &&& c.min.x == if self.min.x >= other.min.x { self.min.x } else { other.min.x }
                &&& c.min.y == if self.min.y >= other.min.y { self.min.y } else { other.min.y }
                &&& c.min.z == if self.min.z >= other.min.z { self.min.z } else { other.min.z }
                &&& c.max.x == if self.max.x <= other.max.x { self.max.x } else { other.max.x }
                &&& c.max.y == if self.max.y <= other.max.y { self.max.y } else { other.max.y }
                &&& c.max.z == if self.max.z <= other.max.z { self.max.z } else { other.max.z }
            },
    {
        let min = UVec3::new(
            larger(self.min.x, other.min.x),
            larger(self.min.y, other.min.y),
            larger(self.min.z, other.min.z),
        );
        let max = UVec3::new(
            smaller(self.max.x, other.max.x),
            smaller(self.max.y, other.max.y),
            smaller(self.max.z, other.max.z),
        );
        let out = Aabb3u { min, max };
        if out.is_empty() {
            proof {
                assert forall|p: UVec3| !(self.has(p) && other.has(p)) by {
                    assert(!out.has(p));
                }
            }
            None
        } else {
            proof {
                assert(self.has(out.min) && other.has(out.min));
            }
            Some(out)
        }
    }

    /// Returns the AABB volume as `usize`, or `None` if it does not fit.
    pub fn volume_usize(self) -> (v: Option<usize>)
        ensures
            v == if self.volume() <= usize::MAX {
                Some(self.volume() as usize)
            } else {
                None
            },
    {
        let e = self.extent();
        proof {
            let (x, y, z) = (e.x as nat, e.y as nat, e.z as nat);
            assert(self.vacant() ==> x * y * z == 0) by (nonlinear_arith)
                requires
                    self.vacant() ==> x == 0 || y == 0 || z == 0,
            ;
            assert(z >= 1 ==> x * y <= x * y * z) by (nonlinear_arith)
                requires
                    x >= 0,
                    y >= 0,
            ;
        }
        if self.is_empty() {
            return Some(0);
        }
        match usize::checked_mul(e.x as usize, e.y as usize) {
            Some(xy) => xy.checked_mul(e.z as usize),
            None => None,
        }
    }
}

/// The larger of two coordinates.
pub fn larger(a: u32, b: u32) -> (r: u32)
    ensures
        r == if a >= b { a } else { b },
{
    if a >= b {
        a
    } else {
        b
    }
}

/// The smaller of two coordinates.
pub fn smaller(a: u32, b: u32) -> (r: u32)
    ensures
        r == if a <= b { a } else { b },
{
    if a <= b {
        a
    } else {
        b
    }
}

} // verus!
