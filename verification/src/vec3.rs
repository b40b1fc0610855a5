//! Integer 3-vectors.

use vstd::prelude::*;

verus! {

/// Unsigned 32-bit 3-vector.
#[derive(Debug, Clone, Copy, PartialEq, Eq, Hash, Structural)]
pub struct UVec3 {
    pub x: u32,
    pub y: u32,
    pub z: u32,
}

impl UVec3 {
    /// The vector `(x, y, z)`.
    pub fn new(x: u32, y: u32, z: u32) -> (v: Self)
        ensures
            v == (UVec3 { x, y, z }),
    {
        UVec3 { x, y, z }
    }

    /// The vector with every component equal to `v`.
    pub fn splat(v: u32) -> (r: Self)
        ensures
            r == (UVec3 { x: v, y: v, z: v }),
    {
        UVec3 { x: v, y: v, z: v }
    }
}

/// Three signed 32-bit coordinates.
#[derive(Debug, Clone, Copy, PartialEq, Eq, Hash, Structural)]
pub struct IVec3 {
    pub x: i32,
    pub y: i32,
    pub z: i32,
}

impl IVec3 {
    /// The vector `(x, y, z)`.
    pub fn new(x: i32, y: i32, z: i32) -> (v: Self)
        ensures
            v == (IVec3 { x, y, z }),
    {
        IVec3 { x, y, z }
    }
}

/// Three signed 64-bit coordinates.
#[derive(Debug, Clone, Copy, PartialEq, Eq, Hash, Structural)]
pub struct I64Vec3 {
    pub x: i64,
    pub y: i64,
    pub z: i64,
}

impl I64Vec3 {
    /// The vector `(x, y, z)`.
    pub fn new(x: i64, y: i64, z: i64) -> (v: Self)
        ensures
            v == (I64Vec3 { x, y, z }),
    {
        I64Vec3 { x, y, z }
    }
}

/// Three values of one type, such as physical coordinates.
#[derive(Debug)]
pub struct Vec3<S> {
    pub x: S,
    pub y: S,
    pub z: S,
}

impl<S: Copy> Clone for Vec3<S> {
    fn clone(&self) -> (r: Self)
        ensures
            r == *self,
    {
        *self
    }
}

impl<S: Copy> Copy for Vec3<S> {

}

} // verus!
