//! Axis-aligned bounding boxes over fixed-point integer coordinates.
//!
//! A box is either componentwise ordered (`min <= max`, "valid") or the
//! designated empty sentinel, which acts as the identity of `union`.

use vstd::prelude::*;

verus! {

/// A three-component vector of fixed-point integer coordinates.
#[derive(Clone, Copy, PartialEq, Eq, Structural, Debug)]
pub struct IVec3 {
    pub x: i32,
    pub y: i32,
    pub z: i32,
}

/// An axis-aligned bounding box: the componentwise interval `[min, max]`.
#[derive(Clone, Copy, PartialEq, Eq, Structural, Debug)]
pub struct Aabb {
    pub min: IVec3,
    pub max: IVec3,
}

pub open spec fn spec_min(a: int, b: int) -> int {
    if a <= b {
        a
    } else {
        b
    }
}

pub open spec fn spec_max(a: int, b: int) -> int {
    if a >= b {
        a
    } else {
        b
    }
}

fn min_i32(a: i32, b: i32) -> (r: i32)
    ensures
        r == spec_min(a as int, b as int),
{
    if a <= b {
        a
    } else {
        b
    }
}

fn max_i32(a: i32, b: i32) -> (r: i32)
    ensures
        r == spec_max(a as int, b as int),
{
    if a >= b {
        a
    } else {
        b
    }
}

impl IVec3 {
    pub fn new(x: i32, y: i32, z: i32) -> (v: IVec3)
        ensures
            v == (IVec3 { x, y, z }),
    {
        IVec3 { x, y, z }
    }
}

impl Aabb {
    /// True when every axis is ordered, `min <= max`.
    pub open spec fn valid(self) -> bool {
        self.min.x <= self.max.x && self.min.y <= self.max.y && self.min.z <= self.max.z
    }

    /// Componentwise containment: every point of `inner` lies in `self`.
    pub open spec fn contains_box(self, inner: Aabb) -> bool {
        &&& self.min.x <= inner.min.x && inner.max.x <= self.max.x
        &&& self.min.y <= inner.min.y && inner.max.y <= self.max.y
        &&& self.min.z <= inner.min.z && inner.max.z <= self.max.z
    }

    pub open spec fn union_spec(self, other: Aabb) -> Aabb {
        Aabb {
            min: IVec3 {
                x: spec_min(self.min.x as int, other.min.x as int) as i32,
                y: spec_min(self.min.y as int, other.min.y as int) as i32,
                z: spec_min(self.min.z as int, other.min.z as int) as i32,
            },
            max: IVec3 {
                x: spec_max(self.max.x as int, other.max.x as int) as i32,
                y: spec_max(self.max.y as int, other.max.y as int) as i32,
                z: spec_max(self.max.z as int, other.max.z as int) as i32,
            },
        }
    }

    pub open spec fn intersection_spec(self, other: Aabb) -> Aabb {
        Aabb {
            min: IVec3 {
                x: spec_max(self.min.x as int, other.min.x as int) as i32,
                y: spec_max(self.min.y as int, other.min.y as int) as i32,
                z: spec_max(self.min.z as int, other.min.z as int) as i32,
            },
            max: IVec3 {
                x: spec_min(self.max.x as int, other.max.x as int) as i32,
                y: spec_min(self.max.y as int, other.max.y as int) as i32,
                z: spec_min(self.max.z as int, other.max.z as int) as i32,
            },
        }
    }

    /// The empty sentinel, identity element of `union`.
    pub fn invalid() -> (r: Aabb)
        ensures
            r == Aabb::invalid_spec(),
    {
        Aabb {
            min: IVec3 { x: i32::MAX, y: i32::MAX, z: i32::MAX },
            max: IVec3 { x: -i32::MAX, y: -i32::MAX, z: -i32::MAX },
        }
    }

    pub open spec fn invalid_spec() -> Aabb {
        Aabb {
            min: IVec3 { x: i32::MAX, y: i32::MAX, z: i32::MAX },
            max: IVec3 { x: (-i32::MAX) as i32, y: (-i32::MAX) as i32, z: (-i32::MAX) as i32 },
        }
    }

    /// Componentwise union; with the sentinel as the other operand this is
    /// the identity.
    pub fn union(&self, other: &Aabb) -> (r: Aabb)
        ensures
            r == self.union_spec(*other),
    {
        Aabb {
            min: IVec3 {
                x: min_i32(self.min.x, other.min.x),
                y: min_i32(self.min.y, other.min.y),
                z: min_i32(self.min.z, other.min.z),
            },
            max: IVec3 {
                x: max_i32(self.max.x, other.max.x),
                y: max_i32(self.max.y, other.max.y),
                z: max_i32(self.max.z, other.max.z),
            },
        }
    }

    /// Componentwise intersection.
    pub fn intersection(&self, other: &Aabb) -> (r: Aabb)
        ensures
            r == self.intersection_spec(*other),
    {
        Aabb {
            min: IVec3 {
                x: max_i32(self.min.x, other.min.x),
                y: max_i32(self.min.y, other.min.y),
                z: max_i32(self.min.z, other.min.z),
            },
            max: IVec3 {
                x: min_i32(self.max.x, other.max.x),
                y: min_i32(self.max.y, other.max.y),
                z: min_i32(self.max.z, other.max.z),
            },
        }
    }

    /// The center of a valid box, rounded toward `min` on each axis.
    pub fn center(&self) -> (c: IVec3)
        requires
            self.valid(),
        ensures
            c.x == self.min.x + (self.max.x - self.min.x) / 2,
            c.y == self.min.y + (self.max.y - self.min.y) / 2,
            c.z == self.min.z + (self.max.z - self.min.z) / 2,
    {
        let dx = (self.max.x as i64 - self.min.x as i64) / 2;
        let dy = (self.max.y as i64 - self.min.y as i64) / 2;
        let dz = (self.max.z as i64 - self.min.z as i64) / 2;
        IVec3 {
            x: (self.min.x as i64 + dx) as i32,
            y: (self.min.y as i64 + dy) as i32,
            z: (self.min.z as i64 + dz) as i32,
        }
    }

    /// Executable validity test.
    pub fn is_valid(&self) -> (r: bool)
        ensures
            r == self.valid(),
    {
        self.min.x <= self.max.x && self.min.y <= self.max.y && self.min.z <= self.max.z
    }
}

} // verus!
