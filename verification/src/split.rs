//! Primitive splitting: tighten a primitive's box against a split plane.
//!
//! The box-only policy clips the primitive's existing bounding box at the
//! split position along one axis: cheap and always safe. Re-clipping the
//! actual geometry is a separate, optional policy left to the caller.

use vstd::prelude::*;
use crate::aabb::{Aabb, IVec3};

verus! {

/// The part of `b` on the lower side of the plane `axis = position`.
pub open spec fn split_left_spec(b: Aabb, dimension: int, position: int) -> Aabb {
    Aabb {
        min: b.min,
        max: IVec3 {
            x: if dimension == 0 {
                position as i32
            } else {
                b.max.x
            },
            y: if dimension == 1 {
                position as i32
            } else {
                b.max.y
            },
            z: if dimension == 2 {
                position as i32
            } else {
                b.max.z
            },
        },
    }
}

/// The part of `b` on the upper side of the plane `axis = position`.
pub open spec fn split_right_spec(b: Aabb, dimension: int, position: int) -> Aabb {
    Aabb {
        min: IVec3 {
            x: if dimension == 0 {
                position as i32
            } else {
                b.min.x
            },
            y: if dimension == 1 {
                position as i32
            } else {
                b.min.y
            },
            z: if dimension == 2 {
                position as i32
            } else {
                b.min.z
            },
        },
        max: b.max,
    }
}

/// Split a primitive's bounding box at `position` along `dimension`:
/// the left half keeps the lower corner, the right half the upper one.
/// When the position lies inside a valid box, the two halves are valid
/// and union back exactly to the original box.
pub fn split_primitive(prim_bounds: &Aabb, dimension: u32, position: i32) -> (r: (Aabb, Aabb))
    requires
        dimension < 3,
    ensures
        r.0 == split_left_spec(*prim_bounds, dimension as int, position as int),
        r.1 == split_right_spec(*prim_bounds, dimension as int, position as int),
        ({
            let dim = dimension as int;
            let lo = if dim == 0 {
                prim_bounds.min.x
            } else if dim == 1 {
                prim_bounds.min.y
            } else {
                prim_bounds.min.z
            };
            let hi = if dim == 0 {
                prim_bounds.max.x
            } else if dim == 1 {
                prim_bounds.max.y
            } else {
                prim_bounds.max.z
            };
            prim_bounds.valid() && lo <= position <= hi ==> {
                &&& r.0.valid()
                &&& r.1.valid()
                &&& r.0.union_spec(r.1) == *prim_bounds
            }
        }),
{
    let mut left = *prim_bounds;
    let mut right = *prim_bounds;
    if dimension == 0 {
        left.max.x = position;
        right.min.x = position;
    } else if dimension == 1 {
        left.max.y = position;
        right.min.y = position;
    } else {
        left.max.z = position;
        right.min.z = position;
    }
    (left, right)
}

} // verus!
