//! Ray/geometry intersection core for an offline renderer.
//!
//! Given a ray and a scene of geometric primitives, the library finds the
//! nearest valid intersection together with the surface data needed for
//! shading.  It provides axis-aligned bounding volumes with an exact slab
//! test, a closed set of primitives (sphere, three axis-aligned rectangle
//! orientations, a cuboid of six faces), linear-scan lists, and a bounding
//! volume hierarchy whose traversal provably returns the same nearest hit as
//! a brute-force scan over the same objects.
//!
//! All geometry is exact: scene coordinates live on a bounded integer grid
//! and every derived quantity is an exact rational, so intersection decisions
//! are free of rounding surprises.

use vstd::prelude::*;

pub mod rat;
pub mod vec3;
pub mod hittables;
pub mod bounding_volume;

verus! {

/// Clamp `num` into the closed range `[min, max]`.
pub fn clamp(num: i32, min: i32, max: i32) -> (r: i32)
    requires
        min <= max,
    ensures
        r == if num < min {
            min
        } else if num > max {
            max
        } else {
            num
        },
        min <= r <= max,
{
    if num < min {
        min
    } else if num > max {
        max
    } else {
        num
    }
}

} // verus!
