//! Vectors, rays, intervals and hit records.
//!
//! Scene geometry (ray origins and directions, sphere centers, rectangle
//! bounds) lives on a bounded integer grid: a `Vec3` has `i64` components no
//! larger than [`MAX_COORD`] in magnitude.  Quantities derived from a ray
//! parameter are exact rationals gathered in an [`RVec3`].  The bounds keep
//! every intermediate product of the intersection formulas inside 64 or 128
//! bits, so all arithmetic is exact.

use vstd::prelude::*;

use crate::rat::Rat;

verus! {

/// Largest magnitude of a grid coordinate, radius, or direction component.
pub const MAX_COORD: i64 = 100_000;

/// Largest magnitude of the numerator of a hit parameter `t`.
pub const T_NUM_BOUND: i64 = 1_000_000_000_000;

/// Largest denominator of a hit parameter `t`.
pub const T_DEN_BOUND: i64 = 100_000_000_000;

/// A point or direction on the integer grid.
#[derive(Clone, Copy, Debug)]
pub struct Vec3 {
    pub x: i64,
    pub y: i64,
    pub z: i64,
}

impl Vec3 {
    /// Component along coordinate axis `i` (0 = x, 1 = y, 2 = z).
    pub open spec fn spec_axis(self, i: int) -> int {
        if i == 0 {
            self.x as int
        } else if i == 1 {
            self.y as int
        } else {
            self.z as int
        }
    }

    /// All components within the grid bound.
    pub open spec fn in_range(self) -> bool {
        &&& -MAX_COORD <= self.x <= MAX_COORD
        &&& -MAX_COORD <= self.y <= MAX_COORD
        &&& -MAX_COORD <= self.z <= MAX_COORD
    }

    pub fn new(x: i64, y: i64, z: i64) -> (r: Vec3)
        requires
            true,
        ensures
            r == (Vec3 { x, y, z }),
    {
        Vec3 { x, y, z }
    }

    /// The zero vector.
    pub fn zero() -> (r: Vec3)
        requires
            true,
        ensures
            r == (Vec3 { x: 0i64, y: 0i64, z: 0i64 }),
    {
        Vec3 { x: 0, y: 0, z: 0 }
    }

    /// Component along axis `i`.
    pub fn axis(&self, i: usize) -> (r: i64)
        requires
            i < 3,
        ensures
            r as int == self.spec_axis(i as int),
    {
        if i == 0 {
            self.x
        } else if i == 1 {
            self.y
        } else {
            self.z
        }
    }
}

/// The dot product of two grid vectors.
pub open spec fn spec_dot(a: Vec3, b: Vec3) -> int {
    a.x * b.x + a.y * b.y + a.z * b.z
}

/// A triple of exact rationals: a derived point or a surface normal.
#[derive(Clone, Copy, Debug)]
pub struct RVec3 {
    pub x: Rat,
    pub y: Rat,
    pub z: Rat,
}

impl RVec3 {
    /// Component along coordinate axis `i`.
    pub open spec fn spec_axis(self, i: int) -> Rat {
        if i == 0 {
            self.x
        } else if i == 1 {
            self.y
        } else {
            self.z
        }
    }

    pub open spec fn wf(self) -> bool {
        self.x.wf() && self.y.wf() && self.z.wf()
    }

    pub fn new(x: Rat, y: Rat, z: Rat) -> (r: RVec3)
        requires
            true,
        ensures
            r == (RVec3 { x, y, z }),
    {
        RVec3 { x, y, z }
    }

    /// Component along axis `i`.
    pub fn axis(&self, i: usize) -> (r: Rat)
        requires
            i < 3,
        ensures
            r == self.spec_axis(i as int),
    {
        if i == 0 {
            self.x
        } else if i == 1 {
            self.y
        } else {
            self.z
        }
    }

    /// The grid point `(x, y, z)` as a rational triple.
    pub fn from_ints(x: i64, y: i64, z: i64) -> (r: RVec3)
        requires
            true,
        ensures
            r == (RVec3 { x: Rat { num: x, den: 1 }, y: Rat { num: y, den: 1 }, z: Rat { num: z, den: 1 } }),
            r.wf(),
    {
        RVec3 { x: Rat::from_int(x), y: Rat::from_int(y), z: Rat::from_int(z) }
    }
}

/// A ray: all points `origin + t * direction` for `t` in some interval.
/// The direction need not be unit length and may have zero components.
#[derive(Clone, Copy, Debug)]
pub struct Ray {
    pub origin: Vec3,
    pub direction: Vec3,
}

impl Ray {
    pub open spec fn in_range(self) -> bool {
        self.origin.in_range() && self.direction.in_range()
    }

    pub fn new(origin: Vec3, direction: Vec3) -> (r: Ray)
        requires
            true,
        ensures
            r == (Ray { origin, direction }),
    {
        Ray { origin, direction }
    }
}

/// A hit parameter within the magnitude bounds produced by the primitives.
pub open spec fn t_bounded(t: Rat) -> bool {
    &&& -T_NUM_BOUND <= t.num <= T_NUM_BOUND
    &&& 0 < t.den <= T_DEN_BOUND
}

/// The exact point `origin + t * direction`, all three components over the
/// common denominator `t.den`.
pub open spec fn spec_ray_point(ray: Ray, t: Rat) -> RVec3 {
    RVec3 {
        x: Rat {
            num: (ray.origin.x * t.den + t.num * ray.direction.x) as i64,
            den: t.den,
        },
        y: Rat {
            num: (ray.origin.y * t.den + t.num * ray.direction.y) as i64,
            den: t.den,
        },
        z: Rat {
            num: (ray.origin.z * t.den + t.num * ray.direction.z) as i64,
            den: t.den,
        },
    }
}

impl Ray {
    /// The point the ray reaches at parameter `t`.
    pub fn at(&self, t: &Rat) -> (r: RVec3)
        requires
            self.in_range(),
            t.wf(),
            t_bounded(*t),
        ensures
            r == spec_ray_point(*self, *t),
            r.wf(),
    {
        proof {
            crate::rat::lemma_abs_mul_le(self.origin.x as int, t.den as int, MAX_COORD as int, T_DEN_BOUND as int);
            crate::rat::lemma_abs_mul_le(self.origin.y as int, t.den as int, MAX_COORD as int, T_DEN_BOUND as int);
            crate::rat::lemma_abs_mul_le(self.origin.z as int, t.den as int, MAX_COORD as int, T_DEN_BOUND as int);
            crate::rat::lemma_abs_mul_le(t.num as int, self.direction.x as int, T_NUM_BOUND as int, MAX_COORD as int);
            crate::rat::lemma_abs_mul_le(t.num as int, self.direction.y as int, T_NUM_BOUND as int, MAX_COORD as int);
            crate::rat::lemma_abs_mul_le(t.num as int, self.direction.z as int, T_NUM_BOUND as int, MAX_COORD as int);
        }
        RVec3 {
            x: Rat { num: self.origin.x * t.den + t.num * self.direction.x, den: t.den },
            y: Rat { num: self.origin.y * t.den + t.num * self.direction.y, den: t.den },
            z: Rat { num: self.origin.z * t.den + t.num * self.direction.z, den: t.den },
        }
    }
}

/// The open scalar interval `(min, max)` of acceptable hit parameters.
/// Both ends are exclusive.
#[derive(Clone, Copy, Debug)]
pub struct Interval {
    pub min: Rat,
    pub max: Rat,
}

impl Interval {
    pub open spec fn wf(self) -> bool {
        self.min.wf() && self.max.wf()
    }

    /// `t` lies strictly inside the interval.
    pub open spec fn spec_contains(self, t: Rat) -> bool {
        self.min.spec_lt(t) && t.spec_lt(self.max)
    }

    pub fn new(min: Rat, max: Rat) -> (r: Interval)
        requires
            min.wf(),
            max.wf(),
        ensures
            r == (Interval { min, max }),
            r.wf(),
    {
        Interval { min, max }
    }
}

/// The result of a successful intersection query.
#[derive(Clone, Copy, Debug)]
pub struct HitRecord {
    /// Ray parameter of the intersection, strictly inside the query interval.
    pub t: Rat,
    /// The intersection point `origin + t * direction`.
    pub point: RVec3,
    /// Unit outward normal, flipped so that it opposes the ray direction.
    pub normal: RVec3,
    /// Whether the ray met the geometric (outward) side of the surface.
    pub front_face: bool,
    /// Opaque reference to the material of the surface that was hit.
    pub material: Option<usize>,
}

impl HitRecord {
    pub open spec fn wf(self) -> bool {
        &&& self.t.wf()
        &&& t_bounded(self.t)
        &&& self.point.wf()
        &&& self.normal.wf()
    }

    /// Whether this hit is strictly closer to the ray origin than `other`.
    pub fn is_closer_than(&self, other: &HitRecord) -> (r: bool)
        requires
            true,
        ensures
            r == self.t.spec_lt(other.t),
    {
        self.t.lt(&other.t)
    }
}

} // verus!
