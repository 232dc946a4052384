//! Bounding boxes, geometric primitives and linear-scan lists.
//!
//! The slab test on [`BoundingBoxStruct`] is exact: instead of dividing by a
//! direction component it compares the per-axis entry and exit parameters as
//! cross-multiplied fractions, so a zero direction component is an ordinary
//! case (the axis constrains the ray iff the origin lies between the slabs)
//! rather than a special value.

use vstd::prelude::*;

use crate::rat::Rat;
use crate::rat::lemma_abs_mul_le;
use crate::rat::lemma_frac_le_lt_trans;
use crate::rat::lemma_frac_lt_le_trans;
use crate::vec3::Vec3;
use crate::vec3::RVec3;
use crate::vec3::Ray;
use crate::vec3::Interval;
use crate::vec3::HitRecord;
use crate::vec3::MAX_COORD;
use crate::vec3::T_NUM_BOUND;
use crate::vec3::T_DEN_BOUND;
use crate::vec3::spec_ray_point;

verus! {

/// Largest magnitude of a bounding-box corner numerator.
pub const BOX_NUM_BOUND: i64 = 1_000_000_000_000;

/// Largest bounding-box corner denominator.
pub const BOX_DEN_BOUND: i64 = 1_000_000;

/// A corner coordinate small enough for the exact slab arithmetic.
pub open spec fn corner_ok(c: Rat) -> bool {
    &&& c.wf()
    &&& -BOX_NUM_BOUND <= c.num <= BOX_NUM_BOUND
    &&& c.den <= BOX_DEN_BOUND
}

/// All three components of a corner are well-formed and bounded.
pub open spec fn corners_ok(v: RVec3) -> bool {
    corner_ok(v.x) && corner_ok(v.y) && corner_ok(v.z)
}

/// The smaller of two rationals (the first on ties).
pub open spec fn rat_min(a: Rat, b: Rat) -> Rat {
    if a.spec_le(b) {
        a
    } else {
        b
    }
}

/// The larger of two rationals (the second on ties).
pub open spec fn rat_max(a: Rat, b: Rat) -> Rat {
    if a.spec_le(b) {
        b
    } else {
        a
    }
}

/// The componentwise union of two boxes.
pub open spec fn spec_surrounding(a: BoundingBoxStruct, b: BoundingBoxStruct) -> BoundingBoxStruct {
    BoundingBoxStruct {
        min_corner: RVec3 {
            x: rat_min(a.min_corner.x, b.min_corner.x),
            y: rat_min(a.min_corner.y, b.min_corner.y),
            z: rat_min(a.min_corner.z, b.min_corner.z),
        },
        max_corner: RVec3 {
            x: rat_max(a.max_corner.x, b.max_corner.x),
            y: rat_max(a.max_corner.y, b.max_corner.y),
            z: rat_max(a.max_corner.z, b.max_corner.z),
        },
    }
}

/// An axis-aligned box, described by its componentwise-minimal and
/// componentwise-maximal corners.
#[derive(Clone, Copy, Debug)]
pub struct BoundingBoxStruct {
    pub min_corner: RVec3,
    pub max_corner: RVec3,
}

/// `outer` contains `inner`: on every axis the outer corners bracket the
/// inner ones.
pub open spec fn box_contains_box(outer: BoundingBoxStruct, inner: BoundingBoxStruct) -> bool {
    &&& outer.min_corner.x.spec_le(inner.min_corner.x)
    &&& outer.min_corner.y.spec_le(inner.min_corner.y)
    &&& outer.min_corner.z.spec_le(inner.min_corner.z)
    &&& inner.max_corner.x.spec_le(outer.max_corner.x)
    &&& inner.max_corner.y.spec_le(outer.max_corner.y)
    &&& inner.max_corner.z.spec_le(outer.max_corner.z)
}

impl BoundingBoxStruct {
    /// Both corners bounded, well-formed, and ordered on every axis.
    pub open spec fn wf(self) -> bool {
        &&& corners_ok(self.min_corner)
        &&& corners_ok(self.max_corner)
        &&& self.min_corner.x.spec_le(self.max_corner.x)
        &&& self.min_corner.y.spec_le(self.max_corner.y)
        &&& self.min_corner.z.spec_le(self.max_corner.z)
    }

    /// Build a box from two arbitrary opposite corners, normalizing each axis
    /// by taking the componentwise minimum and maximum.
    pub fn new(corner_a: RVec3, corner_b: RVec3) -> (r: BoundingBoxStruct)
        requires
            corners_ok(corner_a),
            corners_ok(corner_b),
        ensures
            r.wf(),
            r.min_corner == (RVec3 {
                x: rat_min(corner_a.x, corner_b.x),
                y: rat_min(corner_a.y, corner_b.y),
                z: rat_min(corner_a.z, corner_b.z),
            }),
            r.max_corner == (RVec3 {
                x: rat_max(corner_a.x, corner_b.x),
                y: rat_max(corner_a.y, corner_b.y),
                z: rat_max(corner_a.z, corner_b.z),
            }),
    {
        let min_corner = RVec3 {
            x: rmin(&corner_a.x, &corner_b.x),
            y: rmin(&corner_a.y, &corner_b.y),
            z: rmin(&corner_a.z, &corner_b.z),
        };
        let max_corner = RVec3 {
            x: rmax(&corner_a.x, &corner_b.x),
            y: rmax(&corner_a.y, &corner_b.y),
            z: rmax(&corner_a.z, &corner_b.z),
        };
        BoundingBoxStruct { min_corner, max_corner }
    }

    /// The smallest box containing both arguments: per-axis minimum of the
    /// minimal corners and maximum of the maximal corners.
    pub fn surrounding(box_a: BoundingBoxStruct, box_b: BoundingBoxStruct) -> (r: BoundingBoxStruct)
        requires
            box_a.wf(),
            box_b.wf(),
        ensures
            r.wf(),
            box_contains_box(r, box_a),
            box_contains_box(r, box_b),
            r == spec_surrounding(box_a, box_b),
            r.min_corner == (RVec3 {
                x: rat_min(box_a.min_corner.x, box_b.min_corner.x),
                y: rat_min(box_a.min_corner.y, box_b.min_corner.y),
                z: rat_min(box_a.min_corner.z, box_b.min_corner.z),
            }),
            r.max_corner == (RVec3 {
                x: rat_max(box_a.max_corner.x, box_b.max_corner.x),
                y: rat_max(box_a.max_corner.y, box_b.max_corner.y),
                z: rat_max(box_a.max_corner.z, box_b.max_corner.z),
            }),
    {
        proof {
            lemma_surround_axis(
                box_a.min_corner.x, box_a.max_corner.x, box_b.min_corner.x, box_b.max_corner.x,
            );
            lemma_surround_axis(
                box_a.min_corner.y, box_a.max_corner.y, box_b.min_corner.y, box_b.max_corner.y,
            );
            lemma_surround_axis(
                box_a.min_corner.z, box_a.max_corner.z, box_b.min_corner.z, box_b.max_corner.z,
            );
        }
        let min_corner = RVec3 {
            x: rmin(&box_a.min_corner.x, &box_b.min_corner.x),
            y: rmin(&box_a.min_corner.y, &box_b.min_corner.y),
            z: rmin(&box_a.min_corner.z, &box_b.min_corner.z),
        };
        let max_corner = RVec3 {
            x: rmax(&box_a.max_corner.x, &box_b.max_corner.x),
            y: rmax(&box_a.max_corner.y, &box_b.max_corner.y),
            z: rmax(&box_a.max_corner.z, &box_b.max_corner.z),
        };
        BoundingBoxStruct { min_corner, max_corner }
    }

    /// A box is its own bounding volume.
    pub fn bounding_volume(self) -> (r: BoundingBoxStruct)
        requires
            true,
        ensures
            r == self,
    {
        self
    }
}

/// The smaller of two rationals, chosen by exact comparison.
fn rmin(a: &Rat, b: &Rat) -> (r: Rat)
    requires
        true,
    ensures
        r == rat_min(*a, *b),
{
    if a.le(b) {
        *a
    } else {
        *b
    }
}

/// The larger of two rationals, chosen by exact comparison.
fn rmax(a: &Rat, b: &Rat) -> (r: Rat)
    requires
        true,
    ensures
        r == rat_max(*a, *b),
{
    if a.le(b) {
        *b
    } else {
        *a
    }
}

/// On one axis: the union's lower corner stays at or below its upper corner.
proof fn lemma_surround_axis(amn: Rat, amx: Rat, bmn: Rat, bmx: Rat)
    requires
        amn.wf(),
        amx.wf(),
        bmn.wf(),
        bmx.wf(),
        amn.spec_le(amx),
        bmn.spec_le(bmx),
    ensures
        rat_min(amn, bmn).spec_le(rat_max(amx, bmx)),
{
    let mn = rat_min(amn, bmn);
    let mx = rat_max(amx, bmx);
    if amn.spec_le(bmn) {
        // mn == amn
        if amx.spec_le(bmx) {
            crate::rat::lemma_frac_le_trans(
                amn.num as int, amn.den as int,
                amx.num as int, amx.den as int,
                bmx.num as int, bmx.den as int,
            );
        }
    } else {
        // mn == bmn
        if amx.spec_le(bmx) {
        } else {
            crate::rat::lemma_frac_le_trans(
                bmn.num as int, bmn.den as int,
                bmx.num as int, bmx.den as int,
                amx.num as int, amx.den as int,
            );
        }
    }
}

/// Containment of boxes is transitive.
pub proof fn lemma_contains_trans(a: BoundingBoxStruct, b: BoundingBoxStruct, c: BoundingBoxStruct)
    requires
        a.min_corner.wf(),
        a.max_corner.wf(),
        b.min_corner.wf(),
        b.max_corner.wf(),
        c.min_corner.wf(),
        c.max_corner.wf(),
        box_contains_box(a, b),
        box_contains_box(b, c),
    ensures
        box_contains_box(a, c),
{
    lemma_contains_trans_axis(a.min_corner.x, b.min_corner.x, c.min_corner.x);
    lemma_contains_trans_axis(a.min_corner.y, b.min_corner.y, c.min_corner.y);
    lemma_contains_trans_axis(a.min_corner.z, b.min_corner.z, c.min_corner.z);
    lemma_contains_trans_axis(c.max_corner.x, b.max_corner.x, a.max_corner.x);
    lemma_contains_trans_axis(c.max_corner.y, b.max_corner.y, a.max_corner.y);
    lemma_contains_trans_axis(c.max_corner.z, b.max_corner.z, a.max_corner.z);
}

/// Transitivity of the componentwise order, on one axis.
proof fn lemma_contains_trans_axis(a: Rat, b: Rat, c: Rat)
    requires
        a.wf(),
        b.wf(),
        c.wf(),
        a.spec_le(b),
        b.spec_le(c),
    ensures
        a.spec_le(c),
{
    crate::rat::lemma_frac_le_trans(
        a.num as int, a.den as int,
        b.num as int, b.den as int,
        c.num as int, c.den as int,
    );
}

/// Direction component of `r` along axis `i`.
pub open spec fn dirc(r: Ray, i: int) -> int {
    r.direction.spec_axis(i)
}

/// Origin component of `r` along axis `i`.
pub open spec fn oric(r: Ray, i: int) -> int {
    r.origin.spec_axis(i)
}

/// `n1/d1 < n2/d2` for positive denominators, by cross-multiplication.
pub open spec fn frac_lt(n1: int, d1: int, n2: int, d2: int) -> bool {
    n1 * d2 < n2 * d1
}

/// `n1/d1 <= n2/d2` for positive denominators, by cross-multiplication.
pub open spec fn frac_le(n1: int, d1: int, n2: int, d2: int) -> bool {
    n1 * d2 <= n2 * d1
}

/// Numerator of the parameter at which the ray enters the axis-`i` slab.
/// For a negative direction the roles of the two slab planes swap.
pub open spec fn alo_num(b: BoundingBoxStruct, r: Ray, i: int) -> int {
    if dirc(r, i) > 0 {
        b.min_corner.spec_axis(i).num - oric(r, i) * b.min_corner.spec_axis(i).den
    } else {
        oric(r, i) * b.max_corner.spec_axis(i).den - b.max_corner.spec_axis(i).num
    }
}

/// Denominator of the slab entry parameter (positive when `dirc != 0`).
pub open spec fn alo_den(b: BoundingBoxStruct, r: Ray, i: int) -> int {
    if dirc(r, i) > 0 {
        b.min_corner.spec_axis(i).den * dirc(r, i)
    } else {
        b.max_corner.spec_axis(i).den * (-dirc(r, i))
    }
}

/// Numerator of the parameter at which the ray leaves the axis-`i` slab.
pub open spec fn ahi_num(b: BoundingBoxStruct, r: Ray, i: int) -> int {
    if dirc(r, i) > 0 {
        b.max_corner.spec_axis(i).num - oric(r, i) * b.max_corner.spec_axis(i).den
    } else {
        oric(r, i) * b.min_corner.spec_axis(i).den - b.min_corner.spec_axis(i).num
    }
}

/// Denominator of the slab exit parameter (positive when `dirc != 0`).
pub open spec fn ahi_den(b: BoundingBoxStruct, r: Ray, i: int) -> int {
    if dirc(r, i) > 0 {
        b.max_corner.spec_axis(i).den * dirc(r, i)
    } else {
        b.min_corner.spec_axis(i).den * (-dirc(r, i))
    }
}

/// A ray parallel to axis `i` overlaps the slab iff its origin lies between
/// the two slab planes.
pub open spec fn parallel_inside(b: BoundingBoxStruct, r: Ray, i: int) -> bool {
    &&& b.min_corner.spec_axis(i).num <= oric(r, i) * b.min_corner.spec_axis(i).den
    &&& oric(r, i) * b.max_corner.spec_axis(i).den <= b.max_corner.spec_axis(i).num
}

/// The exact slab test: the ray overlaps the box somewhere strictly inside
/// the open interval.  Equivalently: on every axis parallel to the ray the
/// origin lies between the slabs, and the supremum of all entry parameters
/// (including `interval.min`) is strictly below the infimum of all exit
/// parameters (including `interval.max`).
pub open spec fn slab_accept(b: BoundingBoxStruct, r: Ray, itv: Interval) -> bool {
    &&& (forall|i: int| 0 <= i < 3 && #[trigger] dirc(r, i) == 0 ==> parallel_inside(b, r, i))
    &&& itv.min.spec_lt(itv.max)
    &&& (forall|i: int|
        0 <= i < 3 && #[trigger] dirc(r, i) != 0 ==> frac_lt(
            itv.min.num as int,
            itv.min.den as int,
            ahi_num(b, r, i),
            ahi_den(b, r, i),
        ) && frac_lt(alo_num(b, r, i), alo_den(b, r, i), itv.max.num as int, itv.max.den as int))
    &&& (forall|i: int, j: int|
        0 <= i < 3 && 0 <= j < 3 && #[trigger] dirc(r, i) != 0 && #[trigger] dirc(r, j) != 0
            ==> frac_lt(alo_num(b, r, i), alo_den(b, r, i), ahi_num(b, r, j), ahi_den(b, r, j)))
}

/// `t` is `interval.min` or one of the slab entry parameters of an axis
/// below `k` that is not parallel to the ray.
spec fn is_lower(b: BoundingBoxStruct, r: Ray, itv: Interval, k: int, t: Rat) -> bool {
    ||| t == itv.min
    ||| exists|i: int|
        0 <= i < k && #[trigger] dirc(r, i) != 0 && t.num == alo_num(b, r, i) && t.den == alo_den(
            b,
            r,
            i,
        )
}

/// `t` is `interval.max` or one of the slab exit parameters of an axis below
/// `k` that is not parallel to the ray.
spec fn is_upper(b: BoundingBoxStruct, r: Ray, itv: Interval, k: int, t: Rat) -> bool {
    ||| t == itv.max
    ||| exists|i: int|
        0 <= i < k && #[trigger] dirc(r, i) != 0 && t.num == ahi_num(b, r, i) && t.den == ahi_den(
            b,
            r,
            i,
        )
}

/// A product of positive integers is positive.
proof fn lemma_pos_mul_pos(a: int, b: int)
    by (nonlinear_arith)
    requires
        a > 0,
        b > 0,
    ensures
        a * b > 0,
{
}

/// Slab entry/exit parameters of one axis, as exact fractions with positive
/// denominators.
fn axis_bounds(mn: &Rat, mx: &Rat, o: i64, d: i64) -> (res: (Rat, Rat))
    requires
        corner_ok(*mn),
        corner_ok(*mx),
        -MAX_COORD <= o <= MAX_COORD,
        -MAX_COORD <= d <= MAX_COORD,
        d != 0,
    ensures
        res.0.wf(),
        res.1.wf(),
        d > 0 ==> res.0.num == mn.num - o * mn.den && res.0.den == mn.den * d && res.1.num
            == mx.num - o * mx.den && res.1.den == mx.den * d,
        d < 0 ==> res.0.num == o * mx.den - mx.num && res.0.den == mx.den * (-d) && res.1.num
            == o * mn.den - mn.num && res.1.den == mn.den * (-d),
{
    proof {
        lemma_abs_mul_le(o as int, mn.den as int, MAX_COORD as int, BOX_DEN_BOUND as int);
        lemma_abs_mul_le(o as int, mx.den as int, MAX_COORD as int, BOX_DEN_BOUND as int);
        lemma_abs_mul_le(mn.den as int, d as int, BOX_DEN_BOUND as int, MAX_COORD as int);
        lemma_abs_mul_le(mx.den as int, d as int, BOX_DEN_BOUND as int, MAX_COORD as int);
        lemma_abs_mul_le(mn.den as int, -(d as int), BOX_DEN_BOUND as int, MAX_COORD as int);
        lemma_abs_mul_le(mx.den as int, -(d as int), BOX_DEN_BOUND as int, MAX_COORD as int);
        lemma_pos_mul_pos(mn.den as int, if d > 0 { d as int } else { -(d as int) });
        lemma_pos_mul_pos(mx.den as int, if d > 0 { d as int } else { -(d as int) });
    }
    if d > 0 {
        (Rat { num: mn.num - o * mn.den, den: mn.den * d }, Rat {
            num: mx.num - o * mx.den,
            den: mx.den * d,
        })
    } else {
        (Rat { num: o * mx.den - mx.num, den: mx.den * (-d) }, Rat {
            num: o * mn.den - mn.num,
            den: mn.den * (-d),
        })
    }
}

impl BoundingBoxStruct {
    /// The slab test: does the ray overlap this box anywhere strictly inside
    /// the open interval?  Purely an existence test; no hit record results.
    pub fn hit(&self, ray: &Ray, interval: &Interval) -> (res: bool)
        requires
            self.wf(),
            ray.in_range(),
            interval.wf(),
        ensures
            res == slab_accept(*self, *ray, *interval),
    {
        let mut tmin = interval.min;
        let mut tmax = interval.max;
        let mut k: usize = 0;
        while k < 3
        invariant
            k <= 3,
            self.wf(),
            ray.in_range(),
            interval.wf(),
            tmin.wf(),
            tmax.wf(),
            is_lower(*self, *ray, *interval, k as int, tmin),
            is_upper(*self, *ray, *interval, k as int, tmax),
            frac_le(interval.min.num as int, interval.min.den as int, tmin.num as int, tmin.den as int),
            frac_le(tmax.num as int, tmax.den as int, interval.max.num as int, interval.max.den as int),
            forall|i: int|
                0 <= i < k && #[trigger] dirc(*ray, i) == 0 ==> parallel_inside(*self, *ray, i),
            forall|i: int|
                0 <= i < k && #[trigger] dirc(*ray, i) != 0 ==> frac_le(
                    alo_num(*self, *ray, i),
                    alo_den(*self, *ray, i),
                    tmin.num as int,
                    tmin.den as int,
                ) && frac_le(
                    tmax.num as int,
                    tmax.den as int,
                    ahi_num(*self, *ray, i),
                    ahi_den(*self, *ray, i),
                ),
            k > 0 ==> frac_lt(tmin.num as int, tmin.den as int, tmax.num as int, tmax.den as int),
        decreases 3 - k,
        {
            let ghost prev_min = tmin;
            let ghost prev_max = tmax;
            let d = ray.direction.axis(k);
            let o = ray.origin.axis(k);
            let mn = self.min_corner.axis(k);
            let mx = self.max_corner.axis(k);
            if d == 0 {
                let orat = Rat::from_int(o);
                if !(mn.le(&orat) && orat.le(&mx)) {
                    proof {
                        assert(mn == self.min_corner.spec_axis(k as int));
                        assert(mx == self.max_corner.spec_axis(k as int));
                        assert(o as int == oric(*ray, k as int));
                        assert(!(mn.spec_le(orat) && orat.spec_le(mx)));
                        assert(mn.spec_le(orat) == (mn.num * 1 <= o * mn.den));
                        assert(orat.spec_le(mx) == (o * mx.den <= mx.num * 1));
                        assert(!parallel_inside(*self, *ray, k as int));
                        assert(dirc(*ray, k as int) == 0);
                    }
                    return false;
                }
            } else {
                let (lo, hi) = axis_bounds(&mn, &mx, o, d);
                proof {
                    assert(lo.num == alo_num(*self, *ray, k as int));
                    assert(lo.den == alo_den(*self, *ray, k as int));
                    assert(hi.num == ahi_num(*self, *ray, k as int));
                    assert(hi.den == ahi_den(*self, *ray, k as int));
                }
                if tmin.lt(&lo) {
                    tmin = lo;
                    proof {
                        crate::rat::lemma_frac_le_trans(
                            interval.min.num as int, interval.min.den as int,
                            prev_min.num as int, prev_min.den as int,
                            tmin.num as int, tmin.den as int,
                        );
                        assert forall|i: int|
                            0 <= i < k && #[trigger] dirc(*ray, i) != 0 implies frac_le(
                            alo_num(*self, *ray, i),
                            alo_den(*self, *ray, i),
                            tmin.num as int,
                            tmin.den as int,
                        ) by {
                            lemma_pos_mul_pos(
                                if dirc(*ray, i) > 0 { self.min_corner.spec_axis(i).den as int } else { self.max_corner.spec_axis(i).den as int },
                                if dirc(*ray, i) > 0 { dirc(*ray, i) } else { -dirc(*ray, i) },
                            );
                            crate::rat::lemma_frac_le_trans(
                                alo_num(*self, *ray, i), alo_den(*self, *ray, i),
                                prev_min.num as int, prev_min.den as int,
                                tmin.num as int, tmin.den as int,
                            );
                        }
                    }
                }
                if hi.lt(&tmax) {
                    tmax = hi;
                    proof {
                        crate::rat::lemma_frac_le_trans(
                            tmax.num as int, tmax.den as int,
                            prev_max.num as int, prev_max.den as int,
                            interval.max.num as int, interval.max.den as int,
                        );
                        assert forall|i: int|
                            0 <= i < k && #[trigger] dirc(*ray, i) != 0 implies frac_le(
                            tmax.num as int,
                            tmax.den as int,
                            ahi_num(*self, *ray, i),
                            ahi_den(*self, *ray, i),
                        ) by {
                            lemma_pos_mul_pos(
                                if dirc(*ray, i) > 0 { self.max_corner.spec_axis(i).den as int } else { self.min_corner.spec_axis(i).den as int },
                                if dirc(*ray, i) > 0 { dirc(*ray, i) } else { -dirc(*ray, i) },
                            );
                            crate::rat::lemma_frac_le_trans(
                                tmax.num as int, tmax.den as int,
                                prev_max.num as int, prev_max.den as int,
                                ahi_num(*self, *ray, i), ahi_den(*self, *ray, i),
                            );
                        }
                    }
                }
            }
            if tmax.le(&tmin) {
                proof {
                    lemma_not_accept(*self, *ray, *interval, (k + 1) as int, tmin, tmax);
                }
                return false;
            }
            k = k + 1;
        }
        proof {
            lemma_accept(*self, *ray, *interval, tmin, tmax);
        }
        true
    }
}

/// If some recorded lower bound is at or above some recorded upper bound,
/// the slab test must reject.
proof fn lemma_not_accept(
    b: BoundingBoxStruct,
    r: Ray,
    itv: Interval,
    k: int,
    tmin: Rat,
    tmax: Rat,
)
    requires
        k <= 3,
        is_lower(b, r, itv, k, tmin),
        is_upper(b, r, itv, k, tmax),
        frac_le(tmax.num as int, tmax.den as int, tmin.num as int, tmin.den as int),
    ensures
        !slab_accept(b, r, itv),
{
    if slab_accept(b, r, itv) {
        if tmin == itv.min {
            if tmax == itv.max {
                assert(itv.min.spec_lt(itv.max));
            } else {
                let j = choose|j: int|
                    0 <= j < k && #[trigger] dirc(r, j) != 0 && tmax.num == ahi_num(b, r, j)
                        && tmax.den == ahi_den(b, r, j);
                assert(frac_lt(itv.min.num as int, itv.min.den as int, ahi_num(b, r, j), ahi_den(b, r, j)));
            }
        } else {
            let i = choose|i: int|
                0 <= i < k && #[trigger] dirc(r, i) != 0 && tmin.num == alo_num(b, r, i)
                    && tmin.den == alo_den(b, r, i);
            if tmax == itv.max {
                assert(frac_lt(alo_num(b, r, i), alo_den(b, r, i), itv.max.num as int, itv.max.den as int));
            } else {
                let j = choose|j: int|
                    0 <= j < k && #[trigger] dirc(r, j) != 0 && tmax.num == ahi_num(b, r, j)
                        && tmax.den == ahi_den(b, r, j);
                assert(frac_lt(alo_num(b, r, i), alo_den(b, r, i), ahi_num(b, r, j), ahi_den(b, r, j)));
            }
        }
    }
}

/// After all three axes tightened the running interval and it is still
/// nonempty, the slab test accepts.
proof fn lemma_accept(b: BoundingBoxStruct, r: Ray, itv: Interval, tmin: Rat, tmax: Rat)
    requires
        b.wf(),
        r.in_range(),
        itv.wf(),
        tmin.wf(),
        tmax.wf(),
        is_lower(b, r, itv, 3, tmin),
        is_upper(b, r, itv, 3, tmax),
        frac_le(itv.min.num as int, itv.min.den as int, tmin.num as int, tmin.den as int),
        frac_le(tmax.num as int, tmax.den as int, itv.max.num as int, itv.max.den as int),
        forall|i: int| 0 <= i < 3 && #[trigger] dirc(r, i) == 0 ==> parallel_inside(b, r, i),
        forall|i: int|
            0 <= i < 3 && #[trigger] dirc(r, i) != 0 ==> frac_le(
                alo_num(b, r, i),
                alo_den(b, r, i),
                tmin.num as int,
                tmin.den as int,
            ) && frac_le(tmax.num as int, tmax.den as int, ahi_num(b, r, i), ahi_den(b, r, i)),
        frac_lt(tmin.num as int, tmin.den as int, tmax.num as int, tmax.den as int),
    ensures
        slab_accept(b, r, itv),
{
    assert(itv.min.spec_lt(itv.max)) by {
        lemma_frac_le_lt_trans(
            itv.min.num as int, itv.min.den as int,
            tmin.num as int, tmin.den as int,
            tmax.num as int, tmax.den as int,
        );
        lemma_frac_lt_le_trans(
            itv.min.num as int, itv.min.den as int,
            tmax.num as int, tmax.den as int,
            itv.max.num as int, itv.max.den as int,
        );
    }
    assert forall|i: int| 0 <= i < 3 && #[trigger] dirc(r, i) != 0 implies frac_lt(
        itv.min.num as int,
        itv.min.den as int,
        ahi_num(b, r, i),
        ahi_den(b, r, i),
    ) && frac_lt(alo_num(b, r, i), alo_den(b, r, i), itv.max.num as int, itv.max.den as int) by {
        lemma_axis_den_pos(b, r, i);
        lemma_frac_le_lt_trans(
            itv.min.num as int, itv.min.den as int,
            tmin.num as int, tmin.den as int,
            tmax.num as int, tmax.den as int,
        );
        lemma_frac_lt_le_trans(
            itv.min.num as int, itv.min.den as int,
            tmax.num as int, tmax.den as int,
            ahi_num(b, r, i), ahi_den(b, r, i),
        );
        lemma_frac_le_lt_trans(
            alo_num(b, r, i), alo_den(b, r, i),
            tmin.num as int, tmin.den as int,
            tmax.num as int, tmax.den as int,
        );
        lemma_frac_lt_le_trans(
            alo_num(b, r, i), alo_den(b, r, i),
            tmax.num as int, tmax.den as int,
            itv.max.num as int, itv.max.den as int,
        );
    }
    assert forall|i: int, j: int|
        0 <= i < 3 && 0 <= j < 3 && #[trigger] dirc(r, i) != 0 && #[trigger] dirc(r, j)
            != 0 implies frac_lt(
        alo_num(b, r, i),
        alo_den(b, r, i),
        ahi_num(b, r, j),
        ahi_den(b, r, j),
    ) by {
        lemma_axis_den_pos(b, r, i);
        lemma_axis_den_pos(b, r, j);
        lemma_frac_le_lt_trans(
            alo_num(b, r, i), alo_den(b, r, i),
            tmin.num as int, tmin.den as int,
            tmax.num as int, tmax.den as int,
        );
        lemma_frac_lt_le_trans(
            alo_num(b, r, i), alo_den(b, r, i),
            tmax.num as int, tmax.den as int,
            ahi_num(b, r, j), ahi_den(b, r, j),
        );
    }
}

/// The slab parameters of a non-parallel axis have positive denominators.
proof fn lemma_axis_den_pos(b: BoundingBoxStruct, r: Ray, i: int)
    requires
        b.wf(),
        0 <= i < 3,
        dirc(r, i) != 0,
    ensures
        alo_den(b, r, i) > 0,
        ahi_den(b, r, i) > 0,
{
    assert(corner_ok(b.min_corner.spec_axis(i)) && corner_ok(b.max_corner.spec_axis(i)));
    if dirc(r, i) > 0 {
        lemma_pos_mul_pos(b.min_corner.spec_axis(i).den as int, dirc(r, i));
        lemma_pos_mul_pos(b.max_corner.spec_axis(i).den as int, dirc(r, i));
    } else {
        lemma_pos_mul_pos(b.max_corner.spec_axis(i).den as int, -dirc(r, i));
        lemma_pos_mul_pos(b.min_corner.spec_axis(i).den as int, -dirc(r, i));
    }
}


/// A sphere: all points at distance `radius` from `center`.
#[derive(Clone, Copy, Debug)]
pub struct SphereStruct {
    pub center: Vec3,
    pub radius: i64,
    pub material: usize,
}

/// A square is never negative.
proof fn lemma_square_nonneg(x: int)
    by (nonlinear_arith)
    ensures
        x * x >= 0,
{
}

impl SphereStruct {
    pub open spec fn wf(self) -> bool {
        &&& self.center.in_range()
        &&& 0 < self.radius <= MAX_COORD
    }

    pub fn new(center: Vec3, radius: i64, material: usize) -> (r: SphereStruct)
        requires
            true,
        ensures
            r == (SphereStruct { center, radius, material }),
    {
        SphereStruct { center, radius, material }
    }

    /// The tight axis-aligned box around the sphere: `center +- radius` on
    /// every axis.
    pub open spec fn spec_bounding_volume(self) -> BoundingBoxStruct {
        BoundingBoxStruct {
            min_corner: RVec3 {
                x: Rat { num: (self.center.x - self.radius) as i64, den: 1 },
                y: Rat { num: (self.center.y - self.radius) as i64, den: 1 },
                z: Rat { num: (self.center.z - self.radius) as i64, den: 1 },
            },
            max_corner: RVec3 {
                x: Rat { num: (self.center.x + self.radius) as i64, den: 1 },
                y: Rat { num: (self.center.y + self.radius) as i64, den: 1 },
                z: Rat { num: (self.center.z + self.radius) as i64, den: 1 },
            },
        }
    }

    pub fn bounding_volume(&self) -> (r: BoundingBoxStruct)
        requires
            self.wf(),
        ensures
            r == self.spec_bounding_volume(),
            r.wf(),
    {
        BoundingBoxStruct {
            min_corner: RVec3::from_ints(
                self.center.x - self.radius,
                self.center.y - self.radius,
                self.center.z - self.radius,
            ),
            max_corner: RVec3::from_ints(
                self.center.x + self.radius,
                self.center.y + self.radius,
                self.center.z + self.radius,
            ),
        }
    }

    /// The hit record for parameter `t`: the point on the ray, the outward
    /// normal `(point - center) / radius`, flipped to oppose the ray.
    pub open spec fn spec_record(self, ray: Ray, t: Rat) -> HitRecord {
        let p = spec_ray_point(ray, t);
        let nden = (t.den * self.radius) as i64;
        let nx = (p.x.num - self.center.x * t.den) as i64;
        let ny = (p.y.num - self.center.y * t.den) as i64;
        let nz = (p.z.num - self.center.z * t.den) as i64;
        let dsign = ray.direction.x * nx + ray.direction.y * ny + ray.direction.z * nz;
        let front = dsign < 0;
        let normal = if front {
            RVec3 { x: Rat { num: nx, den: nden }, y: Rat { num: ny, den: nden }, z: Rat { num: nz, den: nden } }
        } else {
            RVec3 {
                x: Rat { num: (-nx) as i64, den: nden },
                y: Rat { num: (-ny) as i64, den: nden },
                z: Rat { num: (-nz) as i64, den: nden },
            }
        };
        HitRecord { t, point: p, normal, front_face: front, material: Some(self.material) }
    }

    /// Solve `a t^2 + b t + c = 0` for the ray/sphere contact parameters and
    /// take the nearer root inside the open interval, then the farther one.
    /// The reported parameter uses the integer square root of the
    /// discriminant (exact whenever the discriminant is a perfect square); a
    /// negative discriminant, or a degenerate zero direction, is a miss.
    pub open spec fn spec_hit(self, ray: Ray, itv: Interval) -> Option<HitRecord> {
        let ocx = ray.origin.x - self.center.x;
        let ocy = ray.origin.y - self.center.y;
        let ocz = ray.origin.z - self.center.z;
        let a = ray.direction.x * ray.direction.x + ray.direction.y * ray.direction.y
            + ray.direction.z * ray.direction.z;
        let b = 2 * (ocx * ray.direction.x + ocy * ray.direction.y + ocz * ray.direction.z);
        let c = ocx * ocx + ocy * ocy + ocz * ocz - self.radius * self.radius;
        let disc = b * b - 4 * (a * c);
        if a == 0 || disc < 0 {
            None::<HitRecord>
        } else {
            let sq = crate::rat::spec_isqrt(disc);
            let t1 = Rat { num: (-b - sq) as i64, den: (2 * a) as i64 };
            if itv.spec_contains(t1) {
                Some(self.spec_record(ray, t1))
            } else {
                let t2 = Rat { num: (-b + sq) as i64, den: (2 * a) as i64 };
                if itv.spec_contains(t2) {
                    Some(self.spec_record(ray, t2))
                } else {
                    None::<HitRecord>
                }
            }
        }
    }
}

/// Bounds on the quadratic coefficients and the root parameters of a
/// ray/sphere query; in particular both candidate roots are `t_bounded`.
proof fn lemma_sphere_coeffs(s: SphereStruct, ray: Ray)
    requires
        s.wf(),
        ray.in_range(),
    ensures
        ({
            let ocx = ray.origin.x - s.center.x;
            let ocy = ray.origin.y - s.center.y;
            let ocz = ray.origin.z - s.center.z;
            let a = ray.direction.x * ray.direction.x + ray.direction.y * ray.direction.y
                + ray.direction.z * ray.direction.z;
            let b = 2 * (ocx * ray.direction.x + ocy * ray.direction.y + ocz * ray.direction.z);
            let c = ocx * ocx + ocy * ocy + ocz * ocz - s.radius * s.radius;
            let disc = b * b - 4 * (a * c);
            &&& 0 <= a <= 30_000_000_000
            &&& -120_000_000_000 <= b <= 120_000_000_000
            &&& -10_000_000_000 <= c <= 130_000_000_000
            &&& disc <= 30_000_000_000_000_000_000_000
            &&& (disc >= 0 ==> 0 <= crate::rat::spec_isqrt(disc) <= 180_000_000_000
                && crate::rat::spec_isqrt(disc) * crate::rat::spec_isqrt(disc) <= disc)
        }),
{
    let ocx = ray.origin.x - s.center.x;
    let ocy = ray.origin.y - s.center.y;
    let ocz = ray.origin.z - s.center.z;
    let dx = ray.direction.x as int;
    let dy = ray.direction.y as int;
    let dz = ray.direction.z as int;
    lemma_abs_mul_le(dx, dx, MAX_COORD as int, MAX_COORD as int);
    lemma_abs_mul_le(dy, dy, MAX_COORD as int, MAX_COORD as int);
    lemma_abs_mul_le(dz, dz, MAX_COORD as int, MAX_COORD as int);
    lemma_square_nonneg(dx);
    lemma_square_nonneg(dy);
    lemma_square_nonneg(dz);
    lemma_abs_mul_le(ocx as int, dx, 2 * MAX_COORD as int, MAX_COORD as int);
    lemma_abs_mul_le(ocy as int, dy, 2 * MAX_COORD as int, MAX_COORD as int);
    lemma_abs_mul_le(ocz as int, dz, 2 * MAX_COORD as int, MAX_COORD as int);
    lemma_abs_mul_le(ocx as int, ocx as int, 2 * MAX_COORD as int, 2 * MAX_COORD as int);
    lemma_abs_mul_le(ocy as int, ocy as int, 2 * MAX_COORD as int, 2 * MAX_COORD as int);
    lemma_abs_mul_le(ocz as int, ocz as int, 2 * MAX_COORD as int, 2 * MAX_COORD as int);
    lemma_square_nonneg(ocx as int);
    lemma_square_nonneg(ocy as int);
    lemma_square_nonneg(ocz as int);
    lemma_abs_mul_le(s.radius as int, s.radius as int, MAX_COORD as int, MAX_COORD as int);
    lemma_square_nonneg(s.radius as int);
    let a = dx * dx + dy * dy + dz * dz;
    let b = 2 * ((ocx as int) * dx + (ocy as int) * dy + (ocz as int) * dz);
    let c = (ocx as int) * (ocx as int) + (ocy as int) * (ocy as int) + (ocz as int) * (ocz as int)
        - (s.radius as int) * (s.radius as int);
    lemma_abs_mul_le(b, b, 120_000_000_000, 120_000_000_000);
    lemma_abs_mul_le(a, c, 30_000_000_000, 130_000_000_000);
    let disc = b * b - 4 * (a * c);
    if disc >= 0 {
        crate::rat::lemma_isqrt_bounds(disc);
        let sq = crate::rat::spec_isqrt(disc);
        assert(sq <= 180_000_000_000) by (nonlinear_arith)
            requires
                sq >= 0,
                sq * sq <= 30_000_000_000_000_000_000_000int,
        ;
    }
}

/// The record a sphere builds for a bounded parameter is well-formed and
/// geometrically tied to the ray.
proof fn lemma_sphere_record_wf(s: SphereStruct, ray: Ray, t: Rat)
    requires
        s.wf(),
        ray.in_range(),
        t.wf(),
        crate::vec3::t_bounded(t),
    ensures
        s.spec_record(ray, t).wf(),
        s.spec_record(ray, t).t == t,
        s.spec_record(ray, t).point == spec_ray_point(ray, t),
        s.spec_record(ray, t).material == Some(s.material),
{
    lemma_abs_mul_le(ray.origin.x as int, t.den as int, MAX_COORD as int, T_DEN_BOUND as int);
    lemma_abs_mul_le(ray.origin.y as int, t.den as int, MAX_COORD as int, T_DEN_BOUND as int);
    lemma_abs_mul_le(ray.origin.z as int, t.den as int, MAX_COORD as int, T_DEN_BOUND as int);
    lemma_abs_mul_le(t.num as int, ray.direction.x as int, T_NUM_BOUND as int, MAX_COORD as int);
    lemma_abs_mul_le(t.num as int, ray.direction.y as int, T_NUM_BOUND as int, MAX_COORD as int);
    lemma_abs_mul_le(t.num as int, ray.direction.z as int, T_NUM_BOUND as int, MAX_COORD as int);
    lemma_abs_mul_le(s.center.x as int, t.den as int, MAX_COORD as int, T_DEN_BOUND as int);
    lemma_abs_mul_le(s.center.y as int, t.den as int, MAX_COORD as int, T_DEN_BOUND as int);
    lemma_abs_mul_le(s.center.z as int, t.den as int, MAX_COORD as int, T_DEN_BOUND as int);
    lemma_pos_mul_pos(t.den as int, s.radius as int);
    lemma_abs_mul_le(t.den as int, s.radius as int, T_DEN_BOUND as int, MAX_COORD as int);
}

impl SphereStruct {
    /// Exact ray/sphere intersection over the open interval.
    pub fn hit(&self, ray: &Ray, interval: &Interval) -> (res: Option<HitRecord>)
        requires
            self.wf(),
            ray.in_range(),
            interval.wf(),
        ensures
            res == self.spec_hit(*ray, *interval),
            res matches Some(h) ==> interval.spec_contains(h.t) && h.wf(),
    {
        proof {
            lemma_sphere_coeffs(*self, *ray);
            lemma_abs_mul_le(ray.direction.x as int, ray.direction.x as int, MAX_COORD as int, MAX_COORD as int);
            lemma_abs_mul_le(ray.direction.y as int, ray.direction.y as int, MAX_COORD as int, MAX_COORD as int);
            lemma_abs_mul_le(ray.direction.z as int, ray.direction.z as int, MAX_COORD as int, MAX_COORD as int);
            lemma_abs_mul_le((ray.origin.x - self.center.x) as int, ray.direction.x as int, 2 * MAX_COORD as int, MAX_COORD as int);
            lemma_abs_mul_le((ray.origin.y - self.center.y) as int, ray.direction.y as int, 2 * MAX_COORD as int, MAX_COORD as int);
            lemma_abs_mul_le((ray.origin.z - self.center.z) as int, ray.direction.z as int, 2 * MAX_COORD as int, MAX_COORD as int);
            lemma_abs_mul_le((ray.origin.x - self.center.x) as int, (ray.origin.x - self.center.x) as int, 2 * MAX_COORD as int, 2 * MAX_COORD as int);
            lemma_abs_mul_le((ray.origin.y - self.center.y) as int, (ray.origin.y - self.center.y) as int, 2 * MAX_COORD as int, 2 * MAX_COORD as int);
            lemma_abs_mul_le((ray.origin.z - self.center.z) as int, (ray.origin.z - self.center.z) as int, 2 * MAX_COORD as int, 2 * MAX_COORD as int);
            lemma_abs_mul_le(self.radius as int, self.radius as int, MAX_COORD as int, MAX_COORD as int);
        }
        let ocx = ray.origin.x - self.center.x;
        let ocy = ray.origin.y - self.center.y;
        let ocz = ray.origin.z - self.center.z;
        let a = ray.direction.x * ray.direction.x + ray.direction.y * ray.direction.y
            + ray.direction.z * ray.direction.z;
        let b = 2 * (ocx * ray.direction.x + ocy * ray.direction.y + ocz * ray.direction.z);
        let c = ocx * ocx + ocy * ocy + ocz * ocz - self.radius * self.radius;
        proof {
            lemma_abs_mul_le(a as int, c as int, 30_000_000_000, 130_000_000_000);
            lemma_abs_mul_le(b as int, b as int, 120_000_000_000, 120_000_000_000);
        }
        let disc: i128 = crate::rat::wide_mul(b, b) - 4 * crate::rat::wide_mul(a, c);
        if a == 0 || disc < 0 {
            return None;
        }
        let sq64 = crate::rat::isqrt(disc as u128);
        let sq = sq64 as i64;
        proof {
            crate::rat::lemma_isqrt_bounds(disc as int);
            assert(sq as int == crate::rat::spec_isqrt(disc as int));
            assert(sq <= 180_000_000_000);
        }
        let den2a = 2 * a;
        let t1 = Rat { num: -b - sq, den: den2a };
        if interval.min.lt(&t1) && t1.lt(&interval.max) {
            let rec = self.record_at(ray, t1);
            proof {
                lemma_sphere_record_wf(*self, *ray, t1);
            }
            return Some(rec);
        }
        let t2 = Rat { num: -b + sq, den: den2a };
        if interval.min.lt(&t2) && t2.lt(&interval.max) {
            let rec = self.record_at(ray, t2);
            proof {
                lemma_sphere_record_wf(*self, *ray, t2);
            }
            return Some(rec);
        }
        None
    }

    /// Assemble the hit record for a bounded parameter `t`.
    fn record_at(&self, ray: &Ray, t: Rat) -> (rec: HitRecord)
        requires
            self.wf(),
            ray.in_range(),
            t.wf(),
            crate::vec3::t_bounded(t),
        ensures
            rec == self.spec_record(*ray, t),
    {
        proof {
            lemma_sphere_record_wf(*self, *ray, t);
        }
        let p = ray.at(&t);
        proof {
            lemma_abs_mul_le(ray.origin.x as int, t.den as int, MAX_COORD as int, T_DEN_BOUND as int);
            lemma_abs_mul_le(ray.origin.y as int, t.den as int, MAX_COORD as int, T_DEN_BOUND as int);
            lemma_abs_mul_le(ray.origin.z as int, t.den as int, MAX_COORD as int, T_DEN_BOUND as int);
            lemma_abs_mul_le(t.num as int, ray.direction.x as int, T_NUM_BOUND as int, MAX_COORD as int);
            lemma_abs_mul_le(t.num as int, ray.direction.y as int, T_NUM_BOUND as int, MAX_COORD as int);
            lemma_abs_mul_le(t.num as int, ray.direction.z as int, T_NUM_BOUND as int, MAX_COORD as int);
            lemma_abs_mul_le(self.center.x as int, t.den as int, MAX_COORD as int, T_DEN_BOUND as int);
            lemma_abs_mul_le(self.center.y as int, t.den as int, MAX_COORD as int, T_DEN_BOUND as int);
            lemma_abs_mul_le(self.center.z as int, t.den as int, MAX_COORD as int, T_DEN_BOUND as int);
            lemma_pos_mul_pos(t.den as int, self.radius as int);
            lemma_abs_mul_le(t.den as int, self.radius as int, T_DEN_BOUND as int, MAX_COORD as int);
        }
        let nden = t.den * self.radius;
        let nx = p.x.num - self.center.x * t.den;
        let ny = p.y.num - self.center.y * t.den;
        let nz = p.z.num - self.center.z * t.den;
        proof {
            lemma_abs_mul_le(ray.direction.x as int, nx as int, MAX_COORD as int, 0x7fff_ffff_ffff_ffff);
            lemma_abs_mul_le(ray.direction.y as int, ny as int, MAX_COORD as int, 0x7fff_ffff_ffff_ffff);
            lemma_abs_mul_le(ray.direction.z as int, nz as int, MAX_COORD as int, 0x7fff_ffff_ffff_ffff);
        }
        let dsign = crate::rat::wide_mul(ray.direction.x, nx) + crate::rat::wide_mul(
            ray.direction.y,
            ny,
        ) + crate::rat::wide_mul(ray.direction.z, nz);
        let front = dsign < 0;
        let normal = if front {
            RVec3 { x: Rat { num: nx, den: nden }, y: Rat { num: ny, den: nden }, z: Rat { num: nz, den: nden } }
        } else {
            RVec3 { x: Rat { num: -nx, den: nden }, y: Rat { num: -ny, den: nden }, z: Rat { num: -nz, den: nden } }
        };
        HitRecord { t, point: p, normal, front_face: front, material: Some(self.material) }
    }
}


/// An axis-aligned rectangle in the plane `z = k`, spanning
/// `[x0, x1] x [y0, y1]` in the two in-plane coordinates.
#[derive(Clone, Copy, Debug)]
pub struct XYRectangleStruct {
    pub x0: i64,
    pub x1: i64,
    pub y0: i64,
    pub y1: i64,
    pub k: i64,
    pub material: usize,
}

impl XYRectangleStruct {
    pub open spec fn wf(self) -> bool {
        &&& -MAX_COORD <= self.x0 <= MAX_COORD
        &&& -MAX_COORD <= self.x1 <= MAX_COORD
        &&& -MAX_COORD <= self.y0 <= MAX_COORD
        &&& -MAX_COORD <= self.y1 <= MAX_COORD
        &&& -MAX_COORD <= self.k <= MAX_COORD
        &&& self.x0 <= self.x1
        &&& self.y0 <= self.y1
    }

    /// Build a rectangle, normalizing each bound range to `min <= max`.
    pub fn new(x0: i64, x1: i64, y0: i64, y1: i64, k: i64, material: usize) -> (r: XYRectangleStruct)
        requires
            -MAX_COORD <= x0 <= MAX_COORD,
            -MAX_COORD <= x1 <= MAX_COORD,
            -MAX_COORD <= y0 <= MAX_COORD,
            -MAX_COORD <= y1 <= MAX_COORD,
            -MAX_COORD <= k <= MAX_COORD,
        ensures
            r.wf(),
            r.x0 == if x0 <= x1 { x0 } else { x1 },
            r.x1 == if x0 <= x1 { x1 } else { x0 },
            r.y0 == if y0 <= y1 { y0 } else { y1 },
            r.y1 == if y0 <= y1 { y1 } else { y0 },
            r.k == k,
            r.material == material,
    {
        let amin = if x0 <= x1 { x0 } else { x1 };
        let amax = if x0 <= x1 { x1 } else { x0 };
        let bmin = if y0 <= y1 { y0 } else { y1 };
        let bmax = if y0 <= y1 { y1 } else { y0 };
        XYRectangleStruct { x0: amin, x1: amax, y0: bmin, y1: bmax, k, material }
    }

    /// The record for a plane crossing at parameter `t`: normal along the
    /// fixed axis, flipped to oppose the ray.
    pub open spec fn spec_record(self, ray: Ray, t: Rat) -> HitRecord {
        let p = spec_ray_point(ray, t);
        let front = ray.direction.z < 0;
        let sign: i64 = if front { 1i64 } else { -1i64 };
        HitRecord {
            t,
            point: p,
            normal: RVec3 { x: Rat { num: 0i64, den: 1 }, y: Rat { num: 0i64, den: 1 }, z: Rat { num: sign, den: 1 } },
            front_face: front,
            material: Some(self.material),
        }
    }

    /// Ray/rectangle intersection: the plane crossing parameter must lie
    /// strictly inside the open interval, and the crossing point inside both
    /// bound ranges; a ray parallel to the plane misses.
    pub open spec fn spec_hit(self, ray: Ray, itv: Interval) -> Option<HitRecord> {
        let df = ray.direction.z;
        if df == 0 {
            None::<HitRecord>
        } else {
            let t = if df > 0 {
                Rat { num: (self.k - ray.origin.z) as i64, den: df }
            } else {
                Rat { num: (ray.origin.z - self.k) as i64, den: (-df) as i64 }
            };
            if !itv.spec_contains(t) {
                None::<HitRecord>
            } else {
                let anum = ray.origin.x * t.den + t.num * ray.direction.x;
                let bnum = ray.origin.y * t.den + t.num * ray.direction.y;
                if anum < self.x0 * t.den || anum > self.x1 * t.den || bnum < self.y0 * t.den
                    || bnum > self.y1 * t.den {
                    None::<HitRecord>
                } else {
                    Some(self.spec_record(ray, t))
                }
            }
        }
    }

    /// The box around the rectangle, padded by `1/10000` on the degenerate
    /// fixed axis so it takes part in slab tests.
    pub open spec fn spec_bounding_volume(self) -> BoundingBoxStruct {
        BoundingBoxStruct {
            min_corner: RVec3 { x: Rat { num: self.x0, den: 1 }, y: Rat { num: self.y0, den: 1 }, z: Rat { num: (self.k * 10_000 - 1) as i64, den: 10_000 } },
            max_corner: RVec3 { x: Rat { num: self.x1, den: 1 }, y: Rat { num: self.y1, den: 1 }, z: Rat { num: (self.k * 10_000 + 1) as i64, den: 10_000 } },
        }
    }

    pub fn bounding_volume(&self) -> (r: BoundingBoxStruct)
        requires
            self.wf(),
        ensures
            r == self.spec_bounding_volume(),
            r.wf(),
    {
        proof {
            lemma_abs_mul_le(self.k as int, 10_000, MAX_COORD as int, 10_000);
        }
        let klo = Rat { num: self.k * 10_000 - 1, den: 10_000 };
        let khi = Rat { num: self.k * 10_000 + 1, den: 10_000 };
        BoundingBoxStruct {
            min_corner: RVec3 { x: Rat { num: self.x0, den: 1 }, y: Rat { num: self.y0, den: 1 }, z: klo },
            max_corner: RVec3 { x: Rat { num: self.x1, den: 1 }, y: Rat { num: self.y1, den: 1 }, z: khi },
        }
    }

    /// Exact ray/rectangle intersection over the open interval.
    pub fn hit(&self, ray: &Ray, interval: &Interval) -> (res: Option<HitRecord>)
        requires
            self.wf(),
            ray.in_range(),
            interval.wf(),
        ensures
            res == self.spec_hit(*ray, *interval),
            res matches Some(h) ==> interval.spec_contains(h.t) && h.wf(),
    {
        let df = ray.direction.z;
        if df == 0 {
            return None;
        }
        let t = if df > 0 {
            Rat { num: self.k - ray.origin.z, den: df }
        } else {
            Rat { num: ray.origin.z - self.k, den: -df }
        };
        if !(interval.min.lt(&t) && t.lt(&interval.max)) {
            return None;
        }
        proof {
            lemma_abs_mul_le(ray.origin.x as int, t.den as int, MAX_COORD as int, MAX_COORD as int);
            lemma_abs_mul_le(ray.origin.y as int, t.den as int, MAX_COORD as int, MAX_COORD as int);
            lemma_abs_mul_le(t.num as int, ray.direction.x as int, 2 * MAX_COORD as int, MAX_COORD as int);
            lemma_abs_mul_le(t.num as int, ray.direction.y as int, 2 * MAX_COORD as int, MAX_COORD as int);
            lemma_abs_mul_le(self.x0 as int, t.den as int, MAX_COORD as int, MAX_COORD as int);
            lemma_abs_mul_le(self.x1 as int, t.den as int, MAX_COORD as int, MAX_COORD as int);
            lemma_abs_mul_le(self.y0 as int, t.den as int, MAX_COORD as int, MAX_COORD as int);
            lemma_abs_mul_le(self.y1 as int, t.den as int, MAX_COORD as int, MAX_COORD as int);
        }
        let anum = ray.origin.x * t.den + t.num * ray.direction.x;
        let bnum = ray.origin.y * t.den + t.num * ray.direction.y;
        if anum < self.x0 * t.den || anum > self.x1 * t.den || bnum < self.y0 * t.den || bnum
            > self.y1 * t.den {
            return None;
        }
        proof {
            lemma_abs_mul_le(ray.origin.z as int, t.den as int, MAX_COORD as int, MAX_COORD as int);
            lemma_abs_mul_le(t.num as int, ray.direction.z as int, 2 * MAX_COORD as int, MAX_COORD as int);
        }
        let p = ray.at(&t);
        let front = df < 0;
        let sign: i64 = if front { 1 } else { -1 };
        let rec = HitRecord {
            t,
            point: p,
            normal: RVec3 { x: Rat { num: 0i64, den: 1 }, y: Rat { num: 0i64, den: 1 }, z: Rat { num: sign, den: 1 } },
            front_face: front,
            material: Some(self.material),
        };
        Some(rec)
    }
}

/// An axis-aligned rectangle in the plane `y = k`, spanning
/// `[x0, x1] x [z0, z1]` in the two in-plane coordinates.
#[derive(Clone, Copy, Debug)]
pub struct XZRectangleStruct {
    pub x0: i64,
    pub x1: i64,
    pub z0: i64,
    pub z1: i64,
    pub k: i64,
    pub material: usize,
}

impl XZRectangleStruct {
    pub open spec fn wf(self) -> bool {
        &&& -MAX_COORD <= self.x0 <= MAX_COORD
        &&& -MAX_COORD <= self.x1 <= MAX_COORD
        &&& -MAX_COORD <= self.z0 <= MAX_COORD
        &&& -MAX_COORD <= self.z1 <= MAX_COORD
        &&& -MAX_COORD <= self.k <= MAX_COORD
        &&& self.x0 <= self.x1
        &&& self.z0 <= self.z1
    }

    /// Build a rectangle, normalizing each bound range to `min <= max`.
    pub fn new(x0: i64, x1: i64, z0: i64, z1: i64, k: i64, material: usize) -> (r: XZRectangleStruct)
        requires
            -MAX_COORD <= x0 <= MAX_COORD,
            -MAX_COORD <= x1 <= MAX_COORD,
            -MAX_COORD <= z0 <= MAX_COORD,
            -MAX_COORD <= z1 <= MAX_COORD,
            -MAX_COORD <= k <= MAX_COORD,
        ensures
            r.wf(),
            r.x0 == if x0 <= x1 { x0 } else { x1 },
            r.x1 == if x0 <= x1 { x1 } else { x0 },
            r.z0 == if z0 <= z1 { z0 } else { z1 },
            r.z1 == if z0 <= z1 { z1 } else { z0 },
            r.k == k,
            r.material == material,
    {
        let amin = if x0 <= x1 { x0 } else { x1 };
        let amax = if x0 <= x1 { x1 } else { x0 };
        let bmin = if z0 <= z1 { z0 } else { z1 };
        let bmax = if z0 <= z1 { z1 } else { z0 };
        XZRectangleStruct { x0: amin, x1: amax, z0: bmin, z1: bmax, k, material }
    }

    /// The record for a plane crossing at parameter `t`: normal along the
    /// fixed axis, flipped to oppose the ray.
    pub open spec fn spec_record(self, ray: Ray, t: Rat) -> HitRecord {
        let p = spec_ray_point(ray, t);
        let front = ray.direction.y < 0;
        let sign: i64 = if front { 1i64 } else { -1i64 };
        HitRecord {
            t,
            point: p,
            normal: RVec3 { x: Rat { num: 0i64, den: 1 }, y: Rat { num: sign, den: 1 }, z: Rat { num: 0i64, den: 1 } },
            front_face: front,
            material: Some(self.material),
        }
    }

    /// Ray/rectangle intersection: the plane crossing parameter must lie
    /// strictly inside the open interval, and the crossing point inside both
    /// bound ranges; a ray parallel to the plane misses.
    pub open spec fn spec_hit(self, ray: Ray, itv: Interval) -> Option<HitRecord> {
        let df = ray.direction.y;
        if df == 0 {
            None::<HitRecord>
        } else {
            let t = if df > 0 {
                Rat { num: (self.k - ray.origin.y) as i64, den: df }
            } else {
                Rat { num: (ray.origin.y - self.k) as i64, den: (-df) as i64 }
            };
            if !itv.spec_contains(t) {
                None::<HitRecord>
            } else {
                let anum = ray.origin.x * t.den + t.num * ray.direction.x;
                let bnum = ray.origin.z * t.den + t.num * ray.direction.z;
                if anum < self.x0 * t.den || anum > self.x1 * t.den || bnum < self.z0 * t.den
                    || bnum > self.z1 * t.den {
                    None::<HitRecord>
                } else {
                    Some(self.spec_record(ray, t))
                }
            }
        }
    }

    /// The box around the rectangle, padded by `1/10000` on the degenerate
    /// fixed axis so it takes part in slab tests.
    pub open spec fn spec_bounding_volume(self) -> BoundingBoxStruct {
        BoundingBoxStruct {
            min_corner: RVec3 { x: Rat { num: self.x0, den: 1 }, y: Rat { num: (self.k * 10_000 - 1) as i64, den: 10_000 }, z: Rat { num: self.z0, den: 1 } },
            max_corner: RVec3 { x: Rat { num: self.x1, den: 1 }, y: Rat { num: (self.k * 10_000 + 1) as i64, den: 10_000 }, z: Rat { num: self.z1, den: 1 } },
        }
    }

    pub fn bounding_volume(&self) -> (r: BoundingBoxStruct)
        requires
            self.wf(),
        ensures
            r == self.spec_bounding_volume(),
            r.wf(),
    {
        proof {
            lemma_abs_mul_le(self.k as int, 10_000, MAX_COORD as int, 10_000);
        }
        let klo = Rat { num: self.k * 10_000 - 1, den: 10_000 };
        let khi = Rat { num: self.k * 10_000 + 1, den: 10_000 };
        BoundingBoxStruct {
            min_corner: RVec3 { x: Rat { num: self.x0, den: 1 }, y: klo, z: Rat { num: self.z0, den: 1 } },
            max_corner: RVec3 { x: Rat { num: self.x1, den: 1 }, y: khi, z: Rat { num: self.z1, den: 1 } },
        }
    }

    /// Exact ray/rectangle intersection over the open interval.
    pub fn hit(&self, ray: &Ray, interval: &Interval) -> (res: Option<HitRecord>)
        requires
            self.wf(),
            ray.in_range(),
            interval.wf(),
        ensures
            res == self.spec_hit(*ray, *interval),
            res matches Some(h) ==> interval.spec_contains(h.t) && h.wf(),
    {
        let df = ray.direction.y;
        if df == 0 {
            return None;
        }
        let t = if df > 0 {
            Rat { num: self.k - ray.origin.y, den: df }
        } else {
            Rat { num: ray.origin.y - self.k, den: -df }
        };
        if !(interval.min.lt(&t) && t.lt(&interval.max)) {
            return None;
        }
        proof {
            lemma_abs_mul_le(ray.origin.x as int, t.den as int, MAX_COORD as int, MAX_COORD as int);
            lemma_abs_mul_le(ray.origin.z as int, t.den as int, MAX_COORD as int, MAX_COORD as int);
            lemma_abs_mul_le(t.num as int, ray.direction.x as int, 2 * MAX_COORD as int, MAX_COORD as int);
            lemma_abs_mul_le(t.num as int, ray.direction.z as int, 2 * MAX_COORD as int, MAX_COORD as int);
            lemma_abs_mul_le(self.x0 as int, t.den as int, MAX_COORD as int, MAX_COORD as int);
            lemma_abs_mul_le(self.x1 as int, t.den as int, MAX_COORD as int, MAX_COORD as int);
            lemma_abs_mul_le(self.z0 as int, t.den as int, MAX_COORD as int, MAX_COORD as int);
            lemma_abs_mul_le(self.z1 as int, t.den as int, MAX_COORD as int, MAX_COORD as int);
        }
        let anum = ray.origin.x * t.den + t.num * ray.direction.x;
        let bnum = ray.origin.z * t.den + t.num * ray.direction.z;
        if anum < self.x0 * t.den || anum > self.x1 * t.den || bnum < self.z0 * t.den || bnum
            > self.z1 * t.den {
            return None;
        }
        proof {
            lemma_abs_mul_le(ray.origin.y as int, t.den as int, MAX_COORD as int, MAX_COORD as int);
            lemma_abs_mul_le(t.num as int, ray.direction.y as int, 2 * MAX_COORD as int, MAX_COORD as int);
        }
        let p = ray.at(&t);
        let front = df < 0;
        let sign: i64 = if front { 1 } else { -1 };
        let rec = HitRecord {
            t,
            point: p,
            normal: RVec3 { x: Rat { num: 0i64, den: 1 }, y: Rat { num: sign, den: 1 }, z: Rat { num: 0i64, den: 1 } },
            front_face: front,
            material: Some(self.material),
        };
        Some(rec)
    }
}

/// An axis-aligned rectangle in the plane `x = k`, spanning
/// `[y0, y1] x [z0, z1]` in the two in-plane coordinates.
#[derive(Clone, Copy, Debug)]
pub struct YZRectangleStruct {
    pub y0: i64,
    pub y1: i64,
    pub z0: i64,
    pub z1: i64,
    pub k: i64,
    pub material: usize,
}

impl YZRectangleStruct {
    pub open spec fn wf(self) -> bool {
        &&& -MAX_COORD <= self.y0 <= MAX_COORD
        &&& -MAX_COORD <= self.y1 <= MAX_COORD
        &&& -MAX_COORD <= self.z0 <= MAX_COORD
        &&& -MAX_COORD <= self.z1 <= MAX_COORD
        &&& -MAX_COORD <= self.k <= MAX_COORD
        &&& self.y0 <= self.y1
        &&& self.z0 <= self.z1
    }

    /// Build a rectangle, normalizing each bound range to `min <= max`.
    pub fn new(y0: i64, y1: i64, z0: i64, z1: i64, k: i64, material: usize) -> (r: YZRectangleStruct)
        requires
            -MAX_COORD <= y0 <= MAX_COORD,
            -MAX_COORD <= y1 <= MAX_COORD,
            -MAX_COORD <= z0 <= MAX_COORD,
            -MAX_COORD <= z1 <= MAX_COORD,
            -MAX_COORD <= k <= MAX_COORD,
        ensures
            r.wf(),
            r.y0 == if y0 <= y1 { y0 } else { y1 },
            r.y1 == if y0 <= y1 { y1 } else { y0 },
            r.z0 == if z0 <= z1 { z0 } else { z1 },
            r.z1 == if z0 <= z1 { z1 } else { z0 },
            r.k == k,
            r.material == material,
    {
        let amin = if y0 <= y1 { y0 } else { y1 };
        let amax = if y0 <= y1 { y1 } else { y0 };
        let bmin = if z0 <= z1 { z0 } else { z1 };
        let bmax = if z0 <= z1 { z1 } else { z0 };
        YZRectangleStruct { y0: amin, y1: amax, z0: bmin, z1: bmax, k, material }
    }

    /// The record for a plane crossing at parameter `t`: normal along the
    /// fixed axis, flipped to oppose the ray.
    pub open spec fn spec_record(self, ray: Ray, t: Rat) -> HitRecord {
        let p = spec_ray_point(ray, t);
        let front = ray.direction.x < 0;
        let sign: i64 = if front { 1i64 } else { -1i64 };
        HitRecord {
            t,
            point: p,
            normal: RVec3 { x: Rat { num: sign, den: 1 }, y: Rat { num: 0i64, den: 1 }, z: Rat { num: 0i64, den: 1 } },
            front_face: front,
            material: Some(self.material),
        }
    }

    /// Ray/rectangle intersection: the plane crossing parameter must lie
    /// strictly inside the open interval, and the crossing point inside both
    /// bound ranges; a ray parallel to the plane misses.
    pub open spec fn spec_hit(self, ray: Ray, itv: Interval) -> Option<HitRecord> {
        let df = ray.direction.x;
        if df == 0 {
            None::<HitRecord>
        } else {
            let t = if df > 0 {
                Rat { num: (self.k - ray.origin.x) as i64, den: df }
            } else {
                Rat { num: (ray.origin.x - self.k) as i64, den: (-df) as i64 }
            };
            if !itv.spec_contains(t) {
                None::<HitRecord>
            } else {
                let anum = ray.origin.y * t.den + t.num * ray.direction.y;
                let bnum = ray.origin.z * t.den + t.num * ray.direction.z;
                if anum < self.y0 * t.den || anum > self.y1 * t.den || bnum < self.z0 * t.den
                    || bnum > self.z1 * t.den {
                    None::<HitRecord>
                } else {
                    Some(self.spec_record(ray, t))
                }
            }
        }
    }

    /// The box around the rectangle, padded by `1/10000` on the degenerate
    /// fixed axis so it takes part in slab tests.
    pub open spec fn spec_bounding_volume(self) -> BoundingBoxStruct {
        BoundingBoxStruct {
            min_corner: RVec3 { x: Rat { num: (self.k * 10_000 - 1) as i64, den: 10_000 }, y: Rat { num: self.y0, den: 1 }, z: Rat { num: self.z0, den: 1 } },
            max_corner: RVec3 { x: Rat { num: (self.k * 10_000 + 1) as i64, den: 10_000 }, y: Rat { num: self.y1, den: 1 }, z: Rat { num: self.z1, den: 1 } },
        }
    }

    pub fn bounding_volume(&self) -> (r: BoundingBoxStruct)
        requires
            self.wf(),
        ensures
            r == self.spec_bounding_volume(),
            r.wf(),
    {
        proof {
            lemma_abs_mul_le(self.k as int, 10_000, MAX_COORD as int, 10_000);
        }
        let klo = Rat { num: self.k * 10_000 - 1, den: 10_000 };
        let khi = Rat { num: self.k * 10_000 + 1, den: 10_000 };
        BoundingBoxStruct {
            min_corner: RVec3 { x: klo, y: Rat { num: self.y0, den: 1 }, z: Rat { num: self.z0, den: 1 } },
            max_corner: RVec3 { x: khi, y: Rat { num: self.y1, den: 1 }, z: Rat { num: self.z1, den: 1 } },
        }
    }

    /// Exact ray/rectangle intersection over the open interval.
    pub fn hit(&self, ray: &Ray, interval: &Interval) -> (res: Option<HitRecord>)
        requires
            self.wf(),
            ray.in_range(),
            interval.wf(),
        ensures
            res == self.spec_hit(*ray, *interval),
            res matches Some(h) ==> interval.spec_contains(h.t) && h.wf(),
    {
        let df = ray.direction.x;
        if df == 0 {
            return None;
        }
        let t = if df > 0 {
            Rat { num: self.k - ray.origin.x, den: df }
        } else {
            Rat { num: ray.origin.x - self.k, den: -df }
        };
        if !(interval.min.lt(&t) && t.lt(&interval.max)) {
            return None;
        }
        proof {
            lemma_abs_mul_le(ray.origin.y as int, t.den as int, MAX_COORD as int, MAX_COORD as int);
            lemma_abs_mul_le(ray.origin.z as int, t.den as int, MAX_COORD as int, MAX_COORD as int);
            lemma_abs_mul_le(t.num as int, ray.direction.y as int, 2 * MAX_COORD as int, MAX_COORD as int);
            lemma_abs_mul_le(t.num as int, ray.direction.z as int, 2 * MAX_COORD as int, MAX_COORD as int);
            lemma_abs_mul_le(self.y0 as int, t.den as int, MAX_COORD as int, MAX_COORD as int);
            lemma_abs_mul_le(self.y1 as int, t.den as int, MAX_COORD as int, MAX_COORD as int);
            lemma_abs_mul_le(self.z0 as int, t.den as int, MAX_COORD as int, MAX_COORD as int);
            lemma_abs_mul_le(self.z1 as int, t.den as int, MAX_COORD as int, MAX_COORD as int);
        }
        let anum = ray.origin.y * t.den + t.num * ray.direction.y;
        let bnum = ray.origin.z * t.den + t.num * ray.direction.z;
        if anum < self.y0 * t.den || anum > self.y1 * t.den || bnum < self.z0 * t.den || bnum
            > self.z1 * t.den {
            return None;
        }
        proof {
            lemma_abs_mul_le(ray.origin.x as int, t.den as int, MAX_COORD as int, MAX_COORD as int);
            lemma_abs_mul_le(t.num as int, ray.direction.x as int, 2 * MAX_COORD as int, MAX_COORD as int);
        }
        let p = ray.at(&t);
        let front = df < 0;
        let sign: i64 = if front { 1 } else { -1 };
        let rec = HitRecord {
            t,
            point: p,
            normal: RVec3 { x: Rat { num: sign, den: 1 }, y: Rat { num: 0i64, den: 1 }, z: Rat { num: 0i64, den: 1 } },
            front_face: front,
            material: Some(self.material),
        };
        Some(rec)
    }
}


/// The nearer of an accumulated best hit and a candidate: the candidate wins
/// only when strictly closer.
pub open spec fn spec_nearer(best: Option<HitRecord>, cand: Option<HitRecord>) -> Option<HitRecord> {
    match cand {
        None => best,
        Some(h) => match best {
            None => Some(h),
            Some(b) => if h.t.spec_lt(b.t) {
                Some(h)
            } else {
                Some(b)
            },
        },
    }
}

/// Keep the nearer of the best hit so far and a candidate.
fn closer_option(best: Option<HitRecord>, cand: Option<HitRecord>) -> (r: Option<HitRecord>)
    requires
        true,
    ensures
        r == spec_nearer(best, cand),
{
    match cand {
        None => best,
        Some(h) => match best {
            None => Some(h),
            Some(b) => if h.is_closer_than(&b) {
                Some(h)
            } else {
                Some(b)
            },
        },
    }
}

/// A cuboid spanning `v_min .. v_max`, realized as its six rectangle faces.
#[derive(Clone, Copy, Debug)]
pub struct CuboidStruct {
    pub v_min: Vec3,
    pub v_max: Vec3,
    pub material: usize,
    pub side_xy_lo: XYRectangleStruct,
    pub side_xy_hi: XYRectangleStruct,
    pub side_xz_lo: XZRectangleStruct,
    pub side_xz_hi: XZRectangleStruct,
    pub side_yz_lo: YZRectangleStruct,
    pub side_yz_hi: YZRectangleStruct,
}

impl CuboidStruct {
    /// Corners ordered and in range, and the six faces derived from them.
    pub open spec fn wf(self) -> bool {
        &&& self.v_min.in_range()
        &&& self.v_max.in_range()
        &&& self.v_min.x <= self.v_max.x
        &&& self.v_min.y <= self.v_max.y
        &&& self.v_min.z <= self.v_max.z
        &&& self.side_xy_lo == (XYRectangleStruct {
            x0: self.v_min.x, x1: self.v_max.x, y0: self.v_min.y, y1: self.v_max.y,
            k: self.v_min.z, material: self.material,
        })
        &&& self.side_xy_hi == (XYRectangleStruct {
            x0: self.v_min.x, x1: self.v_max.x, y0: self.v_min.y, y1: self.v_max.y,
            k: self.v_max.z, material: self.material,
        })
        &&& self.side_xz_lo == (XZRectangleStruct {
            x0: self.v_min.x, x1: self.v_max.x, z0: self.v_min.z, z1: self.v_max.z,
            k: self.v_min.y, material: self.material,
        })
        &&& self.side_xz_hi == (XZRectangleStruct {
            x0: self.v_min.x, x1: self.v_max.x, z0: self.v_min.z, z1: self.v_max.z,
            k: self.v_max.y, material: self.material,
        })
        &&& self.side_yz_lo == (YZRectangleStruct {
            y0: self.v_min.y, y1: self.v_max.y, z0: self.v_min.z, z1: self.v_max.z,
            k: self.v_min.x, material: self.material,
        })
        &&& self.side_yz_hi == (YZRectangleStruct {
            y0: self.v_min.y, y1: self.v_max.y, z0: self.v_min.z, z1: self.v_max.z,
            k: self.v_max.x, material: self.material,
        })
    }

    /// Build a cuboid from two opposite corners, normalizing to
    /// componentwise min/max and deriving the six faces.
    pub fn new(p0: Vec3, p1: Vec3, material: usize) -> (r: CuboidStruct)
        requires
            p0.in_range(),
            p1.in_range(),
        ensures
            r.wf(),
            r.material == material,
            r.v_min == (Vec3 {
                x: if p0.x <= p1.x { p0.x } else { p1.x },
                y: if p0.y <= p1.y { p0.y } else { p1.y },
                z: if p0.z <= p1.z { p0.z } else { p1.z },
            }),
            r.v_max == (Vec3 {
                x: if p0.x <= p1.x { p1.x } else { p0.x },
                y: if p0.y <= p1.y { p1.y } else { p0.y },
                z: if p0.z <= p1.z { p1.z } else { p0.z },
            }),
    {
        let v_min = Vec3 {
            x: if p0.x <= p1.x { p0.x } else { p1.x },
            y: if p0.y <= p1.y { p0.y } else { p1.y },
            z: if p0.z <= p1.z { p0.z } else { p1.z },
        };
        let v_max = Vec3 {
            x: if p0.x <= p1.x { p1.x } else { p0.x },
            y: if p0.y <= p1.y { p1.y } else { p0.y },
            z: if p0.z <= p1.z { p1.z } else { p0.z },
        };
        CuboidStruct {
            v_min,
            v_max,
            material,
            side_xy_lo: XYRectangleStruct::new(v_min.x, v_max.x, v_min.y, v_max.y, v_min.z, material),
            side_xy_hi: XYRectangleStruct::new(v_min.x, v_max.x, v_min.y, v_max.y, v_max.z, material),
            side_xz_lo: XZRectangleStruct::new(v_min.x, v_max.x, v_min.z, v_max.z, v_min.y, material),
            side_xz_hi: XZRectangleStruct::new(v_min.x, v_max.x, v_min.z, v_max.z, v_max.y, material),
            side_yz_lo: YZRectangleStruct::new(v_min.y, v_max.y, v_min.z, v_max.z, v_min.x, material),
            side_yz_hi: YZRectangleStruct::new(v_min.y, v_max.y, v_min.z, v_max.z, v_max.x, material),
        }
    }

    /// Nearest hit over the six faces, scanned in a fixed order; the earlier
    /// face is kept on ties.
    pub open spec fn spec_hit(self, ray: Ray, itv: Interval) -> Option<HitRecord> {
        spec_nearer(
            spec_nearer(
                spec_nearer(
                    spec_nearer(
                        spec_nearer(
                            spec_nearer(None, self.side_xy_lo.spec_hit(ray, itv)),
                            self.side_xy_hi.spec_hit(ray, itv),
                        ),
                        self.side_xz_lo.spec_hit(ray, itv),
                    ),
                    self.side_xz_hi.spec_hit(ray, itv),
                ),
                self.side_yz_lo.spec_hit(ray, itv),
            ),
            self.side_yz_hi.spec_hit(ray, itv),
        )
    }

    /// The exact box between the two stored corners (no padding needed).
    pub open spec fn spec_bounding_volume(self) -> BoundingBoxStruct {
        BoundingBoxStruct {
            min_corner: RVec3 {
                x: Rat { num: self.v_min.x, den: 1 },
                y: Rat { num: self.v_min.y, den: 1 },
                z: Rat { num: self.v_min.z, den: 1 },
            },
            max_corner: RVec3 {
                x: Rat { num: self.v_max.x, den: 1 },
                y: Rat { num: self.v_max.y, den: 1 },
                z: Rat { num: self.v_max.z, den: 1 },
            },
        }
    }

    pub fn bounding_volume(&self) -> (r: BoundingBoxStruct)
        requires
            self.wf(),
        ensures
            r == self.spec_bounding_volume(),
            r.wf(),
    {
        BoundingBoxStruct {
            min_corner: RVec3::from_ints(self.v_min.x, self.v_min.y, self.v_min.z),
            max_corner: RVec3::from_ints(self.v_max.x, self.v_max.y, self.v_max.z),
        }
    }

    /// Brute-force nearest-hit scan over the six faces.
    pub fn hit(&self, ray: &Ray, interval: &Interval) -> (res: Option<HitRecord>)
        requires
            self.wf(),
            ray.in_range(),
            interval.wf(),
        ensures
            res == self.spec_hit(*ray, *interval),
            res matches Some(h) ==> interval.spec_contains(h.t) && h.wf(),
    {
        let mut best: Option<HitRecord> = None;
        best = closer_option(best, self.side_xy_lo.hit(ray, interval));
        best = closer_option(best, self.side_xy_hi.hit(ray, interval));
        best = closer_option(best, self.side_xz_lo.hit(ray, interval));
        best = closer_option(best, self.side_xz_hi.hit(ray, interval));
        best = closer_option(best, self.side_yz_lo.hit(ray, interval));
        best = closer_option(best, self.side_yz_hi.hit(ray, interval));
        best
    }
}


/// A successful xyrect hit is well-formed, lies strictly inside the interval,
/// and its point is the exact ray point at its parameter.
proof fn lemma_xyrect_hit_wf(rect: XYRectangleStruct, ray: Ray, itv: Interval)
    requires
        rect.wf(),
        ray.in_range(),
        itv.wf(),
    ensures
        rect.spec_hit(ray, itv) matches Some(h) ==> h.wf() && itv.spec_contains(h.t) && h.point
            == spec_ray_point(ray, h.t),
{
    let df = ray.direction.z;
    if df != 0 {
        let t = if df > 0 {
            Rat { num: (rect.k - ray.origin.z) as i64, den: df }
        } else {
            Rat { num: (ray.origin.z - rect.k) as i64, den: (-df) as i64 }
        };
        if itv.spec_contains(t) {
            lemma_abs_mul_le(ray.origin.x as int, t.den as int, MAX_COORD as int, MAX_COORD as int);
            lemma_abs_mul_le(ray.origin.y as int, t.den as int, MAX_COORD as int, MAX_COORD as int);
            lemma_abs_mul_le(ray.origin.z as int, t.den as int, MAX_COORD as int, MAX_COORD as int);
            lemma_abs_mul_le(t.num as int, ray.direction.x as int, 2 * MAX_COORD as int, MAX_COORD as int);
            lemma_abs_mul_le(t.num as int, ray.direction.y as int, 2 * MAX_COORD as int, MAX_COORD as int);
            lemma_abs_mul_le(t.num as int, ray.direction.z as int, 2 * MAX_COORD as int, MAX_COORD as int);
        }
    }
}

/// A successful xzrect hit is well-formed, lies strictly inside the interval,
/// and its point is the exact ray point at its parameter.
proof fn lemma_xzrect_hit_wf(rect: XZRectangleStruct, ray: Ray, itv: Interval)
    requires
        rect.wf(),
        ray.in_range(),
        itv.wf(),
    ensures
        rect.spec_hit(ray, itv) matches Some(h) ==> h.wf() && itv.spec_contains(h.t) && h.point
            == spec_ray_point(ray, h.t),
{
    let df = ray.direction.y;
    if df != 0 {
        let t = if df > 0 {
            Rat { num: (rect.k - ray.origin.y) as i64, den: df }
        } else {
            Rat { num: (ray.origin.y - rect.k) as i64, den: (-df) as i64 }
        };
        if itv.spec_contains(t) {
            lemma_abs_mul_le(ray.origin.x as int, t.den as int, MAX_COORD as int, MAX_COORD as int);
            lemma_abs_mul_le(ray.origin.y as int, t.den as int, MAX_COORD as int, MAX_COORD as int);
            lemma_abs_mul_le(ray.origin.z as int, t.den as int, MAX_COORD as int, MAX_COORD as int);
            lemma_abs_mul_le(t.num as int, ray.direction.x as int, 2 * MAX_COORD as int, MAX_COORD as int);
            lemma_abs_mul_le(t.num as int, ray.direction.y as int, 2 * MAX_COORD as int, MAX_COORD as int);
            lemma_abs_mul_le(t.num as int, ray.direction.z as int, 2 * MAX_COORD as int, MAX_COORD as int);
        }
    }
}

/// A successful yzrect hit is well-formed, lies strictly inside the interval,
/// and its point is the exact ray point at its parameter.
proof fn lemma_yzrect_hit_wf(rect: YZRectangleStruct, ray: Ray, itv: Interval)
    requires
        rect.wf(),
        ray.in_range(),
        itv.wf(),
    ensures
        rect.spec_hit(ray, itv) matches Some(h) ==> h.wf() && itv.spec_contains(h.t) && h.point
            == spec_ray_point(ray, h.t),
{
    let df = ray.direction.x;
    if df != 0 {
        let t = if df > 0 {
            Rat { num: (rect.k - ray.origin.x) as i64, den: df }
        } else {
            Rat { num: (ray.origin.x - rect.k) as i64, den: (-df) as i64 }
        };
        if itv.spec_contains(t) {
            lemma_abs_mul_le(ray.origin.x as int, t.den as int, MAX_COORD as int, MAX_COORD as int);
            lemma_abs_mul_le(ray.origin.y as int, t.den as int, MAX_COORD as int, MAX_COORD as int);
            lemma_abs_mul_le(ray.origin.z as int, t.den as int, MAX_COORD as int, MAX_COORD as int);
            lemma_abs_mul_le(t.num as int, ray.direction.x as int, 2 * MAX_COORD as int, MAX_COORD as int);
            lemma_abs_mul_le(t.num as int, ray.direction.y as int, 2 * MAX_COORD as int, MAX_COORD as int);
            lemma_abs_mul_le(t.num as int, ray.direction.z as int, 2 * MAX_COORD as int, MAX_COORD as int);
        }
    }
}

/// A successful sphere hit is well-formed, lies strictly inside the
/// interval, and its point is the exact ray point at its parameter.
proof fn lemma_sphere_hit_wf(s: SphereStruct, ray: Ray, itv: Interval)
    requires
        s.wf(),
        ray.in_range(),
        itv.wf(),
    ensures
        s.spec_hit(ray, itv) matches Some(h) ==> h.wf() && itv.spec_contains(h.t) && h.point
            == spec_ray_point(ray, h.t),
{
    lemma_sphere_coeffs(s, ray);
    let ocx = ray.origin.x - s.center.x;
    let ocy = ray.origin.y - s.center.y;
    let ocz = ray.origin.z - s.center.z;
    let a = ray.direction.x * ray.direction.x + ray.direction.y * ray.direction.y
        + ray.direction.z * ray.direction.z;
    let b = 2 * (ocx * ray.direction.x + ocy * ray.direction.y + ocz * ray.direction.z);
    let c = ocx * ocx + ocy * ocy + ocz * ocz - s.radius * s.radius;
    let disc = b * b - 4 * (a * c);
    if !(a == 0 || disc < 0) {
        let sq = crate::rat::spec_isqrt(disc);
        let t1 = Rat { num: (-b - sq) as i64, den: (2 * a) as i64 };
        let t2 = Rat { num: (-b + sq) as i64, den: (2 * a) as i64 };
        assert(t1.wf() && crate::vec3::t_bounded(t1));
        assert(t2.wf() && crate::vec3::t_bounded(t2));
        lemma_sphere_record_wf(s, ray, t1);
        lemma_sphere_record_wf(s, ray, t2);
    }
}

/// A successful cuboid hit is well-formed, lies strictly inside the
/// interval, and its point is the exact ray point at its parameter.
proof fn lemma_cuboid_hit_wf(cb: CuboidStruct, ray: Ray, itv: Interval)
    requires
        cb.wf(),
        ray.in_range(),
        itv.wf(),
    ensures
        cb.spec_hit(ray, itv) matches Some(h) ==> h.wf() && itv.spec_contains(h.t) && h.point
            == spec_ray_point(ray, h.t),
{
    lemma_xyrect_hit_wf(cb.side_xy_lo, ray, itv);
    lemma_xyrect_hit_wf(cb.side_xy_hi, ray, itv);
    lemma_xzrect_hit_wf(cb.side_xz_lo, ray, itv);
    lemma_xzrect_hit_wf(cb.side_xz_hi, ray, itv);
    lemma_yzrect_hit_wf(cb.side_yz_lo, ray, itv);
    lemma_yzrect_hit_wf(cb.side_yz_hi, ray, itv);
}

/// A polymorphic scene object: one of the closed set of primitives.
#[derive(Clone, Copy, Debug)]
pub enum Hittable {
    Sphere(SphereStruct),
    XYRectangle(XYRectangleStruct),
    XZRectangle(XZRectangleStruct),
    YZRectangle(YZRectangleStruct),
    Cuboid(CuboidStruct),
}

/// The uniform intersection capability of every scene object.
pub trait Hit {
    /// Validity of the object's geometry.
    spec fn wf(&self) -> bool;

    /// The mathematical intersection result.
    spec fn spec_hit(&self, ray: Ray, interval: Interval) -> Option<HitRecord>;

    /// Nearest intersection of the ray with this object strictly inside the
    /// open interval, or `None`.
    fn hit(&self, ray: &Ray, interval: &Interval) -> (res: Option<HitRecord>)
        requires
            self.wf(),
            ray.in_range(),
            interval.wf(),
        ensures
            res == self.spec_hit(*ray, *interval),
            res matches Some(h) ==> interval.spec_contains(h.t) && h.wf(),
    ;
}

/// Access to the opaque material reference an object carries.
pub trait MaterialTrait {
    /// The material reference, if the object carries one.
    spec fn spec_material(&self) -> Option<usize>;

    fn material(&self) -> (r: Option<usize>)
        requires
            true,
        ensures
            r == self.spec_material(),
    ;
}

/// The bounding-volume capability of every scene object.
pub trait BoundingVolumeTrait: Hit {
    /// The bounding volume, if one exists.
    spec fn spec_bounding_volume(&self) -> Option<BoundingBoxStruct>;

    fn bounding_volume(&self) -> (r: Option<BoundingBoxStruct>)
        requires
            self.wf(),
        ensures
            r == self.spec_bounding_volume(),
            r matches Some(b) ==> b.wf(),
    ;
}

/// The bounding box of a primitive (every primitive has one).
pub open spec fn obj_bv(obj: Hittable) -> BoundingBoxStruct {
    match obj {
        Hittable::Sphere(o) => o.spec_bounding_volume(),
        Hittable::XYRectangle(o) => o.spec_bounding_volume(),
        Hittable::XZRectangle(o) => o.spec_bounding_volume(),
        Hittable::YZRectangle(o) => o.spec_bounding_volume(),
        Hittable::Cuboid(o) => o.spec_bounding_volume(),
    }
}

impl Hit for Hittable {
    open spec fn wf(&self) -> bool {
        match *self {
            Hittable::Sphere(o) => o.wf(),
            Hittable::XYRectangle(o) => o.wf(),
            Hittable::XZRectangle(o) => o.wf(),
            Hittable::YZRectangle(o) => o.wf(),
            Hittable::Cuboid(o) => o.wf(),
        }
    }

    open spec fn spec_hit(&self, ray: Ray, interval: Interval) -> Option<HitRecord> {
        match *self {
            Hittable::Sphere(o) => o.spec_hit(ray, interval),
            Hittable::XYRectangle(o) => o.spec_hit(ray, interval),
            Hittable::XZRectangle(o) => o.spec_hit(ray, interval),
            Hittable::YZRectangle(o) => o.spec_hit(ray, interval),
            Hittable::Cuboid(o) => o.spec_hit(ray, interval),
        }
    }

    fn hit(&self, ray: &Ray, interval: &Interval) -> (res: Option<HitRecord>) {
        match self {
            Hittable::Sphere(o) => o.hit(ray, interval),
            Hittable::XYRectangle(o) => o.hit(ray, interval),
            Hittable::XZRectangle(o) => o.hit(ray, interval),
            Hittable::YZRectangle(o) => o.hit(ray, interval),
            Hittable::Cuboid(o) => o.hit(ray, interval),
        }
    }
}

impl MaterialTrait for Hittable {
    open spec fn spec_material(&self) -> Option<usize> {
        match *self {
            Hittable::Sphere(o) => Some(o.material),
            Hittable::XYRectangle(o) => Some(o.material),
            Hittable::XZRectangle(o) => Some(o.material),
            Hittable::YZRectangle(o) => Some(o.material),
            Hittable::Cuboid(o) => Some(o.material),
        }
    }

    fn material(&self) -> (r: Option<usize>) {
        match self {
            Hittable::Sphere(o) => Some(o.material),
            Hittable::XYRectangle(o) => Some(o.material),
            Hittable::XZRectangle(o) => Some(o.material),
            Hittable::YZRectangle(o) => Some(o.material),
            Hittable::Cuboid(o) => Some(o.material),
        }
    }
}

impl BoundingVolumeTrait for Hittable {
    open spec fn spec_bounding_volume(&self) -> Option<BoundingBoxStruct> {
        Some(obj_bv(*self))
    }

    fn bounding_volume(&self) -> (r: Option<BoundingBoxStruct>) {
        proof {
            lemma_obj_bv_wf(*self);
        }
        match self {
            Hittable::Sphere(o) => Some(o.bounding_volume()),
            Hittable::XYRectangle(o) => Some(o.bounding_volume()),
            Hittable::XZRectangle(o) => Some(o.bounding_volume()),
            Hittable::YZRectangle(o) => Some(o.bounding_volume()),
            Hittable::Cuboid(o) => Some(o.bounding_volume()),
        }
    }
}

/// A well-formed primitive has a well-formed bounding box.
pub proof fn lemma_obj_bv_wf(obj: Hittable)
    requires
        obj.wf(),
    ensures
        obj_bv(obj).wf(),
{
    match obj {
        Hittable::Sphere(o) => {
        },
        Hittable::XYRectangle(o) => {
            lemma_abs_mul_le(o.k as int, 10_000, MAX_COORD as int, 10_000);
            crate::rat::lemma_mul_le_right(o.k * 10_000 - 1, o.k * 10_000 + 1, 10_000);
        },
        Hittable::XZRectangle(o) => {
            lemma_abs_mul_le(o.k as int, 10_000, MAX_COORD as int, 10_000);
            crate::rat::lemma_mul_le_right(o.k * 10_000 - 1, o.k * 10_000 + 1, 10_000);
        },
        Hittable::YZRectangle(o) => {
            lemma_abs_mul_le(o.k as int, 10_000, MAX_COORD as int, 10_000);
            crate::rat::lemma_mul_le_right(o.k * 10_000 - 1, o.k * 10_000 + 1, 10_000);
        },
        Hittable::Cuboid(o) => {
        },
    }
}

/// A successful hit on any primitive is well-formed, lies strictly inside
/// the interval, and its point is the exact ray point at its parameter.
pub proof fn lemma_hittable_hit_wf(obj: Hittable, ray: Ray, itv: Interval)
    requires
        obj.wf(),
        ray.in_range(),
        itv.wf(),
    ensures
        obj.spec_hit(ray, itv) matches Some(h) ==> h.wf() && itv.spec_contains(h.t) && h.point
            == spec_ray_point(ray, h.t),
{
    match obj {
        Hittable::Sphere(o) => lemma_sphere_hit_wf(o, ray, itv),
        Hittable::XYRectangle(o) => lemma_xyrect_hit_wf(o, ray, itv),
        Hittable::XZRectangle(o) => lemma_xzrect_hit_wf(o, ray, itv),
        Hittable::YZRectangle(o) => lemma_yzrect_hit_wf(o, ray, itv),
        Hittable::Cuboid(o) => lemma_cuboid_hit_wf(o, ray, itv),
    }
}


/// Every object of the scene is well-formed.
pub open spec fn scene_wf(scene: Seq<Hittable>) -> bool {
    forall|i: int| 0 <= i < scene.len() ==> (#[trigger] scene[i]).wf()
}

/// Nearest hit over the objects named by `idxs`, scanned left to right; the
/// earlier object is kept on ties.
pub open spec fn spec_scan(scene: Seq<Hittable>, idxs: Seq<usize>, ray: Ray, itv: Interval) -> Option<HitRecord>
    decreases idxs.len(),
{
    if idxs.len() == 0 {
        None::<HitRecord>
    } else {
        spec_nearer(
            spec_scan(scene, idxs.drop_last(), ray, itv),
            scene[idxs.last() as int].spec_hit(ray, itv),
        )
    }
}

/// Union of the bounding boxes of the objects named by `idxs`; `None` when
/// the list is empty.
pub open spec fn spec_scan_bv(scene: Seq<Hittable>, idxs: Seq<usize>) -> Option<BoundingBoxStruct>
    decreases idxs.len(),
{
    if idxs.len() == 0 {
        None::<BoundingBoxStruct>
    } else if idxs.len() == 1 {
        Some(obj_bv(scene[idxs[0] as int]))
    } else {
        match spec_scan_bv(scene, idxs.drop_last()) {
            None => None::<BoundingBoxStruct>,
            Some(b) => Some(spec_surrounding(b, obj_bv(scene[idxs.last() as int]))),
        }
    }
}

/// The bounding box of a primitive, unwrapped.
pub(crate) fn obj_bounding_volume(obj: &Hittable) -> (r: BoundingBoxStruct)
    requires
        obj.wf(),
    ensures
        r == obj_bv(*obj),
        r.wf(),
{
    proof {
        lemma_obj_bv_wf(*obj);
    }
    match obj {
        Hittable::Sphere(o) => o.bounding_volume(),
        Hittable::XYRectangle(o) => o.bounding_volume(),
        Hittable::XZRectangle(o) => o.bounding_volume(),
        Hittable::YZRectangle(o) => o.bounding_volume(),
        Hittable::Cuboid(o) => o.bounding_volume(),
    }
}

/// A scene list: indices into externally owned scene storage.  The list owns
/// no geometry.
#[derive(Clone, Debug)]
pub struct HittableListStruct {
    pub list: Vec<usize>,
}

impl HittableListStruct {
    /// Every index points into the scene.
    pub open spec fn wf_for(self, scene: Seq<Hittable>) -> bool {
        forall|i: int| 0 <= i < self.list@.len() ==> (#[trigger] self.list@[i]) < scene.len()
    }

    pub fn new() -> (r: HittableListStruct)
        requires
            true,
        ensures
            r.list@.len() == 0,
    {
        HittableListStruct { list: Vec::new() }
    }

    pub fn from(list: Vec<usize>) -> (r: HittableListStruct)
        requires
            true,
        ensures
            r.list == list,
    {
        HittableListStruct { list }
    }

    pub fn push(self, hittable: usize) -> (r: HittableListStruct)
        requires
            true,
        ensures
            r.list@ == self.list@.push(hittable),
    {
        let mut s = self;
        s.list.push(hittable);
        s
    }

    /// Brute-force nearest hit: scan every object, keep the closest accepted
    /// hit.  An empty list, or no accepted child, is a miss.
    pub fn hit(&self, scene: &Vec<Hittable>, ray: &Ray, interval: &Interval) -> (res: Option<HitRecord>)
        requires
            self.wf_for(scene@),
            scene_wf(scene@),
            ray.in_range(),
            interval.wf(),
        ensures
            res == spec_scan(scene@, self.list@, *ray, *interval),
            res matches Some(h) ==> interval.spec_contains(h.t) && h.wf(),
    {
        let mut best: Option<HitRecord> = None;
        let mut i: usize = 0;
        proof {
            assert(self.list@.subrange(0, 0) =~= Seq::<usize>::empty());
        }
        while i < self.list.len()
            invariant
                i <= self.list@.len(),
                self.wf_for(scene@),
                scene_wf(scene@),
                ray.in_range(),
                interval.wf(),
                best == spec_scan(scene@, self.list@.subrange(0, i as int), *ray, *interval),
                best matches Some(h) ==> interval.spec_contains(h.t) && h.wf(),
            decreases self.list@.len() - i,
        {
            let idx = self.list[i];
            let cand = scene[idx].hit(ray, interval);
            best = closer_option(best, cand);
            proof {
                assert(self.list@.subrange(0, i + 1).drop_last() =~= self.list@.subrange(0, i as int));
                assert(self.list@.subrange(0, i + 1).last() == self.list@[i as int]);
            }
            i = i + 1;
        }
        proof {
            assert(self.list@.subrange(0, self.list@.len() as int) =~= self.list@);
        }
        best
    }

    /// The union of all children's boxes; `None` for an empty list.  A child
    /// without a bounding volume would make the union undefined, but every
    /// primitive of the closed set has one.
    pub fn bounding_volume(&self, scene: &Vec<Hittable>) -> (res: Option<BoundingBoxStruct>)
        requires
            self.wf_for(scene@),
            scene_wf(scene@),
        ensures
            res == spec_scan_bv(scene@, self.list@),
            res is Some <==> self.list@.len() > 0,
            res matches Some(b) ==> b.wf() && forall|j: int|
                0 <= j < self.list@.len() ==> box_contains_box(
                    b,
                    obj_bv(scene@[#[trigger] self.list@[j] as int]),
                ),
    {
        if self.list.len() == 0 {
            return None;
        }
        let mut bbox = obj_bounding_volume(&scene[self.list[0]]);
        let mut j: usize = 1;
        proof {
            assert(self.list@.subrange(0, 1) =~= seq![self.list@[0]]);
        }
        while j < self.list.len()
            invariant
                1 <= j <= self.list@.len(),
                self.wf_for(scene@),
                scene_wf(scene@),
                bbox.wf(),
                Some(bbox) == spec_scan_bv(scene@, self.list@.subrange(0, j as int)),
                forall|jj: int|
                    0 <= jj < j ==> box_contains_box(
                        bbox,
                        obj_bv(scene@[#[trigger] self.list@[jj] as int]),
                    ),
            decreases self.list@.len() - j,
        {
            let ghost prev = bbox;
            let child = obj_bounding_volume(&scene[self.list[j]]);
            bbox = BoundingBoxStruct::surrounding(bbox, child);
            proof {
                assert(self.list@.subrange(0, j + 1).drop_last() =~= self.list@.subrange(0, j as int));
                assert(self.list@.subrange(0, j + 1).last() == self.list@[j as int]);
                assert forall|jj: int|
                    0 <= jj < j + 1 implies box_contains_box(
                    bbox,
                    obj_bv(scene@[#[trigger] self.list@[jj] as int]),
                ) by {
                    let inner = obj_bv(scene@[self.list@[jj] as int]);
                    lemma_obj_bv_wf(scene@[self.list@[jj] as int]);
                    if jj < j {
                        lemma_contains_trans(bbox, prev, inner);
                    }
                }
            }
            j = j + 1;
        }
        proof {
            assert(self.list@.subrange(0, self.list@.len() as int) =~= self.list@);
        }
        Some(bbox)
    }
}

/// What the linear scan returns: `None` exactly when no object hits;
/// otherwise the record of one of the objects, whose hit parameter is
/// minimal over all objects' hits.
pub proof fn lemma_scan_characterization(scene: Seq<Hittable>, idxs: Seq<usize>, ray: Ray, itv: Interval)
    requires
        scene_wf(scene),
        forall|j: int| 0 <= j < idxs.len() ==> (#[trigger] idxs[j]) < scene.len(),
        ray.in_range(),
        itv.wf(),
    ensures
        (spec_scan(scene, idxs, ray, itv) is None) <==> (forall|j: int|
            0 <= j < idxs.len() ==> scene[#[trigger] idxs[j] as int].spec_hit(ray, itv) is None),
        spec_scan(scene, idxs, ray, itv) matches Some(h) ==> h.wf() && itv.spec_contains(h.t) && (
        exists|j: int|
            0 <= j < idxs.len() && scene[#[trigger] idxs[j] as int].spec_hit(ray, itv) == Some(h))
            && (forall|j: int|
            0 <= j < idxs.len() ==> (match scene[#[trigger] idxs[j] as int].spec_hit(ray, itv) {
                Some(h2) => h.t.spec_le(h2.t),
                None => true,
            })),
    decreases idxs.len(),
{
    if idxs.len() == 0 {
    } else {
        let pre = idxs.drop_last();
        lemma_scan_characterization(scene, pre, ray, itv);
        let lastobj = scene[idxs.last() as int];
        lemma_hittable_hit_wf(lastobj, ray, itv);
        let scanpre = spec_scan(scene, pre, ray, itv);
        let lasthit = lastobj.spec_hit(ray, itv);
        let result = spec_scan(scene, idxs, ray, itv);
        assert(result == spec_nearer(scanpre, lasthit));
        if result is Some {
            let h = result->Some_0;
            // The winner is minimal over every object's hit.
            assert forall|j: int|
                0 <= j < idxs.len() implies (match scene[#[trigger] idxs[j] as int].spec_hit(
                ray,
                itv,
            ) {
                Some(h2) => h.t.spec_le(h2.t),
                None => true,
            }) by {
                lemma_hittable_hit_wf(scene[idxs[j] as int], ray, itv);
                if scene[idxs[j] as int].spec_hit(ray, itv) is Some {
                    let h2 = scene[idxs[j] as int].spec_hit(ray, itv)->Some_0;
                    if j < idxs.len() - 1 {
                        assert(pre[j] == idxs[j]);
                        let hp = scanpre->Some_0;
                        if lasthit is Some && lasthit->Some_0.t.spec_lt(hp.t) {
                            let hl = lasthit->Some_0;
                            crate::rat::lemma_frac_lt_le_trans(
                                hl.t.num as int, hl.t.den as int,
                                hp.t.num as int, hp.t.den as int,
                                h2.t.num as int, h2.t.den as int,
                            );
                        }
                    }
                }
            }
            // The winner is one of the objects' own records.
            if lasthit == Some(h) {
                assert(0 <= idxs.len() - 1 < idxs.len() && scene[idxs[idxs.len() - 1] as int].spec_hit(ray, itv) == Some(h));
            } else {
                let j = choose|j: int|
                    0 <= j < pre.len() && scene[#[trigger] pre[j] as int].spec_hit(ray, itv)
                        == Some(h);
                assert(pre[j] == idxs[j]);
                assert(scene[idxs[j] as int].spec_hit(ray, itv) == Some(h));
            }
        }
        // None exactly when nothing hits.
        if result is None {
            assert forall|j: int|
                0 <= j < idxs.len() implies scene[#[trigger] idxs[j] as int].spec_hit(ray, itv)
                is None by {
                if j < idxs.len() - 1 {
                    assert(pre[j] == idxs[j]);
                }
            }
        } else {
            assert(!(forall|j: int|
                0 <= j < idxs.len() ==> scene[#[trigger] idxs[j] as int].spec_hit(ray, itv)
                    is None));
        }
    }
}


/// Numerator of the ray point coordinate on axis `i` at parameter `t`, over
/// the denominator `t.den`.
pub open spec fn pnum(ray: Ray, t: Rat, i: int) -> int {
    oric(ray, i) * t.den + t.num * dirc(ray, i)
}

/// The ray point at parameter `t` lies inside the box: strictly between the
/// slabs on every axis the ray travels, and between them on every axis the
/// ray is parallel to.
pub open spec fn point_interior(b: BoundingBoxStruct, ray: Ray, t: Rat) -> bool {
    forall|i: int|
        0 <= i < 3 ==> if #[trigger] dirc(ray, i) == 0 {
            parallel_inside(b, ray, i)
        } else {
            frac_lt(
                b.min_corner.spec_axis(i).num as int,
                b.min_corner.spec_axis(i).den as int,
                pnum(ray, t, i),
                t.den as int,
            ) && frac_lt(
                pnum(ray, t, i),
                t.den as int,
                b.max_corner.spec_axis(i).num as int,
                b.max_corner.spec_axis(i).den as int,
            )
        }
}

/// Ring rearrangement: a point strictly above the entering slab plane puts
/// the entry parameter strictly below `t` (positive direction).
proof fn lemma_slab_lo_pos(mnnum: int, mnden: int, o: int, d: int, tn: int, td: int)
    by (nonlinear_arith)
    requires
        td > 0,
        d > 0,
        mnden > 0,
        mnnum * td < (o * td + tn * d) * mnden,
    ensures
        (mnnum - o * mnden) * td < tn * (mnden * d),
{
}

/// As `lemma_slab_lo_pos`, for the exit plane (positive direction).
proof fn lemma_slab_hi_pos(mxnum: int, mxden: int, o: int, d: int, tn: int, td: int)
    by (nonlinear_arith)
    requires
        td > 0,
        d > 0,
        mxden > 0,
        (o * td + tn * d) * mxden < mxnum * td,
    ensures
        tn * (mxden * d) < (mxnum - o * mxden) * td,
{
}

/// As `lemma_slab_lo_pos`, for a negative direction (the planes swap).
proof fn lemma_slab_lo_neg(mxnum: int, mxden: int, o: int, d: int, tn: int, td: int)
    by (nonlinear_arith)
    requires
        td > 0,
        d < 0,
        mxden > 0,
        (o * td + tn * d) * mxden < mxnum * td,
    ensures
        (o * mxden - mxnum) * td < tn * (mxden * (-d)),
{
}

/// As `lemma_slab_hi_pos`, for a negative direction.
proof fn lemma_slab_hi_neg(mnnum: int, mnden: int, o: int, d: int, tn: int, td: int)
    by (nonlinear_arith)
    requires
        td > 0,
        d < 0,
        mnden > 0,
        mnnum * td < (o * td + tn * d) * mnden,
    ensures
        tn * (mnden * (-d)) < (o * mnden - mnnum) * td,
{
}

/// If the ray point at some parameter strictly inside the interval lies
/// inside the box (strictly, on the axes the ray travels), the slab test
/// accepts the box: pruning can never hide such a hit.
pub proof fn lemma_interior_implies_slab(b: BoundingBoxStruct, ray: Ray, itv: Interval, t: Rat)
    requires
        b.wf(),
        ray.in_range(),
        itv.wf(),
        t.wf(),
        itv.spec_contains(t),
        point_interior(b, ray, t),
    ensures
        slab_accept(b, ray, itv),
{
    assert(itv.min.spec_lt(itv.max)) by {
        crate::rat::lemma_frac_le_lt_trans(
            itv.min.num as int, itv.min.den as int,
            t.num as int, t.den as int,
            itv.max.num as int, itv.max.den as int,
        );
    }
    assert forall|i: int| 0 <= i < 3 && #[trigger] dirc(ray, i) == 0 implies parallel_inside(
        b,
        ray,
        i,
    ) by {
        assert(point_interior(b, ray, t));
    }
    assert forall|i: int| 0 <= i < 3 && #[trigger] dirc(ray, i) != 0 implies frac_lt(
        alo_num(b, ray, i),
        alo_den(b, ray, i),
        t.num as int,
        t.den as int,
    ) && frac_lt(t.num as int, t.den as int, ahi_num(b, ray, i), ahi_den(b, ray, i)) by {
        let mn = b.min_corner.spec_axis(i);
        let mx = b.max_corner.spec_axis(i);
        if dirc(ray, i) > 0 {
            lemma_slab_lo_pos(mn.num as int, mn.den as int, oric(ray, i), dirc(ray, i), t.num as int, t.den as int);
            lemma_slab_hi_pos(mx.num as int, mx.den as int, oric(ray, i), dirc(ray, i), t.num as int, t.den as int);
        } else {
            lemma_slab_lo_neg(mx.num as int, mx.den as int, oric(ray, i), dirc(ray, i), t.num as int, t.den as int);
            lemma_slab_hi_neg(mn.num as int, mn.den as int, oric(ray, i), dirc(ray, i), t.num as int, t.den as int);
        }
    }
    assert forall|i: int| 0 <= i < 3 && #[trigger] dirc(ray, i) != 0 implies frac_lt(
        itv.min.num as int,
        itv.min.den as int,
        ahi_num(b, ray, i),
        ahi_den(b, ray, i),
    ) && frac_lt(alo_num(b, ray, i), alo_den(b, ray, i), itv.max.num as int, itv.max.den as int) by {
        lemma_axis_den_pos(b, ray, i);
        crate::rat::lemma_frac_le_lt_trans(
            itv.min.num as int, itv.min.den as int,
            t.num as int, t.den as int,
            ahi_num(b, ray, i), ahi_den(b, ray, i),
        );
        crate::rat::lemma_frac_le_lt_trans(
            alo_num(b, ray, i), alo_den(b, ray, i),
            t.num as int, t.den as int,
            itv.max.num as int, itv.max.den as int,
        );
    }
    assert forall|i: int, j: int|
        0 <= i < 3 && 0 <= j < 3 && #[trigger] dirc(ray, i) != 0 && #[trigger] dirc(ray, j)
            != 0 implies frac_lt(
        alo_num(b, ray, i),
        alo_den(b, ray, i),
        ahi_num(b, ray, j),
        ahi_den(b, ray, j),
    ) by {
        lemma_axis_den_pos(b, ray, i);
        lemma_axis_den_pos(b, ray, j);
        crate::rat::lemma_frac_le_lt_trans(
            alo_num(b, ray, i), alo_den(b, ray, i),
            t.num as int, t.den as int,
            ahi_num(b, ray, j), ahi_den(b, ray, j),
        );
    }
}

/// An interior point of an inner box is an interior point of any box that
/// contains it.
pub proof fn lemma_contains_interior(
    outer: BoundingBoxStruct,
    inner: BoundingBoxStruct,
    ray: Ray,
    t: Rat,
)
    requires
        outer.wf(),
        inner.wf(),
        t.wf(),
        box_contains_box(outer, inner),
        point_interior(inner, ray, t),
    ensures
        point_interior(outer, ray, t),
{
    assert forall|i: int| 0 <= i < 3 implies (if #[trigger] dirc(ray, i) == 0 {
        parallel_inside(outer, ray, i)
    } else {
        frac_lt(
            outer.min_corner.spec_axis(i).num as int,
            outer.min_corner.spec_axis(i).den as int,
            pnum(ray, t, i),
            t.den as int,
        ) && frac_lt(
            pnum(ray, t, i),
            t.den as int,
            outer.max_corner.spec_axis(i).num as int,
            outer.max_corner.spec_axis(i).den as int,
        )
    }) by {
        let omn = outer.min_corner.spec_axis(i);
        let omx = outer.max_corner.spec_axis(i);
        let imn = inner.min_corner.spec_axis(i);
        let imx = inner.max_corner.spec_axis(i);
        if dirc(ray, i) == 0 {
            crate::rat::lemma_frac_le_trans(
                omn.num as int, omn.den as int,
                imn.num as int, imn.den as int,
                oric(ray, i), 1,
            );
            crate::rat::lemma_frac_le_trans(
                oric(ray, i), 1,
                imx.num as int, imx.den as int,
                omx.num as int, omx.den as int,
            );
        } else {
            crate::rat::lemma_frac_le_lt_trans(
                omn.num as int, omn.den as int,
                imn.num as int, imn.den as int,
                pnum(ray, t, i), t.den as int,
            );
            crate::rat::lemma_frac_lt_le_trans(
                pnum(ray, t, i), t.den as int,
                imx.num as int, imx.den as int,
                omx.num as int, omx.den as int,
            );
        }
    }
}

/// The componentwise union is a well-formed box containing both arguments.
pub proof fn lemma_spec_surrounding(a: BoundingBoxStruct, b: BoundingBoxStruct)
    requires
        a.wf(),
        b.wf(),
    ensures
        spec_surrounding(a, b).wf(),
        box_contains_box(spec_surrounding(a, b), a),
        box_contains_box(spec_surrounding(a, b), b),
{
    lemma_surround_axis(a.min_corner.x, a.max_corner.x, b.min_corner.x, b.max_corner.x);
    lemma_surround_axis(a.min_corner.y, a.max_corner.y, b.min_corner.y, b.max_corner.y);
    lemma_surround_axis(a.min_corner.z, a.max_corner.z, b.min_corner.z, b.max_corner.z);
}

} // verus!
