use ray_tracer::clamp;
use ray_tracer::rat::{isqrt, Rat};
use ray_tracer::vec3::{Interval, Ray, Vec3};
use ray_tracer::hittables::{
    BoundingBoxStruct, BoundingVolumeTrait, CuboidStruct, Hit, Hittable, HittableListStruct,
    MaterialTrait, SphereStruct, XYRectangleStruct, XZRectangleStruct, YZRectangleStruct,
};
use ray_tracer::bounding_volume::{BVHNodeStruct, BVHNodeType};

fn open_interval(min: i64, max: i64) -> Interval {
    Interval::new(Rat::from_int(min), Rat::from_int(max))
}

#[test]
fn clamp_inside_and_boundaries() {
    assert_eq!(clamp(5, 0, 255), 5);
    assert_eq!(clamp(-3, 0, 255), 0);
    assert_eq!(clamp(300, 0, 255), 255);
    assert_eq!(clamp(0, 0, 255), 0);
    assert_eq!(clamp(255, 0, 255), 255);
}

#[test]
fn rat_order_is_exact() {
    let half = Rat::new(1, 2);
    let two_quarters = Rat::new(2, 4);
    let third = Rat::new(1, 3);
    assert!(half.eq_rat(&two_quarters));
    assert!(third.lt(&half));
    assert!(third.le(&half));
    assert!(!half.lt(&two_quarters));
    let neg = Rat::new(-7, 3);
    assert!(neg.lt(&third));
}

#[test]
fn isqrt_exact_and_floor() {
    assert_eq!(isqrt(0), 0);
    assert_eq!(isqrt(1), 1);
    assert_eq!(isqrt(4), 2);
    assert_eq!(isqrt(8), 2);
    assert_eq!(isqrt(9), 3);
    assert_eq!(isqrt(1_000_000_000_000), 1_000_000);
    assert_eq!(isqrt(999_999_999_999), 999_999);
}

#[test]
fn bounding_box_normalizes_corners() {
    let a = ray_tracer::vec3::RVec3::from_ints(3, -2, 7);
    let b = ray_tracer::vec3::RVec3::from_ints(-1, 5, 7);
    let bx = BoundingBoxStruct::new(a, b);
    assert_eq!(bx.min_corner.x.num, -1);
    assert_eq!(bx.min_corner.y.num, -2);
    assert_eq!(bx.max_corner.x.num, 3);
    assert_eq!(bx.max_corner.y.num, 5);
    assert!(bx.min_corner.z.eq_rat(&bx.max_corner.z));
}

#[test]
fn surrounding_contains_both() {
    let a = BoundingBoxStruct::new(
        ray_tracer::vec3::RVec3::from_ints(0, 0, 0),
        ray_tracer::vec3::RVec3::from_ints(1, 1, 1),
    );
    let b = BoundingBoxStruct::new(
        ray_tracer::vec3::RVec3::from_ints(-5, 2, 0),
        ray_tracer::vec3::RVec3::from_ints(-1, 3, 4),
    );
    let u = BoundingBoxStruct::surrounding(a, b);
    assert_eq!(u.min_corner.x.num, -5);
    assert_eq!(u.min_corner.y.num, 0);
    assert_eq!(u.min_corner.z.num, 0);
    assert_eq!(u.max_corner.x.num, 1);
    assert_eq!(u.max_corner.y.num, 3);
    assert_eq!(u.max_corner.z.num, 4);
}

#[test]
fn slab_test_axis_aligned_ray_with_zero_component() {
    // Ray parallel to the z axis whose origin lies inside the x/y slabs:
    // a zero direction component must not confuse the test.
    let bx = BoundingBoxStruct::new(
        ray_tracer::vec3::RVec3::from_ints(0, 0, 0),
        ray_tracer::vec3::RVec3::from_ints(2, 2, 2),
    );
    let ray = Ray::new(Vec3::new(1, 1, -5), Vec3::new(0, 0, 1));
    assert!(bx.hit(&ray, &open_interval(0, 1_000_000)));
    // Same direction, origin outside the x slab: miss.
    let ray_out = Ray::new(Vec3::new(5, 1, -5), Vec3::new(0, 0, 1));
    assert!(!bx.hit(&ray_out, &open_interval(0, 1_000_000)));
}

#[test]
fn slab_test_tightens_running_interval() {
    // The box lies behind the ray origin: every per-axis crossing is at
    // negative t, so the running interval empties against [0, max].
    let bx = BoundingBoxStruct::new(
        ray_tracer::vec3::RVec3::from_ints(0, 0, 0),
        ray_tracer::vec3::RVec3::from_ints(1, 1, 1),
    );
    let ray = Ray::new(Vec3::new(5, 5, 5), Vec3::new(1, 1, 1));
    assert!(!bx.hit(&ray, &open_interval(0, 1_000_000)));
    // Flipped direction reaches it.
    let back = Ray::new(Vec3::new(5, 5, 5), Vec3::new(-1, -1, -1));
    assert!(bx.hit(&back, &open_interval(0, 1_000_000)));
    // A ray that crosses the x slab and the y slab at disjoint parameter
    // ranges must miss even though it crosses both separately.
    let skew = Ray::new(Vec3::new(-10, 0, 0), Vec3::new(1, 30, 1));
    assert!(!bx.hit(&skew, &open_interval(0, 1_000_000)));
}

#[test]
fn sphere_example_two_roots() {
    // Ray from (0,0,-5) along +z against the unit sphere at the origin:
    // contacts at t = 4 and t = 6; the nearest accepted hit in (0, far) is
    // t = 4 with normal (0,0,-1).
    let sphere = SphereStruct::new(Vec3::new(0, 0, 0), 1, 7);
    let ray = Ray::new(Vec3::new(0, 0, -5), Vec3::new(0, 0, 1));
    let hit = sphere.hit(&ray, &open_interval(0, 1_000_000)).expect("should hit");
    assert!(hit.t.eq_rat(&Rat::from_int(4)));
    assert!(hit.normal.x.eq_rat(&Rat::from_int(0)));
    assert!(hit.normal.y.eq_rat(&Rat::from_int(0)));
    assert!(hit.normal.z.eq_rat(&Rat::from_int(-1)));
    assert!(hit.point.z.eq_rat(&Rat::from_int(-1)));
    assert!(hit.front_face);
    assert_eq!(hit.material, Some(7));
    // Excluding the first root takes the farther one at t = 6.
    let far_hit = sphere.hit(&ray, &open_interval(5, 1_000_000)).expect("should hit");
    assert!(far_hit.t.eq_rat(&Rat::from_int(6)));
    // Both roots outside the interval: no hit.
    assert!(sphere.hit(&ray, &open_interval(7, 1_000_000)).is_none());
    // Ray pointing away misses in (0, far).
    let away = Ray::new(Vec3::new(0, 0, -5), Vec3::new(0, 0, -1));
    assert!(sphere.hit(&away, &open_interval(0, 1_000_000)).is_none());
}

#[test]
fn sphere_interval_is_open() {
    // A hit exactly at the interval end is rejected: both ends exclusive.
    let sphere = SphereStruct::new(Vec3::new(0, 0, 0), 1, 0);
    let ray = Ray::new(Vec3::new(0, 0, -5), Vec3::new(0, 0, 1));
    assert!(sphere.hit(&ray, &open_interval(4, 1_000_000)).is_some());
    assert!(sphere.hit(&ray, &open_interval(0, 4)).is_none());
}

#[test]
fn rectangle_example_misses_outside_bounds() {
    // An XY-rectangle over [0,1] x [0,1] at k = 0; a ray aimed at the plane
    // point (2,2,0) hits the infinite plane but must miss the rectangle.
    let rect = XYRectangleStruct::new(0, 1, 0, 1, 0, 3);
    let aimed = Ray::new(Vec3::new(0, 0, -5), Vec3::new(2, 2, 5));
    assert!(rect.hit(&aimed, &open_interval(0, 1_000_000)).is_none());
    // Straight through the middle of the plane region: hit at t = 5 with the
    // normal flipped against the ray.
    let through = Ray::new(Vec3::new(0, 0, -5), Vec3::new(0, 0, 1));
    let hit = rect.hit(&through, &open_interval(0, 1_000_000)).expect("should hit");
    assert!(hit.t.eq_rat(&Rat::from_int(5)));
    assert!(hit.normal.z.eq_rat(&Rat::from_int(-1)));
    assert_eq!(hit.material, Some(3));
    // Parallel ray misses.
    let parallel = Ray::new(Vec3::new(0, 0, -5), Vec3::new(1, 0, 0));
    assert!(rect.hit(&parallel, &open_interval(0, 1_000_000)).is_none());
}

#[test]
fn rectangle_orientations() {
    let xz = XZRectangleStruct::new(0, 2, 0, 2, 0, 1);
    let down = Ray::new(Vec3::new(1, 5, 1), Vec3::new(0, -1, 0));
    let hit = xz.hit(&down, &open_interval(0, 1_000_000)).expect("should hit");
    assert!(hit.t.eq_rat(&Rat::from_int(5)));
    assert!(hit.normal.y.eq_rat(&Rat::from_int(1)));
    let yz = YZRectangleStruct::new(0, 2, 0, 2, 0, 1);
    let across = Ray::new(Vec3::new(-3, 1, 1), Vec3::new(1, 0, 0));
    let hit2 = yz.hit(&across, &open_interval(0, 1_000_000)).expect("should hit");
    assert!(hit2.t.eq_rat(&Rat::from_int(3)));
    assert!(hit2.normal.x.eq_rat(&Rat::from_int(-1)));
}

#[test]
fn rectangle_bounding_volume_is_padded() {
    let rect = XYRectangleStruct::new(0, 1, 0, 1, 0, 0);
    let bv = rect.bounding_volume();
    // The degenerate fixed axis is padded by 1/10000 each way.
    assert_eq!(bv.min_corner.z.num, -1);
    assert_eq!(bv.min_corner.z.den, 10_000);
    assert_eq!(bv.max_corner.z.num, 1);
    assert_eq!(bv.max_corner.z.den, 10_000);
    assert_eq!(bv.min_corner.x.num, 0);
    assert_eq!(bv.max_corner.x.num, 1);
}

#[test]
fn cuboid_example_front_face() {
    // Cuboid spanning (0,0,0)..(2,2,2); a ray from (1,1,-10) along (0,0,2)
    // reaches the z = 0 face at t = 5 with normal (0,0,-1).
    let cuboid = CuboidStruct::new(Vec3::new(0, 0, 0), Vec3::new(2, 2, 2), 9);
    let ray = Ray::new(Vec3::new(1, 1, -10), Vec3::new(0, 0, 2));
    let hit = cuboid.hit(&ray, &open_interval(0, 1_000_000)).expect("should hit");
    assert!(hit.t.eq_rat(&Rat::from_int(5)));
    assert!(hit.normal.z.eq_rat(&Rat::from_int(-1)));
    assert_eq!(hit.material, Some(9));
    // The exact box needs no padding.
    let bv = cuboid.bounding_volume();
    assert_eq!(bv.min_corner.x.num, 0);
    assert_eq!(bv.max_corner.x.num, 2);
    // A ray beside the cuboid misses.
    let beside = Ray::new(Vec3::new(5, 5, -10), Vec3::new(0, 0, 2));
    assert!(cuboid.hit(&beside, &open_interval(0, 1_000_000)).is_none());
}

fn sample_scene() -> Vec<Hittable> {
    vec![
        Hittable::Sphere(SphereStruct::new(Vec3::new(0, 0, 0), 1, 0)),
        Hittable::Sphere(SphereStruct::new(Vec3::new(4, 0, 0), 1, 1)),
        Hittable::Sphere(SphereStruct::new(Vec3::new(-4, 0, 0), 2, 2)),
        Hittable::Cuboid(CuboidStruct::new(Vec3::new(8, -1, -1), Vec3::new(10, 1, 1), 3)),
        Hittable::XYRectangle(XYRectangleStruct::new(-1, 1, -1, 1, 20, 4)),
        Hittable::Sphere(SphereStruct::new(Vec3::new(0, 6, 0), 1, 5)),
    ]
}

fn sample_rays() -> Vec<Ray> {
    vec![
        Ray::new(Vec3::new(0, 0, -5), Vec3::new(0, 0, 1)),
        Ray::new(Vec3::new(-20, 0, 0), Vec3::new(1, 0, 0)),
        Ray::new(Vec3::new(20, 0, 0), Vec3::new(-1, 0, 0)),
        Ray::new(Vec3::new(0, -20, 0), Vec3::new(0, 1, 0)),
        Ray::new(Vec3::new(0, 0, -5), Vec3::new(1, 1, 5)),
        Ray::new(Vec3::new(0, 0, 30), Vec3::new(0, 0, -1)),
        Ray::new(Vec3::new(100, 100, 100), Vec3::new(1, 1, 1)),
    ]
}

#[test]
fn list_scan_tracks_closest_hit() {
    let scene = sample_scene();
    let list = HittableListStruct::from(vec![0, 1, 2, 3, 4, 5]);
    // A ray along +x from far left reaches the big sphere at x = -4 first:
    // center -4, radius 2, so first contact at x = -6, t = 14.
    let ray = Ray::new(Vec3::new(-20, 0, 0), Vec3::new(1, 0, 0));
    let hit = list.hit(&scene, &ray, &open_interval(0, 1_000_000)).expect("should hit");
    assert!(hit.t.eq_rat(&Rat::from_int(14)));
    assert_eq!(hit.material, Some(2));
    // The empty list never hits and has no box.
    let empty = HittableListStruct::new();
    assert!(empty.hit(&scene, &ray, &open_interval(0, 1_000_000)).is_none());
    assert!(empty.bounding_volume(&scene).is_none());
}

#[test]
fn list_bounding_volume_contains_members() {
    let scene = sample_scene();
    let list = HittableListStruct::new().push(0).push(1).push(3);
    let bv = list.bounding_volume(&scene).expect("nonempty");
    // Covers sphere at origin (-1..1), sphere at x=4 (3..5), cuboid 8..10.
    assert_eq!(bv.min_corner.x.num, -1);
    assert_eq!(bv.max_corner.x.num, 10);
    assert_eq!(bv.min_corner.y.num, -1);
    assert_eq!(bv.max_corner.y.num, 1);
}

#[test]
fn bvh_matches_linear_scan() {
    // The key acceleration-correctness check: traversal and brute force
    // agree on every sample ray, for several seeds.
    let scene = sample_scene();
    for seed in [0u64, 1, 42, 12345] {
        let mut objects = HittableListStruct::from(vec![0, 1, 2, 3, 4, 5]);
        let len = objects.list.len();
        let tree = BVHNodeStruct::new(&mut objects, &scene, 0, len, seed);
        let brute = HittableListStruct::from(vec![0, 1, 2, 3, 4, 5]);
        for ray in sample_rays() {
            let itv = open_interval(0, 1_000_000);
            let fast = tree.hit(&scene, &ray, &itv);
            let slow = brute.hit(&scene, &ray, &itv);
            match (fast, slow) {
                (None, None) => {}
                (Some(f), Some(s)) => assert!(f.t.eq_rat(&s.t)),
                _ => panic!("traversal and scan disagree"),
            }
        }
    }
}

#[test]
fn bvh_single_object_matches_direct() {
    let scene = sample_scene();
    let mut objects = HittableListStruct::from(vec![0]);
    let tree = BVHNodeStruct::new(&mut objects, &scene, 0, 1, 11);
    let ray = Ray::new(Vec3::new(0, 0, -5), Vec3::new(0, 0, 1));
    let itv = open_interval(0, 1_000_000);
    let direct = match &scene[0] {
        Hittable::Sphere(s) => s.hit(&ray, &itv),
        _ => unreachable!(),
    };
    let through_tree = tree.hit(&scene, &ray, &itv);
    let d = direct.expect("hit");
    let t = through_tree.expect("hit");
    assert!(d.t.eq_rat(&t.t));
    let miss = Ray::new(Vec3::new(0, 50, 0), Vec3::new(1, 0, 0));
    assert!(tree.hit(&scene, &miss, &itv).is_none());
}

#[test]
fn bvh_object_pair_matches_nearer() {
    let scene = sample_scene();
    // Spheres at x = 0 and x = 4; a ray along +x meets the origin sphere
    // first at t = 19 (origin x = -20, first contact x = -1).
    let mut objects = HittableListStruct::from(vec![0, 1]);
    let tree = BVHNodeStruct::new(&mut objects, &scene, 0, 2, 5);
    let ray = Ray::new(Vec3::new(-20, 0, 0), Vec3::new(1, 0, 0));
    let itv = open_interval(0, 1_000_000);
    let hit = tree.hit(&scene, &ray, &itv).expect("hit");
    assert!(hit.t.eq_rat(&Rat::from_int(19)));
    assert_eq!(hit.material, Some(0));
}

#[test]
fn bvh_build_is_reproducible_under_seed() {
    let scene = sample_scene();
    let run = |seed: u64| -> Vec<usize> {
        let mut objects = HittableListStruct::from(vec![0, 1, 2, 3, 4, 5]);
        let len = objects.list.len();
        let _ = BVHNodeStruct::new(&mut objects, &scene, 0, len, seed);
        objects.list
    };
    assert_eq!(run(42), run(42));
}

#[test]
fn is_closer_orders_by_box_minimum() {
    let a = Hittable::Sphere(SphereStruct::new(Vec3::new(0, 0, 0), 1, 0));
    let b = Hittable::Sphere(SphereStruct::new(Vec3::new(4, 0, 0), 1, 1));
    assert_eq!(BVHNodeStruct::is_closer(&a, &b, 0), core::cmp::Ordering::Less);
    assert_eq!(BVHNodeStruct::is_closer(&b, &a, 0), core::cmp::Ordering::Greater);
    assert_eq!(BVHNodeStruct::is_closer(&a, &b, 1), core::cmp::Ordering::Equal);
}

#[test]
fn material_and_bounding_volume_traits() {
    let obj = Hittable::Sphere(SphereStruct::new(Vec3::new(2, 0, 0), 1, 13));
    assert_eq!(obj.material(), Some(13));
    let bv = obj.bounding_volume().expect("always boxed");
    assert_eq!(bv.min_corner.x.num, 1);
    assert_eq!(bv.max_corner.x.num, 3);
    let itv = open_interval(0, 1_000_000);
    let ray = Ray::new(Vec3::new(2, 0, -9), Vec3::new(0, 0, 1));
    let hit = obj.hit(&ray, &itv).expect("hit");
    assert!(hit.t.eq_rat(&Rat::from_int(8)));
}

#[test]
fn hit_t_lies_strictly_inside_interval() {
    // Every returned hit parameter lies strictly between the interval ends.
    let scene = sample_scene();
    let list = HittableListStruct::from(vec![0, 1, 2, 3, 4, 5]);
    for ray in sample_rays() {
        let itv = open_interval(1, 25);
        if let Some(h) = list.hit(&scene, &ray, &itv) {
            assert!(itv.min.lt(&h.t));
            assert!(h.t.lt(&itv.max));
        }
    }
}

#[test]
fn bvh_does_not_prune_rectangle_hits() {
    // The padded axis of a rectangle's bounding volume must be its fixed
    // axis: a BVH over a single XZ-rectangle at y = 0 must still see a ray
    // coming straight down the y axis.
    let scene = vec![Hittable::XZRectangle(XZRectangleStruct::new(0, 2, 0, 2, 0, 1))];
    let mut objects = HittableListStruct::from(vec![0]);
    let tree = BVHNodeStruct::new(&mut objects, &scene, 0, 1, 3);
    let down = Ray::new(Vec3::new(1, 5, 1), Vec3::new(0, -1, 0));
    let hit = tree.hit(&scene, &down, &open_interval(0, 1_000_000)).expect("must not be pruned");
    assert!(hit.t.eq_rat(&Rat::from_int(5)));
}

#[test]
fn cuboid_hit_from_inside() {
    // From inside the cuboid the ray leaves through the z = 2 face at
    // t = 1/2; the stored normal opposes the ray.
    let cuboid = CuboidStruct::new(Vec3::new(0, 0, 0), Vec3::new(2, 2, 2), 0);
    let ray = Ray::new(Vec3::new(1, 1, 1), Vec3::new(0, 0, 2));
    let hit = cuboid.hit(&ray, &open_interval(0, 1_000_000)).expect("should hit");
    assert!(hit.t.eq_rat(&Rat::new(1, 2)));
    assert!(hit.normal.z.eq_rat(&Rat::from_int(-1)));
    assert!(!hit.front_face);
}

#[test]
fn bvh_pair_smaller_goes_left() {
    // The two objects' box keys agree on every axis, so whatever axis the
    // builder draws, the smaller key must end up as the left leaf.
    let scene = vec![
        Hittable::Sphere(SphereStruct::new(Vec3::new(0, 0, 0), 1, 0)),
        Hittable::Sphere(SphereStruct::new(Vec3::new(4, 4, 4), 1, 1)),
    ];
    for seed in [0u64, 7, 99] {
        // Hand the builder the pair in reversed order.
        let mut objects = HittableListStruct::from(vec![1, 0]);
        let tree = BVHNodeStruct::new(&mut objects, &scene, 0, 2, seed);
        match tree.left {
            BVHNodeType::Hittable(i) => assert_eq!(i, 0),
            _ => panic!("a two-object tree has leaf children"),
        }
        match tree.right {
            BVHNodeType::Hittable(i) => assert_eq!(i, 1),
            _ => panic!("a two-object tree has leaf children"),
        }
        // The list itself is left untouched for a pair.
        assert_eq!(objects.list, vec![1, 0]);
    }
}

#[test]
fn bvh_handles_repeated_indices() {
    // A list may name the same object more than once; the builder must keep
    // the segment a permutation and traversal must still agree with the scan.
    let scene = sample_scene();
    let indices = vec![0usize, 0, 2, 1, 2];
    let mut objects = HittableListStruct::from(indices.clone());
    let len = objects.list.len();
    let tree = BVHNodeStruct::new(&mut objects, &scene, 0, len, 8);
    let mut sorted_after = objects.list.clone();
    sorted_after.sort();
    let mut sorted_before = indices.clone();
    sorted_before.sort();
    assert_eq!(sorted_after, sorted_before);
    let brute = HittableListStruct::from(indices);
    for ray in sample_rays() {
        let itv = open_interval(0, 1_000_000);
        match (tree.hit(&scene, &ray, &itv), brute.hit(&scene, &ray, &itv)) {
            (None, None) => {}
            (Some(f), Some(s)) => assert!(f.t.eq_rat(&s.t)),
            _ => panic!("traversal and scan disagree"),
        }
    }
}
