//! Bounding volume hierarchy: recursive builder and pruning traversal.
//!
//! A [`BVHNodeStruct`] is a strictly binary tree whose leaves are indices
//! into externally owned scene storage.  Its bounding volume is always the
//! union of its children's volumes, and traversal prunes a subtree only when
//! the exact slab test rejects its volume, so traversal provably returns the
//! same nearest hit as a brute-force scan over the same objects
//! ([`lemma_bvh_matches_linear_scan`]).

use vstd::prelude::*;

use crate::rat::Rat;
use crate::vec3::Ray;
use crate::vec3::Interval;
use crate::vec3::HitRecord;
use crate::hittables::BoundingBoxStruct;
use crate::hittables::Hittable;
use crate::hittables::Hit;
use crate::hittables::HittableListStruct;
use crate::hittables::box_contains_box;
use crate::hittables::lemma_contains_trans;
use crate::hittables::lemma_contains_interior;
use crate::hittables::lemma_hittable_hit_wf;
use crate::hittables::lemma_interior_implies_slab;
use crate::hittables::lemma_obj_bv_wf;
use crate::hittables::lemma_spec_surrounding;
use crate::hittables::obj_bv;
use crate::hittables::point_interior;
use crate::hittables::scene_wf;
use crate::hittables::slab_accept;
use crate::hittables::spec_scan;
use crate::hittables::spec_surrounding;

verus! {

/// The seeded random number generator of the rand crate, opaque to the
/// verifier; the builder draws partition axes from it.
#[verifier::external_type_specification]
#[verifier::external_body]
pub struct ExStdRng(rand::rngs::StdRng);

/// Relies on `rand::SeedableRng::seed_from_u64` for `rand::rngs::StdRng`:
/// builds a generator whose output is a function of the seed alone, so BVH
/// construction is reproducible under a fixed seed.
#[verifier::external_body]
fn rng_from_seed(seed: u64) -> rand::rngs::StdRng {
    <rand::rngs::StdRng as rand::SeedableRng>::seed_from_u64(seed)
}

/// Relies on `rand::Rng::gen_range` over the nonempty range `0..3`: the
/// drawn value is one of 0, 1, 2.
#[verifier::external_body]
fn random_axis(rng: &mut rand::rngs::StdRng) -> (r: usize)
    ensures
        r < 3,
{
    rand::Rng::gen_range(rng, 0..3usize)
}

/// A child of a BVH node: an owned nested node, or a leaf naming a scene
/// object by index.
#[derive(Debug)]
pub enum BVHNodeType {
    BVHNode(Box<BVHNodeStruct>),
    Hittable(usize),
}

/// An internal BVH node: strictly binary, built once, never mutated.
#[derive(Debug)]
pub struct BVHNodeStruct {
    pub left: BVHNodeType,
    pub right: BVHNodeType,
}

impl BVHNodeType {
    /// Every leaf index points into the scene.
    pub open spec fn wf_for(self, scene: Seq<Hittable>) -> bool
        decreases self,
    {
        match self {
            BVHNodeType::BVHNode(n) => n.wf_for(scene),
            BVHNodeType::Hittable(i) => i < scene.len(),
        }
    }

    /// The child's bounding volume.
    pub open spec fn spec_bounding_volume(self, scene: Seq<Hittable>) -> BoundingBoxStruct
        decreases self,
    {
        match self {
            BVHNodeType::BVHNode(n) => n.spec_bounding_volume(scene),
            BVHNodeType::Hittable(i) => obj_bv(scene[i as int]),
        }
    }

    /// The child's intersection result.
    pub open spec fn spec_hit(self, scene: Seq<Hittable>, ray: Ray, itv: Interval) -> Option<HitRecord>
        decreases self,
    {
        match self {
            BVHNodeType::BVHNode(n) => n.spec_hit(scene, ray, itv),
            BVHNodeType::Hittable(i) => scene[i as int].spec_hit(ray, itv),
        }
    }

    /// Whether scene index `x` appears as a leaf below this child.
    pub open spec fn leaf_contains(self, x: usize) -> bool
        decreases self,
    {
        match self {
            BVHNodeType::BVHNode(n) => n.leaf_contains(x),
            BVHNodeType::Hittable(i) => i == x,
        }
    }

    /// The bounding volume of this child.
    pub fn bounding_volume(&self, scene: &Vec<Hittable>) -> (r: BoundingBoxStruct)
        requires
            self.wf_for(scene@),
            scene_wf(scene@),
        ensures
            r == self.spec_bounding_volume(scene@),
            r.wf(),
        decreases *self,
    {
        match self {
            BVHNodeType::BVHNode(n) => n.bounding_volume(scene),
            BVHNodeType::Hittable(i) => {
                crate::hittables::obj_bounding_volume(&scene[*i])
            },
        }
    }

    /// Intersection of the ray with this child.
    fn hit(&self, scene: &Vec<Hittable>, ray: &Ray, interval: &Interval) -> (res: Option<HitRecord>)
        requires
            self.wf_for(scene@),
            scene_wf(scene@),
            ray.in_range(),
            interval.wf(),
        ensures
            res == self.spec_hit(scene@, *ray, *interval),
            res matches Some(h) ==> interval.spec_contains(h.t) && h.wf(),
        decreases *self,
    {
        match self {
            BVHNodeType::BVHNode(n) => n.hit(scene, ray, interval),
            BVHNodeType::Hittable(i) => scene[*i].hit(ray, interval),
        }
    }
}

impl BVHNodeStruct {
    pub open spec fn wf_for(self, scene: Seq<Hittable>) -> bool
        decreases self,
    {
        self.left.wf_for(scene) && self.right.wf_for(scene)
    }

    /// Invariant by construction: a node's volume is the union of its
    /// children's volumes.
    pub open spec fn spec_bounding_volume(self, scene: Seq<Hittable>) -> BoundingBoxStruct
        decreases self,
    {
        spec_surrounding(
            self.left.spec_bounding_volume(scene),
            self.right.spec_bounding_volume(scene),
        )
    }

    /// Traversal: prune the whole subtree when the slab test rejects the
    /// node's volume; otherwise visit both children unconditionally and
    /// return the strictly closer hit (the right child's on an exact tie).
    pub open spec fn spec_hit(self, scene: Seq<Hittable>, ray: Ray, itv: Interval) -> Option<HitRecord>
        decreases self,
    {
        if !slab_accept(self.spec_bounding_volume(scene), ray, itv) {
            None::<HitRecord>
        } else {
            let lh = self.left.spec_hit(scene, ray, itv);
            let rh = self.right.spec_hit(scene, ray, itv);
            match lh {
                None => rh,
                Some(l) => match rh {
                    None => Some(l),
                    Some(r) => if l.t.spec_lt(r.t) {
                        Some(l)
                    } else {
                        Some(r)
                    },
                },
            }
        }
    }

    /// Whether scene index `x` appears as a leaf of this subtree.
    pub open spec fn leaf_contains(self, x: usize) -> bool
        decreases self,
    {
        self.left.leaf_contains(x) || self.right.leaf_contains(x)
    }

    /// The union of the children's bounding volumes.
    pub fn bounding_volume(&self, scene: &Vec<Hittable>) -> (r: BoundingBoxStruct)
        requires
            self.wf_for(scene@),
            scene_wf(scene@),
        ensures
            r == self.spec_bounding_volume(scene@),
            r.wf(),
        decreases *self,
    {
        BoundingBoxStruct::surrounding(
            self.left.bounding_volume(scene),
            self.right.bounding_volume(scene),
        )
    }

    /// Nearest-hit query against the subtree: test the node's volume first
    /// and prune on a miss; otherwise recurse into both children.
    pub fn hit(&self, scene: &Vec<Hittable>, ray: &Ray, interval: &Interval) -> (res: Option<HitRecord>)
        requires
            self.wf_for(scene@),
            scene_wf(scene@),
            ray.in_range(),
            interval.wf(),
        ensures
            res == self.spec_hit(scene@, *ray, *interval),
            res matches Some(h) ==> interval.spec_contains(h.t) && h.wf(),
        decreases *self,
    {
        if !self.bounding_volume(scene).hit(ray, interval) {
            return None;
        }
        let left_hit = self.left.hit(scene, ray, interval);
        let right_hit = self.right.hit(scene, ray, interval);
        match left_hit {
            None => right_hit,
            Some(l) => match right_hit {
                None => Some(l),
                Some(r) => if l.is_closer_than(&r) {
                    Some(l)
                } else {
                    Some(r)
                },
            },
        }
    }
}

/// The minimal corner of the object's bounding box along `axis`: the key the
/// builder partitions by.
pub open spec fn bv_key(obj: Hittable, axis: int) -> Rat {
    obj_bv(obj).min_corner.spec_axis(axis)
}

/// Whether the object at index `a` sorts strictly before the one at `b`.
fn closer_lt(scene: &Vec<Hittable>, a: usize, b: usize, axis: usize) -> (r: bool)
    requires
        scene_wf(scene@),
        a < scene@.len(),
        b < scene@.len(),
        axis < 3,
    ensures
        r == bv_key(scene@[a as int], axis as int).spec_lt(bv_key(scene@[b as int], axis as int)),
{
    let ka = crate::hittables::obj_bounding_volume(&scene[a]).min_corner.axis(axis);
    let kb = crate::hittables::obj_bounding_volume(&scene[b]).min_corner.axis(axis);
    ka.lt(&kb)
}

/// The keys of `list[a..b)` are in non-decreasing order along `axis`.
pub open spec fn sorted_by_key(list: Seq<usize>, scene: Seq<Hittable>, a: int, b: int, axis: int) -> bool {
    forall|p: int, q: int|
        a <= p < q < b ==> !bv_key(scene[#[trigger] list[q] as int], axis).spec_lt(
            bv_key(scene[#[trigger] list[p] as int], axis),
        )
}

/// Some position of `s` in `[a, b)` holds `x`.
pub open spec fn seg_has(s: Seq<usize>, a: int, b: int, x: usize) -> bool {
    exists|j: int| a <= j < b && #[trigger] s[j] == x
}

/// Keys are well-formed rationals, so their order is transitive.
proof fn lemma_key_le_trans(scene: Seq<Hittable>, a: usize, b: usize, c: usize, axis: int)
    requires
        scene_wf(scene),
        a < scene.len(),
        b < scene.len(),
        c < scene.len(),
        0 <= axis < 3,
        !bv_key(scene[b as int], axis).spec_lt(bv_key(scene[a as int], axis)),
        !bv_key(scene[c as int], axis).spec_lt(bv_key(scene[b as int], axis)),
    ensures
        !bv_key(scene[c as int], axis).spec_lt(bv_key(scene[a as int], axis)),
{
    lemma_obj_bv_wf(scene[a as int]);
    lemma_obj_bv_wf(scene[b as int]);
    lemma_obj_bv_wf(scene[c as int]);
    let ka = bv_key(scene[a as int], axis);
    let kb = bv_key(scene[b as int], axis);
    let kc = bv_key(scene[c as int], axis);
    crate::rat::lemma_frac_le_trans(
        ka.num as int, ka.den as int,
        kb.num as int, kb.den as int,
        kc.num as int, kc.den as int,
    );
}

/// Two sequences equal on `[a, b)` hold the same values there.
proof fn lemma_seg_has_frame(s1: Seq<usize>, s2: Seq<usize>, a: int, b: int)
    requires
        s1.len() == s2.len(),
        0 <= a,
        b <= s1.len(),
        forall|i: int| a <= i < b ==> s1[i] == s2[i],
    ensures
        forall|x: usize| #[trigger] seg_has(s1, a, b, x) <==> seg_has(s2, a, b, x),
{
    assert forall|x: usize| #[trigger] seg_has(s1, a, b, x) <==> seg_has(s2, a, b, x) by {
        if seg_has(s1, a, b, x) {
            let j = choose|j: int| a <= j < b && #[trigger] s1[j] == x;
            assert(s2[j] == x);
        }
        if seg_has(s2, a, b, x) {
            let j = choose|j: int| a <= j < b && #[trigger] s2[j] == x;
            assert(s1[j] == x);
        }
    }
}

/// A segment holds a value iff one of its two halves does.
proof fn lemma_seg_has_split(s: Seq<usize>, a: int, m: int, b: int)
    requires
        0 <= a <= m <= b <= s.len(),
    ensures
        forall|x: usize| #[trigger] seg_has(s, a, b, x) <==> (seg_has(s, a, m, x) || seg_has(
            s,
            m,
            b,
            x,
        )),
{
    assert forall|x: usize|
        #[trigger] seg_has(s, a, b, x) <==> (seg_has(s, a, m, x) || seg_has(s, m, b, x)) by {
        if seg_has(s, a, b, x) {
            let j = choose|j: int| a <= j < b && #[trigger] s[j] == x;
            if j < m {
                assert(seg_has(s, a, m, x));
            } else {
                assert(seg_has(s, m, b, x));
            }
        }
        if seg_has(s, a, m, x) {
            let j = choose|j: int| a <= j < m && #[trigger] s[j] == x;
            assert(a <= j < b && s[j] == x);
        }
        if seg_has(s, m, b, x) {
            let j = choose|j: int| m <= j < b && #[trigger] s[j] == x;
            assert(a <= j < b && s[j] == x);
        }
    }
}

/// Swapping two positions inside a segment does not change what it holds.
proof fn lemma_swap_seg_has(s1: Seq<usize>, s2: Seq<usize>, a: int, b: int, j: int)
    requires
        0 <= a <= j - 1,
        j < b <= s1.len(),
        s2 == s1.update(j - 1, s1[j]).update(j, s1[j - 1]),
    ensures
        forall|x: usize| #[trigger] seg_has(s2, a, b, x) <==> seg_has(s1, a, b, x),
{
    assert forall|x: usize| #[trigger] seg_has(s2, a, b, x) <==> seg_has(s1, a, b, x) by {
        if seg_has(s1, a, b, x) {
            let w = choose|w: int| a <= w < b && #[trigger] s1[w] == x;
            if w == j - 1 {
                assert(s2[j] == x);
            } else if w == j {
                assert(s2[j - 1] == x);
            } else {
                assert(s2[w] == x);
            }
        }
        if seg_has(s2, a, b, x) {
            let w = choose|w: int| a <= w < b && #[trigger] s2[w] == x;
            if w == j - 1 {
                assert(s1[j] == x);
            } else if w == j {
                assert(s1[j - 1] == x);
            } else {
                assert(s1[w] == x);
            }
        }
    }
}

/// Non-decreasing keys over `[a, b)`, ignoring pairs whose upper position
/// is `j` (the hole an insertion is still moving through).
spec fn sorted_except(list: Seq<usize>, scene: Seq<Hittable>, a: int, b: int, j: int, axis: int) -> bool {
    forall|p: int, q: int|
        a <= p < q < b && q != j ==> !bv_key(scene[#[trigger] list[q] as int], axis).spec_lt(
            bv_key(scene[#[trigger] list[p] as int], axis),
        )
}

/// Swapping two positions of a sequence leaves its multiset unchanged.
proof fn lemma_swap_multiset(s: Seq<usize>, i: int, j: int)
    requires
        0 <= i < j < s.len(),
    ensures
        s.update(i, s[j]).update(j, s[i]).to_multiset() == s.to_multiset(),
{
    broadcast use vstd::multiset::group_multiset_axioms;

    let a = s[i];
    let b = s[j];
    let u = s.update(i, b);
    vstd::seq_lib::to_multiset_update(s, i, b);
    vstd::seq_lib::to_multiset_update(u, j, a);
    vstd::seq_lib::to_multiset_contains(s, a);
    vstd::seq_lib::to_multiset_contains(s, b);
    assert(s.contains(a));
    assert(s.contains(b));
    assert(u[j] == b);
    assert(u.update(j, a).to_multiset() =~= s.to_multiset());
}

/// Swapping two positions inside `[a, b)` leaves the segment's multiset
/// unchanged.
proof fn lemma_swap_subrange_multiset(s1: Seq<usize>, s2: Seq<usize>, a: int, b: int, j: int)
    requires
        0 <= a <= j - 1,
        j < b <= s1.len(),
        s2 == s1.update(j - 1, s1[j]).update(j, s1[j - 1]),
    ensures
        s2.subrange(a, b).to_multiset() == s1.subrange(a, b).to_multiset(),
{
    let t1 = s1.subrange(a, b);
    let t2 = s2.subrange(a, b);
    assert(t2 =~= t1.update(j - 1 - a, t1[j - a]).update(j - a, t1[j - 1 - a]));
    lemma_swap_multiset(t1, j - 1 - a, j - a);
}

/// A segment's multiset is the sum of the multisets of its two halves.
proof fn lemma_subrange_split_multiset(s: Seq<usize>, a: int, m: int, b: int)
    requires
        0 <= a <= m <= b <= s.len(),
    ensures
        s.subrange(a, b).to_multiset() == s.subrange(a, m).to_multiset().add(
            s.subrange(m, b).to_multiset(),
        ),
{
    assert(s.subrange(a, b) =~= s.subrange(a, m) + s.subrange(m, b));
    vstd::seq_lib::lemma_multiset_commutative(s.subrange(a, m), s.subrange(m, b));
}

/// The node is a pair of leaves over `ia` and `ib`, the one with the
/// smaller bounding-box key along `ax` on the left.
pub open spec fn pair_leaves_ordered(
    node: BVHNodeStruct,
    scene: Seq<Hittable>,
    ia: usize,
    ib: usize,
    ax: int,
) -> bool {
    ||| (node.left == BVHNodeType::Hittable(ia) && node.right == BVHNodeType::Hittable(ib)
        && !bv_key(scene[ib as int], ax).spec_lt(bv_key(scene[ia as int], ax)))
    ||| (node.left == BVHNodeType::Hittable(ib) && node.right == BVHNodeType::Hittable(ia)
        && !bv_key(scene[ia as int], ax).spec_lt(bv_key(scene[ib as int], ax)))
}

/// Stable insertion sort of `list[start..end]` by the objects' box keys
/// along `axis`: the segment afterwards holds exactly the values it held
/// before, and nothing outside it moves.
fn sort_range(list: &mut Vec<usize>, scene: &Vec<Hittable>, start: usize, end: usize, axis: usize)
    requires
        start <= end <= old(list)@.len(),
        scene_wf(scene@),
        axis < 3,
        forall|i: int| 0 <= i < old(list)@.len() ==> (#[trigger] old(list)@[i]) < scene@.len(),
    ensures
        final(list)@.len() == old(list)@.len(),
        forall|i: int| 0 <= i < final(list)@.len() && !(start <= i < end)
            ==> #[trigger] final(list)@[i] == old(list)@[i],
        forall|i: int| 0 <= i < final(list)@.len() ==> (#[trigger] final(list)@[i]) < scene@.len(),
        forall|x: usize| #[trigger] seg_has(final(list)@, start as int, end as int, x) <==> seg_has(
            old(list)@,
            start as int,
            end as int,
            x,
        ),
        sorted_by_key(final(list)@, scene@, start as int, end as int, axis as int),
        final(list)@.subrange(start as int, end as int).to_multiset() == old(list)@.subrange(
            start as int,
            end as int,
        ).to_multiset(),
{
    if end <= start {
        return ;
    }
    let mut i: usize = start + 1;
    while i < end
        invariant
            start < i <= end <= list@.len(),
            scene_wf(scene@),
            axis < 3,
            sorted_by_key(list@, scene@, start as int, i as int, axis as int),
            list@.len() == old(list)@.len(),
            forall|k: int| 0 <= k < list@.len() && !(start <= k < end) ==> #[trigger] list@[k]
                == old(list)@[k],
            forall|k: int| 0 <= k < list@.len() ==> (#[trigger] list@[k]) < scene@.len(),
            forall|x: usize| #[trigger] seg_has(list@, start as int, end as int, x) <==> seg_has(
                old(list)@,
                start as int,
                end as int,
                x,
            ),
            list@.subrange(start as int, end as int).to_multiset() == old(list)@.subrange(
                start as int,
                end as int,
            ).to_multiset(),
        decreases end - i,
    {
        let mut j: usize = i;
        proof {
            assert(sorted_except(list@, scene@, start as int, i + 1, i as int, axis as int));
        }
        loop
            invariant_except_break
                start <= j <= i,
                sorted_except(list@, scene@, start as int, i + 1, j as int, axis as int),
            invariant
                start < i < end <= list@.len(),
                scene_wf(scene@),
                axis < 3,
                list@.len() == old(list)@.len(),
                forall|k: int| 0 <= k < list@.len() && !(start <= k < end) ==> #[trigger] list@[k]
                    == old(list)@[k],
                forall|k: int| 0 <= k < list@.len() ==> (#[trigger] list@[k]) < scene@.len(),
                forall|x: usize| #[trigger] seg_has(list@, start as int, end as int, x)
                    <==> seg_has(old(list)@, start as int, end as int, x),
                list@.subrange(start as int, end as int).to_multiset() == old(list)@.subrange(
                    start as int,
                    end as int,
                ).to_multiset(),
            ensures
                sorted_by_key(list@, scene@, start as int, i + 1, axis as int),
            decreases j,
        {
            if j == start {
                proof {
                    lemma_sorted_at_hole_start(list@, scene@, start as int, i + 1, axis as int);
                }
                break ;
            }
            if !closer_lt(scene, list[j], list[j - 1], axis) {
                proof {
                    lemma_sorted_after_insert(list@, scene@, start as int, i + 1, j as int, axis as int);
                }
                break ;
            }
            let ghost before = list@;
            let va = list[j - 1];
            let vb = list[j];
            list[j - 1] = vb;
            list[j] = va;
            proof {
                lemma_swap_seg_has(before, list@, start as int, end as int, j as int);
                lemma_swap_subrange_multiset(before, list@, start as int, end as int, j as int);
                let jj = j as int;
                assert forall|p: int, q: int|
                    start <= p < q < i + 1 && q != jj - 1 implies !bv_key(
                    scene@[#[trigger] list@[q] as int],
                    axis as int,
                ).spec_lt(bv_key(scene@[#[trigger] list@[p] as int], axis as int)) by {
                    if q == jj {
                        if p == jj - 1 {
                            // the moving element is strictly below what it passed
                        } else {
                            assert(!bv_key(scene@[before[jj - 1] as int], axis as int).spec_lt(
                                bv_key(scene@[before[p] as int], axis as int),
                            ));
                        }
                    } else if q > jj {
                        if p == jj - 1 {
                            assert(!bv_key(scene@[before[q] as int], axis as int).spec_lt(
                                bv_key(scene@[before[jj] as int], axis as int),
                            ));
                        } else if p == jj {
                            assert(!bv_key(scene@[before[q] as int], axis as int).spec_lt(
                                bv_key(scene@[before[jj - 1] as int], axis as int),
                            ));
                        } else {
                            assert(!bv_key(scene@[before[q] as int], axis as int).spec_lt(
                                bv_key(scene@[before[p] as int], axis as int),
                            ));
                        }
                    } else {
                        assert(!bv_key(scene@[before[q] as int], axis as int).spec_lt(
                            bv_key(scene@[before[p] as int], axis as int),
                        ));
                    }
                }
            }
            j = j - 1;
        }
        i = i + 1;
    }
}

/// Once the moving element stops above its left neighbour, the whole prefix
/// is sorted.
proof fn lemma_sorted_after_insert(
    list: Seq<usize>,
    scene: Seq<Hittable>,
    a: int,
    b: int,
    j: int,
    axis: int,
)
    requires
        scene_wf(scene),
        0 <= axis < 3,
        0 <= a < b <= list.len(),
        a < j < b,
        forall|i: int| 0 <= i < list.len() ==> (#[trigger] list[i]) < scene.len(),
        sorted_except(list, scene, a, b, j, axis),
        !bv_key(scene[list[j] as int], axis).spec_lt(bv_key(scene[list[j - 1] as int], axis)),
    ensures
        sorted_by_key(list, scene, a, b, axis),
{
    assert forall|p: int, q: int| a <= p < q < b implies !bv_key(
        scene[#[trigger] list[q] as int],
        axis,
    ).spec_lt(bv_key(scene[#[trigger] list[p] as int], axis)) by {
        if q == j {
            if p < j - 1 {
                assert(!bv_key(scene[list[j - 1] as int], axis).spec_lt(
                    bv_key(scene[list[p] as int], axis),
                ));
                lemma_key_le_trans(scene, list[p], list[j - 1], list[j], axis);
            }
        }
    }
}

/// When the hole sits at the very start of the segment, nothing is excluded.
proof fn lemma_sorted_at_hole_start(
    list: Seq<usize>,
    scene: Seq<Hittable>,
    a: int,
    b: int,
    axis: int,
)
    requires
        sorted_except(list, scene, a, b, a, axis),
    ensures
        sorted_by_key(list, scene, a, b, axis),
{
}

impl BVHNodeStruct {
    /// Order two objects by the minimal corner of their bounding boxes along
    /// `axis`.
    pub fn is_closer(obj_a: &Hittable, obj_b: &Hittable, axis: usize) -> (r: core::cmp::Ordering)
        requires
            obj_a.wf(),
            obj_b.wf(),
            axis < 3,
        ensures
            r == core::cmp::Ordering::Less <==> bv_key(*obj_a, axis as int).spec_lt(
                bv_key(*obj_b, axis as int),
            ),
            r == core::cmp::Ordering::Equal <==> bv_key(*obj_a, axis as int).spec_eq(
                bv_key(*obj_b, axis as int),
            ),
    {
        let ka = crate::hittables::obj_bounding_volume(obj_a).min_corner.axis(axis);
        let kb = crate::hittables::obj_bounding_volume(obj_b).min_corner.axis(axis);
        if ka.lt(&kb) {
            core::cmp::Ordering::Less
        } else if ka.eq_rat(&kb) {
            core::cmp::Ordering::Equal
        } else {
            core::cmp::Ordering::Greater
        }
    }

    /// Build a BVH over `objects.list[start..end]` (at least one object),
    /// reproducibly for a fixed `seed`.  The builder may reorder that
    /// segment of the list in place; the tree's leaves are exactly the
    /// indices the segment held.
    pub fn new(
        objects: &mut HittableListStruct,
        scene: &Vec<Hittable>,
        start: usize,
        end: usize,
        seed: u64,
    ) -> (node: BVHNodeStruct)
        requires
            start < end <= old(objects).list@.len(),
            old(objects).wf_for(scene@),
            scene_wf(scene@),
        ensures
            node.wf_for(scene@),
            final(objects).list@.len() == old(objects).list@.len(),
            final(objects).wf_for(scene@),
            forall|i: int| 0 <= i < final(objects).list@.len() && !(start <= i < end)
                ==> #[trigger] final(objects).list@[i] == old(objects).list@[i],
            forall|x: usize| #[trigger] seg_has(final(objects).list@, start as int, end as int, x)
                <==> seg_has(old(objects).list@, start as int, end as int, x),
            forall|x: usize| #[trigger] node.leaf_contains(x) <==> seg_has(
                old(objects).list@,
                start as int,
                end as int,
                x,
            ),
            end - start == 1 ==> node.left == BVHNodeType::Hittable(old(objects).list@[start as int])
                && node.right == BVHNodeType::Hittable(old(objects).list@[start as int]),
            final(objects).list@.subrange(start as int, end as int).to_multiset() == old(
                objects,
            ).list@.subrange(start as int, end as int).to_multiset(),
            end - start <= 2 ==> final(objects).list@ == old(objects).list@,
            end - start == 2 ==> (exists|ax: int|
                0 <= ax < 3 && #[trigger] pair_leaves_ordered(
                    node,
                    scene@,
                    old(objects).list@[start as int],
                    old(objects).list@[start as int + 1],
                    ax,
                )),
            end - start > 2 ==> (node.left matches BVHNodeType::BVHNode(_)) && (
            node.right matches BVHNodeType::BVHNode(_)) && (forall|x: usize|
                #[trigger] node.left.leaf_contains(x) <==> seg_has(
                    final(objects).list@,
                    start as int,
                    start as int + (end - start) as int / 2,
                    x,
                )) && (forall|x: usize|
                #[trigger] node.right.leaf_contains(x) <==> seg_has(
                    final(objects).list@,
                    start as int + (end - start) as int / 2,
                    end as int,
                    x,
                )),
    {
        let mut rng = rng_from_seed(seed);
        Self::build(objects, scene, start, end, &mut rng)
    }

    /// One recursive step of construction: duplicate a single leaf, order a
    /// pair by box key along a random axis, or sort the segment by that key
    /// and split at its midpoint.
    fn build(
        objects: &mut HittableListStruct,
        scene: &Vec<Hittable>,
        start: usize,
        end: usize,
        rng: &mut rand::rngs::StdRng,
    ) -> (node: BVHNodeStruct)
        requires
            start < end <= old(objects).list@.len(),
            old(objects).wf_for(scene@),
            scene_wf(scene@),
        ensures
            node.wf_for(scene@),
            final(objects).list@.len() == old(objects).list@.len(),
            final(objects).wf_for(scene@),
            forall|i: int| 0 <= i < final(objects).list@.len() && !(start <= i < end)
                ==> #[trigger] final(objects).list@[i] == old(objects).list@[i],
            forall|x: usize| #[trigger] seg_has(final(objects).list@, start as int, end as int, x)
                <==> seg_has(old(objects).list@, start as int, end as int, x),
            forall|x: usize| #[trigger] node.leaf_contains(x) <==> seg_has(
                old(objects).list@,
                start as int,
                end as int,
                x,
            ),
            end - start == 1 ==> node.left == BVHNodeType::Hittable(old(objects).list@[start as int])
                && node.right == BVHNodeType::Hittable(old(objects).list@[start as int]),
            final(objects).list@.subrange(start as int, end as int).to_multiset() == old(
                objects,
            ).list@.subrange(start as int, end as int).to_multiset(),
            end - start <= 2 ==> final(objects).list@ == old(objects).list@,
            end - start == 2 ==> (exists|ax: int|
                0 <= ax < 3 && #[trigger] pair_leaves_ordered(
                    node,
                    scene@,
                    old(objects).list@[start as int],
                    old(objects).list@[start as int + 1],
                    ax,
                )),
            end - start > 2 ==> (node.left matches BVHNodeType::BVHNode(_)) && (
            node.right matches BVHNodeType::BVHNode(_)) && (forall|x: usize|
                #[trigger] node.left.leaf_contains(x) <==> seg_has(
                    final(objects).list@,
                    start as int,
                    start as int + (end - start) as int / 2,
                    x,
                )) && (forall|x: usize|
                #[trigger] node.right.leaf_contains(x) <==> seg_has(
                    final(objects).list@,
                    start as int + (end - start) as int / 2,
                    end as int,
                    x,
                )),
        decreases end - start,
    {
        let axis = random_axis(rng);
        let object_span = end - start;
        if object_span == 1 {
            let leaf = objects.list[start];
            let node = BVHNodeStruct {
                left: BVHNodeType::Hittable(leaf),
                right: BVHNodeType::Hittable(leaf),
            };
            proof {
                assert forall|x: usize| #[trigger] node.leaf_contains(x) <==> seg_has(
                    objects.list@,
                    start as int,
                    end as int,
                    x,
                ) by {
                    if node.leaf_contains(x) {
                        assert(objects.list@[start as int] == x);
                    }
                    if seg_has(objects.list@, start as int, end as int, x) {
                        let j = choose|j: int|
                            start <= j < end && #[trigger] objects.list@[j] == x;
                        assert(j == start);
                    }
                }
            }
            return node;
        }
        if object_span == 2 {
            let ia = objects.list[start];
            let ib = objects.list[start + 1];
            let node = if closer_lt(scene, ia, ib, axis) {
                BVHNodeStruct {
                    left: BVHNodeType::Hittable(ia),
                    right: BVHNodeType::Hittable(ib),
                }
            } else {
                BVHNodeStruct {
                    left: BVHNodeType::Hittable(ib),
                    right: BVHNodeType::Hittable(ia),
                }
            };
            proof {
                assert(pair_leaves_ordered(node, scene@, ia, ib, axis as int));
                assert forall|x: usize| #[trigger] node.leaf_contains(x) <==> seg_has(
                    objects.list@,
                    start as int,
                    end as int,
                    x,
                ) by {
                    if node.leaf_contains(x) {
                        if objects.list@[start as int] == x {
                        } else {
                            assert(objects.list@[start + 1] == x);
                        }
                    }
                    if seg_has(objects.list@, start as int, end as int, x) {
                        let j = choose|j: int|
                            start <= j < end && #[trigger] objects.list@[j] == x;
                        assert(j == start || j == start + 1);
                    }
                }
            }
            return node;
        }
        let ghost at_entry = objects.list@;
        sort_range(&mut objects.list, scene, start, end, axis);
        let ghost after_sort = objects.list@;
        let mid = start + object_span / 2;
        let left = Self::build(objects, scene, start, mid, rng);
        let ghost after_left = objects.list@;
        let right = Self::build(objects, scene, mid, end, rng);
        let node = BVHNodeStruct {
            left: BVHNodeType::BVHNode(Box::new(left)),
            right: BVHNodeType::BVHNode(Box::new(right)),
        };
        proof {
            // The right half was untouched by the left build, and vice versa.
            lemma_seg_has_frame(after_sort, after_left, mid as int, end as int);
            lemma_seg_has_frame(after_left, objects.list@, start as int, mid as int);
            // The segment's multiset is preserved through the sort and both
            // recursive builds, half by half.
            lemma_subrange_split_multiset(after_sort, start as int, mid as int, end as int);
            lemma_subrange_split_multiset(after_left, start as int, mid as int, end as int);
            lemma_subrange_split_multiset(objects.list@, start as int, mid as int, end as int);
            assert(after_left.subrange(mid as int, end as int) =~= after_sort.subrange(
                mid as int,
                end as int,
            ));
            assert(objects.list@.subrange(start as int, mid as int) =~= after_left.subrange(
                start as int,
                mid as int,
            ));
            assert(objects.list@.subrange(start as int, end as int).to_multiset() == at_entry.subrange(
                start as int,
                end as int,
            ).to_multiset());
            // Each subtree covers exactly its half of the final segment.
            assert forall|x: usize| #[trigger] node.left.leaf_contains(x) <==> seg_has(
                objects.list@,
                start as int,
                mid as int,
                x,
            ) by {
                assert(node.left.leaf_contains(x) == left.leaf_contains(x));
                assert(left.leaf_contains(x) == seg_has(after_sort, start as int, mid as int, x));
                assert(seg_has(after_sort, start as int, mid as int, x) == seg_has(
                    after_left,
                    start as int,
                    mid as int,
                    x,
                ));
                assert(seg_has(after_left, start as int, mid as int, x) == seg_has(
                    objects.list@,
                    start as int,
                    mid as int,
                    x,
                ));
            }
            assert forall|x: usize| #[trigger] node.right.leaf_contains(x) <==> seg_has(
                objects.list@,
                mid as int,
                end as int,
                x,
            ) by {
                assert(node.right.leaf_contains(x) == right.leaf_contains(x));
                assert(right.leaf_contains(x) == seg_has(after_left, mid as int, end as int, x));
                assert(seg_has(after_left, mid as int, end as int, x) == seg_has(
                    objects.list@,
                    mid as int,
                    end as int,
                    x,
                ));
            }
            lemma_seg_has_split(after_sort, start as int, mid as int, end as int);
            lemma_seg_has_split(objects.list@, start as int, mid as int, end as int);
            assert forall|x: usize| #[trigger] node.leaf_contains(x) <==> seg_has(
                at_entry,
                start as int,
                end as int,
                x,
            ) by {
                assert(node.leaf_contains(x) == (left.leaf_contains(x) || right.leaf_contains(x)));
                assert(left.leaf_contains(x) == seg_has(after_sort, start as int, mid as int, x));
                assert(right.leaf_contains(x) == seg_has(after_left, mid as int, end as int, x));
                assert(seg_has(after_left, mid as int, end as int, x) == seg_has(
                    after_sort,
                    mid as int,
                    end as int,
                    x,
                ));
                assert((seg_has(after_sort, start as int, mid as int, x) || seg_has(
                    after_sort,
                    mid as int,
                    end as int,
                    x,
                )) == seg_has(after_sort, start as int, end as int, x));
                assert(seg_has(after_sort, start as int, end as int, x) == seg_has(
                    at_entry,
                    start as int,
                    end as int,
                    x,
                ));
            }
            assert forall|x: usize| #[trigger] seg_has(
                objects.list@,
                start as int,
                end as int,
                x,
            ) <==> seg_has(at_entry, start as int, end as int, x) by {
                assert(seg_has(objects.list@, start as int, end as int, x) == (seg_has(
                    objects.list@,
                    start as int,
                    mid as int,
                    x,
                ) || seg_has(objects.list@, mid as int, end as int, x)));
                assert(seg_has(objects.list@, start as int, mid as int, x) == seg_has(
                    after_left,
                    start as int,
                    mid as int,
                    x,
                ));
                assert(seg_has(after_left, start as int, mid as int, x) == seg_has(
                    after_sort,
                    start as int,
                    mid as int,
                    x,
                ));
                assert(seg_has(objects.list@, mid as int, end as int, x) == seg_has(
                    after_left,
                    mid as int,
                    end as int,
                    x,
                ));
                assert(seg_has(after_left, mid as int, end as int, x) == seg_has(
                    after_sort,
                    mid as int,
                    end as int,
                    x,
                ));
                assert((seg_has(after_sort, start as int, mid as int, x) || seg_has(
                    after_sort,
                    mid as int,
                    end as int,
                    x,
                )) == seg_has(after_sort, start as int, end as int, x));
                assert(seg_has(after_sort, start as int, end as int, x) == seg_has(
                    at_entry,
                    start as int,
                    end as int,
                    x,
                ));
            }
        }
        node
    }
}


/// A well-formed child has a well-formed bounding volume.
pub proof fn lemma_child_bv_wf(c: BVHNodeType, scene: Seq<Hittable>)
    requires
        c.wf_for(scene),
        scene_wf(scene),
    ensures
        c.spec_bounding_volume(scene).wf(),
    decreases c,
{
    match c {
        BVHNodeType::BVHNode(n) => lemma_node_bv_wf(*n, scene),
        BVHNodeType::Hittable(i) => lemma_obj_bv_wf(scene[i as int]),
    }
}

/// A well-formed node has a well-formed bounding volume.
pub proof fn lemma_node_bv_wf(n: BVHNodeStruct, scene: Seq<Hittable>)
    requires
        n.wf_for(scene),
        scene_wf(scene),
    ensures
        n.spec_bounding_volume(scene).wf(),
    decreases n,
{
    lemma_child_bv_wf(n.left, scene);
    lemma_child_bv_wf(n.right, scene);
    lemma_spec_surrounding(
        n.left.spec_bounding_volume(scene),
        n.right.spec_bounding_volume(scene),
    );
}

/// A node's bounding volume contains both children's volumes.
pub proof fn lemma_bvh_bounding_volume_contains_children(n: BVHNodeStruct, scene: Seq<Hittable>)
    requires
        n.wf_for(scene),
        scene_wf(scene),
    ensures
        box_contains_box(n.spec_bounding_volume(scene), n.left.spec_bounding_volume(scene)),
        box_contains_box(n.spec_bounding_volume(scene), n.right.spec_bounding_volume(scene)),
{
    lemma_child_bv_wf(n.left, scene);
    lemma_child_bv_wf(n.right, scene);
    lemma_spec_surrounding(
        n.left.spec_bounding_volume(scene),
        n.right.spec_bounding_volume(scene),
    );
}

/// A leaf of a well-formed child names an object of the scene.
proof fn lemma_child_leaf_in_scene(c: BVHNodeType, scene: Seq<Hittable>, x: usize)
    requires
        c.wf_for(scene),
        c.leaf_contains(x),
    ensures
        x < scene.len(),
    decreases c,
{
    match c {
        BVHNodeType::BVHNode(n) => lemma_node_leaf_in_scene(*n, scene, x),
        BVHNodeType::Hittable(i) => {
        },
    }
}

/// A leaf of a well-formed node names an object of the scene.
proof fn lemma_node_leaf_in_scene(n: BVHNodeStruct, scene: Seq<Hittable>, x: usize)
    requires
        n.wf_for(scene),
        n.leaf_contains(x),
    ensures
        x < scene.len(),
    decreases n,
{
    if n.left.leaf_contains(x) {
        lemma_child_leaf_in_scene(n.left, scene, x);
    } else {
        lemma_child_leaf_in_scene(n.right, scene, x);
    }
}

/// A child's bounding volume contains the box of each of its leaves.
pub proof fn lemma_child_contains_leaf(c: BVHNodeType, scene: Seq<Hittable>, x: usize)
    requires
        c.wf_for(scene),
        scene_wf(scene),
        c.leaf_contains(x),
    ensures
        box_contains_box(c.spec_bounding_volume(scene), obj_bv(scene[x as int])),
    decreases c,
{
    match c {
        BVHNodeType::BVHNode(n) => lemma_node_contains_leaf(*n, scene, x),
        BVHNodeType::Hittable(i) => {
        },
    }
}

/// A node's bounding volume contains the box of each of its leaves: the
/// composite's volume contains the volume of every member.
pub proof fn lemma_node_contains_leaf(n: BVHNodeStruct, scene: Seq<Hittable>, x: usize)
    requires
        n.wf_for(scene),
        scene_wf(scene),
        n.leaf_contains(x),
    ensures
        box_contains_box(n.spec_bounding_volume(scene), obj_bv(scene[x as int])),
    decreases n,
{
    lemma_node_leaf_in_scene(n, scene, x);
    lemma_child_bv_wf(n.left, scene);
    lemma_child_bv_wf(n.right, scene);
    lemma_obj_bv_wf(scene[x as int]);
    lemma_node_bv_wf(n, scene);
    lemma_spec_surrounding(
        n.left.spec_bounding_volume(scene),
        n.right.spec_bounding_volume(scene),
    );
    if n.left.leaf_contains(x) {
        lemma_child_contains_leaf(n.left, scene, x);
        lemma_contains_trans(
            n.spec_bounding_volume(scene),
            n.left.spec_bounding_volume(scene),
            obj_bv(scene[x as int]),
        );
    } else {
        lemma_child_contains_leaf(n.right, scene, x);
        lemma_contains_trans(
            n.spec_bounding_volume(scene),
            n.right.spec_bounding_volume(scene),
            obj_bv(scene[x as int]),
        );
    }
}

/// The acceleration hypothesis for one leaf: if the leaf hits, the hit point
/// lies inside the leaf's own bounding box, strictly on every axis the ray
/// travels.  A ray grazing a leaf's box boundary exactly (for example along
/// a rectangle's edge) may otherwise be pruned by the exact slab test.
pub open spec fn leaf_hits_interior(scene: Seq<Hittable>, ray: Ray, itv: Interval, x: usize) -> bool {
    match scene[x as int].spec_hit(ray, itv) {
        Some(h) => point_interior(obj_bv(scene[x as int]), ray, h.t),
        None => true,
    }
}

/// How two optional hits combine at an internal node: misses combine to a
/// miss, and the winner is one of the two, no farther than either.
proof fn lemma_combine_shape(lh: Option<HitRecord>, rh: Option<HitRecord>, res: Option<HitRecord>)
    requires
        res == (match lh {
            None => rh,
            Some(l) => match rh {
                None => Some(l),
                Some(r) => if l.t.spec_lt(r.t) {
                    Some(l)
                } else {
                    Some(r)
                },
            },
        }),
    ensures
        res is None <==> (lh is None && rh is None),
        res is Some ==> res == lh || res == rh,
        (res is Some && lh is Some) ==> res->Some_0.t.spec_le(lh->Some_0.t),
        (res is Some && rh is Some) ==> res->Some_0.t.spec_le(rh->Some_0.t),
{
}

/// A pruned subtree hides no hit: when the slab test rejects the node's
/// volume, no leaf below it can hit (given the interior hypothesis).
proof fn lemma_node_pruned(n: BVHNodeStruct, scene: Seq<Hittable>, ray: Ray, itv: Interval)
    requires
        n.wf_for(scene),
        scene_wf(scene),
        ray.in_range(),
        itv.wf(),
        forall|x: usize| #[trigger] n.leaf_contains(x) ==> leaf_hits_interior(scene, ray, itv, x),
        !slab_accept(n.spec_bounding_volume(scene), ray, itv),
    ensures
        forall|x: usize| #[trigger] n.leaf_contains(x) ==> scene[x as int].spec_hit(ray, itv)
            is None,
{
    lemma_node_bv_wf(n, scene);
    assert forall|x: usize| #[trigger] n.leaf_contains(x) implies scene[x as int].spec_hit(
        ray,
        itv,
    ) is None by {
        if scene[x as int].spec_hit(ray, itv) is Some {
            let h = scene[x as int].spec_hit(ray, itv)->Some_0;
            lemma_node_leaf_in_scene(n, scene, x);
            lemma_hittable_hit_wf(scene[x as int], ray, itv);
            lemma_obj_bv_wf(scene[x as int]);
            assert(leaf_hits_interior(scene, ray, itv, x));
            lemma_node_contains_leaf(n, scene, x);
            lemma_contains_interior(
                n.spec_bounding_volume(scene),
                obj_bv(scene[x as int]),
                ray,
                h.t,
            );
            lemma_interior_implies_slab(n.spec_bounding_volume(scene), ray, itv, h.t);
        }
    }
}

/// A successful traversal result is the record of one of the leaves.
proof fn lemma_child_winner(c: BVHNodeType, scene: Seq<Hittable>, ray: Ray, itv: Interval)
    requires
        c.wf_for(scene),
        scene_wf(scene),
        ray.in_range(),
        itv.wf(),
        c.spec_hit(scene, ray, itv) is Some,
    ensures
        exists|x: usize|
            #[trigger] c.leaf_contains(x) && scene[x as int].spec_hit(ray, itv) == c.spec_hit(
                scene,
                ray,
                itv,
            ),
        c.spec_hit(scene, ray, itv)->Some_0.wf(),
        itv.spec_contains(c.spec_hit(scene, ray, itv)->Some_0.t),
    decreases c,
{
    match c {
        BVHNodeType::BVHNode(n) => {
            lemma_node_winner(*n, scene, ray, itv);
            let x = choose|x: usize|
                #[trigger] (*n).leaf_contains(x) && scene[x as int].spec_hit(ray, itv)
                    == (*n).spec_hit(scene, ray, itv);
            assert(c.leaf_contains(x) && scene[x as int].spec_hit(ray, itv) == c.spec_hit(
                scene,
                ray,
                itv,
            ));
        },
        BVHNodeType::Hittable(i) => {
            lemma_hittable_hit_wf(scene[i as int], ray, itv);
            assert(c.leaf_contains(i) && scene[i as int].spec_hit(ray, itv) == c.spec_hit(
                scene,
                ray,
                itv,
            ));
        },
    }
}

/// A successful traversal result is the record of one of the leaves.
proof fn lemma_node_winner(n: BVHNodeStruct, scene: Seq<Hittable>, ray: Ray, itv: Interval)
    requires
        n.wf_for(scene),
        scene_wf(scene),
        ray.in_range(),
        itv.wf(),
        n.spec_hit(scene, ray, itv) is Some,
    ensures
        exists|x: usize|
            #[trigger] n.leaf_contains(x) && scene[x as int].spec_hit(ray, itv) == n.spec_hit(
                scene,
                ray,
                itv,
            ),
        n.spec_hit(scene, ray, itv)->Some_0.wf(),
        itv.spec_contains(n.spec_hit(scene, ray, itv)->Some_0.t),
    decreases n,
{
    let lh = n.left.spec_hit(scene, ray, itv);
    let rh = n.right.spec_hit(scene, ray, itv);
    let res = n.spec_hit(scene, ray, itv);
    lemma_combine_shape(lh, rh, res);
    if res == lh {
        lemma_child_winner(n.left, scene, ray, itv);
        let x = choose|x: usize|
            #[trigger] n.left.leaf_contains(x) && scene[x as int].spec_hit(ray, itv) == lh;
        assert(n.leaf_contains(x) && scene[x as int].spec_hit(ray, itv) == res);
    } else {
        lemma_child_winner(n.right, scene, ray, itv);
        let x = choose|x: usize|
            #[trigger] n.right.leaf_contains(x) && scene[x as int].spec_hit(ray, itv) == rh;
        assert(n.leaf_contains(x) && scene[x as int].spec_hit(ray, itv) == res);
    }
}

/// A missed traversal hides nothing: every leaf below misses too (under the
/// interior hypothesis).
proof fn lemma_child_none(c: BVHNodeType, scene: Seq<Hittable>, ray: Ray, itv: Interval)
    requires
        c.wf_for(scene),
        scene_wf(scene),
        ray.in_range(),
        itv.wf(),
        forall|x: usize| #[trigger] c.leaf_contains(x) ==> leaf_hits_interior(scene, ray, itv, x),
        c.spec_hit(scene, ray, itv) is None,
    ensures
        forall|x: usize| #[trigger] c.leaf_contains(x) ==> scene[x as int].spec_hit(ray, itv)
            is None,
    decreases c,
{
    match c {
        BVHNodeType::BVHNode(n) => {
            assert forall|x: usize| #[trigger] (*n).leaf_contains(x) implies leaf_hits_interior(
                scene,
                ray,
                itv,
                x,
            ) by {
                assert(c.leaf_contains(x));
            }
            lemma_node_none(*n, scene, ray, itv);
            assert forall|x: usize| #[trigger] c.leaf_contains(x) implies scene[
                x as int
            ].spec_hit(ray, itv) is None by {
                assert((*n).leaf_contains(x));
            }
        },
        BVHNodeType::Hittable(i) => {
        },
    }
}

/// A missed traversal hides nothing: every leaf below misses too (under the
/// interior hypothesis).
proof fn lemma_node_none(n: BVHNodeStruct, scene: Seq<Hittable>, ray: Ray, itv: Interval)
    requires
        n.wf_for(scene),
        scene_wf(scene),
        ray.in_range(),
        itv.wf(),
        forall|x: usize| #[trigger] n.leaf_contains(x) ==> leaf_hits_interior(scene, ray, itv, x),
        n.spec_hit(scene, ray, itv) is None,
    ensures
        forall|x: usize| #[trigger] n.leaf_contains(x) ==> scene[x as int].spec_hit(ray, itv)
            is None,
    decreases n,
{
    if !slab_accept(n.spec_bounding_volume(scene), ray, itv) {
        lemma_node_pruned(n, scene, ray, itv);
    } else {
        let lh = n.left.spec_hit(scene, ray, itv);
        let rh = n.right.spec_hit(scene, ray, itv);
        lemma_combine_shape(lh, rh, n.spec_hit(scene, ray, itv));
        assert forall|x: usize| #[trigger] n.left.leaf_contains(x) implies leaf_hits_interior(
            scene,
            ray,
            itv,
            x,
        ) by {
            assert(n.leaf_contains(x));
        }
        assert forall|x: usize| #[trigger] n.right.leaf_contains(x) implies leaf_hits_interior(
            scene,
            ray,
            itv,
            x,
        ) by {
            assert(n.leaf_contains(x));
        }
        lemma_child_none(n.left, scene, ray, itv);
        lemma_child_none(n.right, scene, ray, itv);
        assert forall|x: usize| #[trigger] n.leaf_contains(x) implies scene[x as int].spec_hit(
            ray,
            itv,
        ) is None by {
            if n.left.leaf_contains(x) {
            } else {
                assert(n.right.leaf_contains(x));
            }
        }
    }
}

/// If a leaf hits, traversal hits, and its parameter is at most the leaf's.
proof fn lemma_child_min(c: BVHNodeType, scene: Seq<Hittable>, ray: Ray, itv: Interval, x: usize)
    requires
        c.wf_for(scene),
        scene_wf(scene),
        ray.in_range(),
        itv.wf(),
        forall|y: usize| #[trigger] c.leaf_contains(y) ==> leaf_hits_interior(scene, ray, itv, y),
        c.leaf_contains(x),
        scene[x as int].spec_hit(ray, itv) is Some,
    ensures
        c.spec_hit(scene, ray, itv) is Some,
        c.spec_hit(scene, ray, itv)->Some_0.t.wf(),
        c.spec_hit(scene, ray, itv)->Some_0.t.spec_le(scene[x as int].spec_hit(ray, itv)->Some_0.t),
    decreases c,
{
    match c {
        BVHNodeType::BVHNode(n) => {
            assert forall|y: usize| #[trigger] (*n).leaf_contains(y) implies leaf_hits_interior(
                scene,
                ray,
                itv,
                y,
            ) by {
                assert(c.leaf_contains(y));
            }
            lemma_node_min(*n, scene, ray, itv, x);
        },
        BVHNodeType::Hittable(i) => {
            lemma_hittable_hit_wf(scene[i as int], ray, itv);
        },
    }
}

/// If a leaf hits, traversal hits, and its parameter is at most the leaf's.
proof fn lemma_node_min(n: BVHNodeStruct, scene: Seq<Hittable>, ray: Ray, itv: Interval, x: usize)
    requires
        n.wf_for(scene),
        scene_wf(scene),
        ray.in_range(),
        itv.wf(),
        forall|y: usize| #[trigger] n.leaf_contains(y) ==> leaf_hits_interior(scene, ray, itv, y),
        n.leaf_contains(x),
        scene[x as int].spec_hit(ray, itv) is Some,
    ensures
        n.spec_hit(scene, ray, itv) is Some,
        n.spec_hit(scene, ray, itv)->Some_0.t.wf(),
        n.spec_hit(scene, ray, itv)->Some_0.t.spec_le(scene[x as int].spec_hit(ray, itv)->Some_0.t),
    decreases n,
{
    lemma_node_leaf_in_scene(n, scene, x);
    lemma_hittable_hit_wf(scene[x as int], ray, itv);
    let h2 = scene[x as int].spec_hit(ray, itv)->Some_0;
    if !slab_accept(n.spec_bounding_volume(scene), ray, itv) {
        lemma_node_pruned(n, scene, ray, itv);
        assert(scene[x as int].spec_hit(ray, itv) is None);
    } else {
        let lh = n.left.spec_hit(scene, ray, itv);
        let rh = n.right.spec_hit(scene, ray, itv);
        let res = n.spec_hit(scene, ray, itv);
        lemma_combine_shape(lh, rh, res);
        assert forall|y: usize| #[trigger] n.left.leaf_contains(y) implies leaf_hits_interior(
            scene,
            ray,
            itv,
            y,
        ) by {
            assert(n.leaf_contains(y));
        }
        assert forall|y: usize| #[trigger] n.right.leaf_contains(y) implies leaf_hits_interior(
            scene,
            ray,
            itv,
            y,
        ) by {
            assert(n.leaf_contains(y));
        }
        if n.left.leaf_contains(x) {
            lemma_child_min(n.left, scene, ray, itv, x);
        } else {
            lemma_child_min(n.right, scene, ray, itv, x);
        }
        if res == lh {
            lemma_child_winner(n.left, scene, ray, itv);
        } else {
            lemma_child_winner(n.right, scene, ray, itv);
        }
        if n.left.leaf_contains(x) {
            let l = lh->Some_0;
            crate::rat::lemma_frac_le_trans(
                res->Some_0.t.num as int, res->Some_0.t.den as int,
                l.t.num as int, l.t.den as int,
                h2.t.num as int, h2.t.den as int,
            );
        } else {
            let r = rh->Some_0;
            crate::rat::lemma_frac_le_trans(
                res->Some_0.t.num as int, res->Some_0.t.den as int,
                r.t.num as int, r.t.den as int,
                h2.t.num as int, h2.t.den as int,
            );
        }
    }
}

/// Acceleration correctness: over the same object set, BVH traversal and the
/// brute-force linear scan agree — they hit or miss together, and when both
/// hit, the hit parameters are exactly equal (on an exact tie of `t` the two
/// may return different objects' records, which the contract does not
/// distinguish).  Requires every leaf's hit point to lie strictly inside the
/// leaf's own bounding box on the axes the ray travels; a ray that exactly
/// grazes a box boundary may be pruned.
pub proof fn lemma_bvh_matches_linear_scan(
    n: BVHNodeStruct,
    scene: Seq<Hittable>,
    idxs: Seq<usize>,
    ray: Ray,
    itv: Interval,
)
    requires
        n.wf_for(scene),
        scene_wf(scene),
        ray.in_range(),
        itv.wf(),
        forall|j: int| 0 <= j < idxs.len() ==> (#[trigger] idxs[j]) < scene.len(),
        forall|x: usize| #[trigger] n.leaf_contains(x) <==> seg_has(idxs, 0, idxs.len() as int, x),
        forall|x: usize| #[trigger] n.leaf_contains(x) ==> leaf_hits_interior(scene, ray, itv, x),
    ensures
        n.spec_hit(scene, ray, itv) is Some <==> spec_scan(scene, idxs, ray, itv) is Some,
        (n.spec_hit(scene, ray, itv) is Some && spec_scan(scene, idxs, ray, itv) is Some)
            ==> n.spec_hit(scene, ray, itv)->Some_0.t.spec_eq(
            spec_scan(scene, idxs, ray, itv)->Some_0.t,
        ),
{
    crate::hittables::lemma_scan_characterization(scene, idxs, ray, itv);
    let th = n.spec_hit(scene, ray, itv);
    let sh = spec_scan(scene, idxs, ray, itv);
    if th is None && sh is Some {
        // Some scanned object hit; its leaf forces traversal to hit too.
        let h = sh->Some_0;
        let j = choose|j: int|
            0 <= j < idxs.len() && scene[#[trigger] idxs[j] as int].spec_hit(ray, itv) == Some(h);
        assert(seg_has(idxs, 0, idxs.len() as int, idxs[j]));
        assert(n.leaf_contains(idxs[j]));
        lemma_node_min(n, scene, ray, itv, idxs[j]);
    }
    if th is Some && sh is None {
        // Traversal's winner is a leaf, hence a scanned object: contradiction.
        lemma_node_winner(n, scene, ray, itv);
        let x = choose|x: usize|
            #[trigger] n.leaf_contains(x) && scene[x as int].spec_hit(ray, itv) == th;
        let j = choose|j: int| 0 <= j < idxs.len() && #[trigger] idxs[j] == x;
        assert(scene[idxs[j] as int].spec_hit(ray, itv) is None);
    }
    if th is Some && sh is Some {
        let ht = th->Some_0;
        let hs = sh->Some_0;
        // The traversal winner is an object of the set, so the scan is at or
        // below it; the scan winner is a leaf, so traversal is at or below
        // it: the two parameters are equal fractions.
        lemma_node_winner(n, scene, ray, itv);
        let x = choose|x: usize|
            #[trigger] n.leaf_contains(x) && scene[x as int].spec_hit(ray, itv) == th;
        let jx = choose|j: int| 0 <= j < idxs.len() && #[trigger] idxs[j] == x;
        assert(hs.t.spec_le(ht.t)) by {
            assert(scene[idxs[jx] as int].spec_hit(ray, itv) == Some(ht));
        }
        let j = choose|j: int|
            0 <= j < idxs.len() && scene[#[trigger] idxs[j] as int].spec_hit(ray, itv) == Some(hs);
        assert(ht.t.spec_le(hs.t)) by {
            assert(seg_has(idxs, 0, idxs.len() as int, idxs[j]));
            assert(n.leaf_contains(idxs[j]));
            lemma_node_min(n, scene, ray, itv, idxs[j]);
        }
    }
}

/// A degenerate tree over exactly one object answers queries exactly as the
/// object itself does (under the same interior hypothesis).
pub proof fn lemma_bvh_single_object(
    n: BVHNodeStruct,
    scene: Seq<Hittable>,
    x: usize,
    ray: Ray,
    itv: Interval,
)
    requires
        n.wf_for(scene),
        scene_wf(scene),
        ray.in_range(),
        itv.wf(),
        x < scene.len(),
        forall|y: usize| #[trigger] n.leaf_contains(y) <==> y == x,
        leaf_hits_interior(scene, ray, itv, x),
    ensures
        n.spec_hit(scene, ray, itv) == scene[x as int].spec_hit(ray, itv),
{
    let th = n.spec_hit(scene, ray, itv);
    if th is Some {
        lemma_node_winner(n, scene, ray, itv);
        let y = choose|y: usize|
            #[trigger] n.leaf_contains(y) && scene[y as int].spec_hit(ray, itv) == th;
        assert(y == x);
    } else {
        assert(n.leaf_contains(x));
        if scene[x as int].spec_hit(ray, itv) is Some {
            lemma_node_min(n, scene, ray, itv, x);
        }
    }
}

/// A degenerate tree over exactly two objects answers queries with the
/// nearer of the two direct intersections (either record on an exact tie).
pub proof fn lemma_bvh_object_pair(
    n: BVHNodeStruct,
    scene: Seq<Hittable>,
    x: usize,
    y: usize,
    ray: Ray,
    itv: Interval,
)
    requires
        n.wf_for(scene),
        scene_wf(scene),
        ray.in_range(),
        itv.wf(),
        x < scene.len(),
        y < scene.len(),
        forall|z: usize| #[trigger] n.leaf_contains(z) <==> (z == x || z == y),
        leaf_hits_interior(scene, ray, itv, x),
        leaf_hits_interior(scene, ray, itv, y),
    ensures
        n.spec_hit(scene, ray, itv) is None <==> (scene[x as int].spec_hit(ray, itv) is None
            && scene[y as int].spec_hit(ray, itv) is None),
        n.spec_hit(scene, ray, itv) matches Some(h) ==> (scene[x as int].spec_hit(ray, itv)
            == Some(h) || scene[y as int].spec_hit(ray, itv) == Some(h)) && (
        match scene[x as int].spec_hit(ray, itv) {
            Some(hx) => h.t.spec_le(hx.t),
            None => true,
        }) && (match scene[y as int].spec_hit(ray, itv) {
            Some(hy) => h.t.spec_le(hy.t),
            None => true,
        }),
{
    let th = n.spec_hit(scene, ray, itv);
    assert(n.leaf_contains(x));
    assert(n.leaf_contains(y));
    if th is None {
        if scene[x as int].spec_hit(ray, itv) is Some {
            lemma_node_min(n, scene, ray, itv, x);
        }
        if scene[y as int].spec_hit(ray, itv) is Some {
            lemma_node_min(n, scene, ray, itv, y);
        }
    } else {
        lemma_node_winner(n, scene, ray, itv);
        let z = choose|z: usize|
            #[trigger] n.leaf_contains(z) && scene[z as int].spec_hit(ray, itv) == th;
        assert(z == x || z == y);
        if scene[x as int].spec_hit(ray, itv) is Some {
            lemma_node_min(n, scene, ray, itv, x);
        }
        if scene[y as int].spec_hit(ray, itv) is Some {
            lemma_node_min(n, scene, ray, itv, y);
        }
    }
}

} // verus!
