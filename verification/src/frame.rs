//! One frame's decisions: which triangles are drawn, with which shade, and
//! in which order.
//!
//! For every triangle of the mesh the caller computes three numbers: how the
//! face is turned towards the camera (the normal times the line of sight),
//! how much light falls on it (the normal times the light direction), and how
//! far away it is (the mean depth of its corners after projection). The plan
//! is made from these numbers alone.
use crate::painter::{ascending, far_to_near, sort_far_to_near};
use crate::single::{lemma_key_orders_values, lemma_value_of_one, Single};
use vstd::arithmetic::power2::pow2;
use vstd::prelude::*;

verus! {

/// What the pipeline knows of one triangle of the mesh before it decides.
#[derive(Clone, Copy, Debug, PartialEq, Eq, Structural)]
pub struct Candidate {
    /// The face normal times the vector from the camera to the triangle.
    pub facing: Single,
    /// The face normal times the light direction.
    pub intensity: Single,
    /// The mean depth of the three projected corners. Read only where the
    /// triangle is visible.
    pub depth: Single,
}

/// One triangle to draw.
#[derive(Clone, Copy, Debug, PartialEq, Eq, Structural)]
pub struct Dispatch {
    /// The triangle's index in the mesh.
    pub source: usize,
    /// Its brightness, between zero and one.
    pub shade: Single,
}

/// A face is visible where `facing` is strictly below zero. A face seen
/// edge-on (zero of either sign) is not, and neither is one whose `facing`
/// is not a number, as that of a triangle without area.
pub open spec fn visible(facing: Single) -> bool {
    facing.below_zero()
}

/// The value of the number one.
pub open spec fn one_value() -> int {
    pow2(149) as int
}

/// The brightness for a light intensity: the intensity itself where it lies
/// between zero and one, else the nearer of the two. What is not a number
/// gives zero.
pub open spec fn shade_of(intensity: Single) -> Single {
    if intensity.nan() || intensity.value() <= 0 {
        Single { bits: 0 }
    } else if intensity.value() >= one_value() {
        Single { bits: 0x3f80_0000 }
    } else {
        intensity
    }
}

/// The mesh indices of a plan, in drawing order.
pub open spec fn sources(plan: Seq<Dispatch>) -> Seq<usize> {
    plan.map_values(|d: Dispatch| d.source)
}

/// The depths of the candidates, by mesh index.
pub open spec fn depths(candidates: Seq<Candidate>) -> Seq<Single> {
    candidates.map_values(|c: Candidate| c.depth)
}

/// `plan` is the plan for `candidates`: it holds the visible triangles and no
/// others, each with its shade, from far to near where `depth_sort` is set
/// and in mesh order where it is not. There is exactly one such plan.
pub open spec fn is_plan(plan: Seq<Dispatch>, candidates: Seq<Candidate>, depth_sort: bool) -> bool {
    &&& forall|k: int|
        0 <= k < plan.len() ==> {
            let d = #[trigger] plan[k];
            &&& d.source < candidates.len()
            &&& visible(candidates[d.source as int].facing)
            &&& d.shade == shade_of(candidates[d.source as int].intensity)
        }
    &&& forall|i: int|
        0 <= i < candidates.len() && visible(#[trigger] candidates[i].facing) ==> exists|k: int|
            0 <= k < plan.len() && (#[trigger] plan[k]).source == i
    &&& if depth_sort {
        far_to_near(sources(plan), depths(candidates))
    } else {
        ascending(sources(plan))
    }
}

/// Whether a face with this `facing` is drawn: only if it is strictly below
/// zero.
pub fn is_front_facing(facing: Single) -> (r: bool)
    ensures
        r == visible(facing),
{
    facing.is_below_zero()
}

/// The brightness for a light intensity, kept between zero and one.
pub fn shade(intensity: Single) -> (r: Single)
    ensures
        r == shade_of(intensity),
{
    let one = Single::one();
    let zero = Single::zero();
    proof {
        if !intensity.nan() {
            lemma_key_orders_values(intensity, one);
            lemma_key_orders_values(intensity, zero);
            lemma_key_orders_values(zero, intensity);
        }
    }
    if intensity.is_nan() || intensity.order_key() <= zero.order_key() {
        zero
    } else if intensity.order_key() >= one.order_key() {
        one
    } else {
        intensity
    }
}

/// A shade is a number between zero and one, and a light intensity that
/// already is one has a shade of the same value.
pub proof fn lemma_shade_is_between_zero_and_one(intensity: Single)
    ensures
        !shade_of(intensity).nan(),
        0 <= shade_of(intensity).value() <= one_value(),
        !intensity.nan() && 0 <= intensity.value() <= one_value() ==> shade_of(intensity).value()
            == intensity.value(),
{
    lemma_value_of_one();
}

/// The indices of the visible candidates, in mesh order.
pub fn visible_indices(candidates: &Vec<Candidate>) -> (found: Vec<usize>)
    ensures
        ascending(found@),
        forall|x: usize|
            found@.contains(x) <==> x < candidates.len() && visible(candidates[x as int].facing),
{
    let mut found: Vec<usize> = Vec::new();
    let mut i: usize = 0;
    while i < candidates.len()
        invariant
            i <= candidates.len(),
            ascending(found@),
            forall|k: int| 0 <= k < found.len() ==> #[trigger] found[k] < i,
            forall|x: usize|
                found@.contains(x) <==> x < i && visible(candidates[x as int].facing),
        decreases candidates.len() - i,
    {
        let ghost before = found@;
        if is_front_facing(candidates[i].facing) {
            found.push(i);
            proof {
                assert forall|x: usize|
                    found@.contains(x) <==> x < i + 1 && visible(
                        candidates[x as int].facing,
                    ) by {
                    if before.contains(x) {
                        let k = choose|k: int| 0 <= k < before.len() && before[k] == x;
                        assert(found[k] == x);
                    }
                    if x == i {
                        assert(found[before.len() as int] == x);
                    }
                    if found@.contains(x) {
                        let k = choose|k: int| 0 <= k < found.len() && found[k] == x;
                        if k < before.len() {
                            assert(before[k] == x);
                        }
                    }
                }
            }
        }
        i = i + 1;
    }
    found
}

/// Plans one frame. Triangles that look away from the camera are left out
/// and never reach the drawing surface. The others get their shade and are
/// listed in drawing order: from far to near where `depth_sort` is set, in
/// mesh order where it is not.
pub fn plan_frame(candidates: &Vec<Candidate>, depth_sort: bool) -> (plan: Vec<Dispatch>)
    ensures
        is_plan(plan@, candidates@, depth_sort),
{
    let found = visible_indices(candidates);
    let order = if depth_sort {
        let mut all_depths: Vec<Single> = Vec::new();
        let mut i: usize = 0;
        while i < candidates.len()
            invariant
                i <= candidates.len(),
                all_depths.len() == i,
                forall|k: int| 0 <= k < i ==> #[trigger] all_depths[k] == candidates[k].depth,
            decreases candidates.len() - i,
        {
            all_depths.push(candidates[i].depth);
            i = i + 1;
        }
        proof {
            assert(all_depths@ =~= depths(candidates@));
            assert forall|k: int| 0 <= k < found.len() implies #[trigger] found[k]
                < all_depths.len() by {
                assert(found@.contains(found[k]));
            }
        }
        sort_far_to_near(&found, &all_depths)
    } else {
        found
    };
    let mut plan: Vec<Dispatch> = Vec::new();
    let mut k: usize = 0;
    while k < order.len()
        invariant
            k <= order.len(),
            plan.len() == k,
            forall|x: usize|
                order@.contains(x) <==> x < candidates.len() && visible(
                    candidates[x as int].facing,
                ),
            forall|j: int|
                0 <= j < k ==> {
                    &&& (#[trigger] plan[j]).source == order[j]
                    &&& plan[j].shade == shade_of(candidates[order[j] as int].intensity)
                },
        decreases order.len() - k,
    {
        let source = order[k];
        proof {
            assert(order@.contains(source));
        }
        plan.push(Dispatch { source, shade: shade(candidates[source].intensity) });
        k = k + 1;
    }
    proof {
        assert(sources(plan@) =~= order@);
        assert forall|j: int| 0 <= j < plan.len() implies {
            let d = #[trigger] plan[j];
            &&& d.source < candidates.len()
            &&& visible(candidates[d.source as int].facing)
            &&& d.shade == shade_of(candidates[d.source as int].intensity)
        } by {
            assert(order@.contains(order[j]));
        }
        assert forall|i: int|
            0 <= i < candidates.len() && visible(
                #[trigger] candidates[i].facing,
            ) implies exists|j: int| 0 <= j < plan.len() && (#[trigger] plan[j]).source == i by {
            assert(order@.contains(i as usize));
            let j = choose|j: int| 0 <= j < order.len() && order[j] == i as usize;
            assert(plan[j].source == i);
        }
    }
    plan
}

/// A triangle that is not visible is in no plan: culling discards it for the
/// frame, whatever its depth and the light on it.
pub proof fn lemma_culled_is_never_drawn(
    plan: Seq<Dispatch>,
    candidates: Seq<Candidate>,
    depth_sort: bool,
    i: int,
    k: int,
)
    requires
        is_plan(plan, candidates, depth_sort),
        0 <= i < candidates.len(),
        !visible(candidates[i].facing),
        0 <= k < plan.len(),
    ensures
        plan[k].source != i,
{
}

/// A plan draws no triangle twice.
pub proof fn lemma_plan_draws_once(
    plan: Seq<Dispatch>,
    candidates: Seq<Candidate>,
    depth_sort: bool,
    a: int,
    b: int,
)
    requires
        is_plan(plan, candidates, depth_sort),
        0 <= a < b < plan.len(),
    ensures
        plan[a].source != plan[b].source,
{
    let s = sources(plan);
    assert(s[a] == plan[a].source && s[b] == plan[b].source);
    if depth_sort {
        crate::painter::lemma_ordered_is_duplicate_free(
            s,
            crate::painter::keys_of(depths(candidates)),
            a,
            b,
        );
    }
}

/// With depth sorting, of two drawn triangles whose depths are different
/// numbers the farther one is drawn first.
pub proof fn lemma_plan_paints_far_to_near(
    plan: Seq<Dispatch>,
    candidates: Seq<Candidate>,
    a: int,
    b: int,
)
    requires
        is_plan(plan, candidates, true),
        0 <= a < b < plan.len(),
        !candidates[plan[a].source as int].depth.nan(),
        !candidates[plan[b].source as int].depth.nan(),
        candidates[plan[a].source as int].depth.value() != candidates[plan[b].source as int].depth.value(),
    ensures
        candidates[plan[a].source as int].depth.value() > candidates[plan[b].source as int].depth.value(),
{
    let s = sources(plan);
    assert(s[a] == plan[a].source && s[b] == plan[b].source);
    crate::painter::lemma_distinct_depths_strictly_far_to_near(s, depths(candidates), a, b);
}

/// The plan is a function of the candidates: two plans for the same
/// candidates and the same setting are equal.
pub proof fn lemma_plan_is_unique(
    p: Seq<Dispatch>,
    q: Seq<Dispatch>,
    candidates: Seq<Candidate>,
    depth_sort: bool,
)
    requires
        is_plan(p, candidates, depth_sort),
        is_plan(q, candidates, depth_sort),
    ensures
        p == q,
{
    let sp = sources(p);
    let sq = sources(q);
    assert forall|x: usize| sp.contains(x) <==> sq.contains(x) by {
        if sp.contains(x) {
            let k = choose|k: int| 0 <= k < sp.len() && sp[k] == x;
            assert(p[k].source == x);
            assert(visible(candidates[x as int].facing));
            let m = choose|m: int| 0 <= m < q.len() && (#[trigger] q[m]).source == x as int;
            assert(sq[m] == x);
        }
        if sq.contains(x) {
            let k = choose|k: int| 0 <= k < sq.len() && sq[k] == x;
            assert(q[k].source == x);
            assert(visible(candidates[x as int].facing));
            let m = choose|m: int| 0 <= m < p.len() && (#[trigger] p[m]).source == x as int;
            assert(sp[m] == x);
        }
    }
    if depth_sort {
        crate::painter::lemma_ordered_is_unique(sp, sq, crate::painter::keys_of(depths(candidates)));
    } else {
        assert forall|k: int| 0 <= k < sp.len() implies #[trigger] sp[k] < candidates.len() by {
            assert(p[k].source == sp[k]);
        }
        assert forall|k: int| 0 <= k < sq.len() implies #[trigger] sq[k] < candidates.len() by {
            assert(q[k].source == sq[k]);
        }
        crate::painter::lemma_ascending_is_ordered(sp, candidates.len());
        crate::painter::lemma_ascending_is_ordered(sq, candidates.len());
        crate::painter::lemma_ordered_is_unique(
            sp,
            sq,
            Seq::new(candidates.len(), |i: int| 0u32),
        );
    }
    assert(p.len() == sp.len() && q.len() == sq.len());
    assert forall|k: int| 0 <= k < p.len() implies p[k] == q[k] by {
        assert(sp[k] == p[k].source);
        assert(sq[k] == q[k].source);
    }
    assert(p =~= q);
}

} // verus!
