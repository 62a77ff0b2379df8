use vstd::prelude::*;

verus! {

// A scene is queried through the distances at which one ray meets its spheres:
// `dists[i]` is `Some(k)` where the ray meets sphere `i` in front of its origin,
// `k` being that distance as an order key, and `None` where the ray misses it.
// Any encoding that orders keys as the distances are ordered will do; the bit
// pattern of a non-negative IEEE-754 double is one.

/// Sphere `i` is hit, and no sphere is hit at a smaller distance.
pub open spec fn is_nearest(dists: Seq<Option<u64>>, i: int) -> bool {
    &&& 0 <= i < dists.len()
    &&& dists[i] is Some
    &&& forall|j: int|
        0 <= j < dists.len() && #[trigger] dists[j] is Some ==> dists[i]->0 <= dists[j]->0
}

/// Sphere `i` is nearest, and every sphere before it is strictly farther:
/// among spheres at the same smallest distance, the first one wins.
pub open spec fn is_first_nearest(dists: Seq<Option<u64>>, i: int) -> bool {
    &&& is_nearest(dists, i)
    &&& forall|j: int| 0 <= j < i && #[trigger] dists[j] is Some ==> dists[i]->0 < dists[j]->0
}

/// Some sphere is hit closer than the far plane `far`.
pub open spec fn has_visible_hit(dists: Seq<Option<u64>>, far: u64) -> bool {
    exists|j: int| 0 <= j < dists.len() && #[trigger] dists[j] is Some && dists[j]->0 < far
}

/// Finds the sphere that a ray sees: the nearest one that it hits, provided that
/// it lies closer than the far plane `far`. Ties go to the earlier sphere.
pub fn scene_intersect(dists: &Vec<Option<u64>>, far: u64) -> (r: Option<usize>)
    ensures
        r is Some <==> has_visible_hit(dists@, far),
        r matches Some(i) ==> is_first_nearest(dists@, i as int) && dists@[i as int]->0 < far,
{
    let mut best: Option<usize> = None;
    let mut best_dist: u64 = 0;
    let mut i: usize = 0;
    while i < dists.len()
        invariant
            i <= dists.len(),
            best is None ==> forall|j: int| 0 <= j < i ==> #[trigger] dists@[j] is None,
            best matches Some(b) ==> {
                &&& b < i
                &&& dists@[b as int] == Some(best_dist)
                &&& forall|j: int|
                    0 <= j < i && #[trigger] dists@[j] is Some ==> best_dist <= dists@[j]->0
                &&& forall|j: int|
                    0 <= j < b && #[trigger] dists@[j] is Some ==> best_dist < dists@[j]->0
            },
        decreases dists.len() - i,
    {
        if let Some(d) = dists[i] {
            if best.is_none() || d < best_dist {
                best = Some(i);
                best_dist = d;
            }
        }
        i = i + 1;
    }
    match best {
        Some(b) => {
            if best_dist < far {
                Some(b)
            } else {
                assert(!has_visible_hit(dists@, far));
                None
            }
        },
        None => None,
    }
}

/// Two spheres that are both first nearest along a ray are the same sphere.
pub proof fn lemma_first_nearest_unique(dists: Seq<Option<u64>>, i: int, j: int)
    requires
        is_first_nearest(dists, i),
        is_first_nearest(dists, j),
    ensures
        i == j,
{
    if i < j {
        assert(dists[i] is Some);
    } else if j < i {
        assert(dists[j] is Some);
    }
}

/// Resolves a ray to a color: the color of the sphere that `scene_intersect`
/// finds, or `background` where the ray sees no sphere. `colors[i]` is the
/// color of sphere `i`; no shading is applied.
pub fn cast_ray<T: Copy>(dists: &Vec<Option<u64>>, far: u64, colors: &Vec<T>, background: T) -> (r: T)
    requires
        colors.len() == dists.len(),
    ensures
        !has_visible_hit(dists@, far) ==> r == background,
        has_visible_hit(dists@, far) ==> exists|i: int|
            is_first_nearest(dists@, i) && r == colors@[i],
{
    match scene_intersect(dists, far) {
        Some(i) => colors[i],
        None => background,
    }
}

/// Which sphere is seen, and at what distance, does not depend on the order in
/// which the scene lists its spheres: two listings of the same hits agree on
/// whether anything is visible and on the distance of the nearest hit.
pub proof fn lemma_nearest_order_free(
    d1: Seq<Option<u64>>,
    d2: Seq<Option<u64>>,
    far: u64,
    i1: int,
    i2: int,
)
    requires
        d1.to_multiset() == d2.to_multiset(),
    ensures
        has_visible_hit(d1, far) == has_visible_hit(d2, far),
        is_nearest(d1, i1) && is_nearest(d2, i2) ==> d1[i1] == d2[i2],
{
    if has_visible_hit(d1, far) {
        let j = choose|j: int| 0 <= j < d1.len() && #[trigger] d1[j] is Some && d1[j]->0 < far;
        let k = lemma_find_in_rearranged(d1, d2, j);
        assert(d2[k] is Some);
    }
    if has_visible_hit(d2, far) {
        let j = choose|j: int| 0 <= j < d2.len() && #[trigger] d2[j] is Some && d2[j]->0 < far;
        let k = lemma_find_in_rearranged(d2, d1, j);
        assert(d1[k] is Some);
    }
    if is_nearest(d1, i1) && is_nearest(d2, i2) {
        let k2 = lemma_find_in_rearranged(d1, d2, i1);
        assert(d2[k2] is Some);
        let k1 = lemma_find_in_rearranged(d2, d1, i2);
        assert(d1[k1] is Some);
    }
}

/// An entry of one listing stands somewhere in any rearrangement of it.
proof fn lemma_find_in_rearranged(d1: Seq<Option<u64>>, d2: Seq<Option<u64>>, j: int) -> (k: int)
    requires
        d1.to_multiset() == d2.to_multiset(),
        0 <= j < d1.len(),
    ensures
        0 <= k < d2.len(),
        d2[k] == d1[j],
{
    d1.to_multiset_ensures();
    d2.to_multiset_ensures();
    assert(d1.contains(d1[j]));
    assert(d1.to_multiset().count(d1[j]) > 0);
    assert(d2.contains(d1[j]));
    choose|k: int| 0 <= k < d2.len() && d2[k] == d1[j]
}

/// `dists` with the entries at `a` and `b` exchanged.
pub open spec fn swapped(dists: Seq<Option<u64>>, a: int, b: int) -> Seq<Option<u64>> {
    dists.update(a, dists[b]).update(b, dists[a])
}

/// Where entry `i` lands when the entries at `a` and `b` are exchanged.
pub open spec fn swapped_index(i: int, a: int, b: int) -> int {
    if i == a {
        b
    } else if i == b {
        a
    } else {
        i
    }
}

/// When one sphere is strictly nearer than all others, exchanging two spheres in
/// the scene's list does not change which sphere is seen: it is still that one,
/// at its new position.
pub proof fn lemma_nearest_swap(dists: Seq<Option<u64>>, a: int, b: int, i: int)
    requires
        0 <= a < dists.len(),
        0 <= b < dists.len(),
        is_nearest(dists, i),
        forall|j: int| 0 <= j < dists.len() && j != i && #[trigger] dists[j] is Some
            ==> dists[i]->0 < dists[j]->0,
    ensures
        is_first_nearest(swapped(dists, a, b), swapped_index(i, a, b)),
{
    let s = swapped(dists, a, b);
    let k = swapped_index(i, a, b);
    assert(s[k] == dists[i]);
    assert forall|j: int| 0 <= j < s.len() && #[trigger] s[j] is Some implies dists[i]->0 <= s[j]->0 by {
        assert(s[j] == dists[swapped_index(j, a, b)]);
    }
    assert forall|j: int| 0 <= j < k && #[trigger] s[j] is Some implies dists[i]->0 < s[j]->0 by {
        let m = swapped_index(j, a, b);
        assert(s[j] == dists[m]);
        assert(m != i);
    }
}

} // verus!
