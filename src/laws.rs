//! Laws that relate the box operations to one another, stated over the
//! model that their contracts use.
use vstd::prelude::*;

use crate::aabb::{lemma_aabb_dims, AABB};
use crate::extent::{lemma_sq_gap_grows, min_int, seq_max, seq_min, sq_gap, Extent};

verus! {

/// The box of a single point holds that point, at distance zero.
pub proof fn law_point_box<const N: usize>(p: [i64; N])
    ensures
        (Extent { lower: p@, upper: p@ }).contains(p@),
        (Extent { lower: p@, upper: p@ }).distance_2(p@) == 0,
{
}

/// The box spanned by two corners does not depend on their order.
pub proof fn law_corners_commute<const N: usize>(p: [i64; N], q: [i64; N])
    ensures
        seq_min(p@, q@) == seq_min(q@, p@),
        seq_max(p@, q@) == seq_max(q@, p@),
{
    assert(seq_min(p@, q@) =~= seq_min(q@, p@));
    assert(seq_max(p@, q@) =~= seq_max(q@, p@));
}

/// A point inside a box is at distance zero from it.
pub proof fn law_inside_means_zero_distance<const N: usize>(b: AABB<N>, q: [i64; N])
    ensures
        b@.contains(q@) ==> b@.distance_2(q@) == 0,
{
}

/// On a non-empty box, the squared gap between `q` and its nearest point of
/// the box, over the first `n` dimensions, is at most the sum of the squared
/// near offsets.
proof fn lemma_gap_below_near(e: Extent, q: Seq<i64>, n: nat)
    requires
        e.is_proper(),
        q.len() == e.dims(),
        n <= e.dims(),
    ensures
        sq_gap(e.nearest(q), q, n) <= e.near_sum(q, n),
    decreases n,
{
    if n > 0 {
        lemma_gap_below_near(e, q, (n - 1) as nat);
        let i = n - 1;
        assert(e.lower[i] <= e.upper[i]);
        let d = e.nearest(q)[i] - q[i];
        let m = e.near_off(q, i);
        if q[i] < e.lower[i] {
            assert(d == m);
        } else if q[i] > e.upper[i] {
            assert(d == m);
        } else {
            assert(d == 0);
            assert(m * m >= 0) by (nonlinear_arith);
        }
    }
}

/// Every far-corner candidate is at least the sum of squared near offsets.
proof fn lemma_least_candidate_above(e: Extent, q: Seq<i64>, n: nat)
    requires
        1 <= n <= e.dims(),
    ensures
        e.least_candidate(q, n) >= e.near_sum(q, e.dims()),
    decreases n,
{
    e.lemma_far_dominates(q, (n - 1) as int);
    e.lemma_far_dominates(q, 0);
    if n > 1 {
        lemma_least_candidate_above(e, q, (n - 1) as nat);
    }
}

/// Distances are never negative, and on a non-empty box MINMAXDIST is at
/// least the distance.
pub proof fn law_distance_bounds<const N: usize>(b: AABB<N>, q: [i64; N])
    ensures
        b@.distance_2(q@) >= 0,
        b@.is_proper() ==> b@.min_max_dist_2(q@) >= b@.distance_2(q@),
{
    lemma_aabb_dims(b);
    let e = b@;
    lemma_sq_gap_grows(e.nearest(q@), q@, 0, N as nat);
    if e.is_proper() {
        e.lemma_near_sum_grows(q@, 0, N as nat);
        if N > 0 {
            lemma_least_candidate_above(e, q@, N as nat);
        }
        if !e.contains(q@) {
            lemma_gap_below_near(e, q@, N as nat);
        }
    }
}

/// The sentinel empty box is the identity of merging, on either side.
pub proof fn law_merge_identity<const N: usize>(a: AABB<N>)
    ensures
        a@.merge(Extent::empty(N as nat)) == a@,
        Extent::empty(N as nat).merge(a@) == a@,
{
    lemma_aabb_dims(a);
    let e = Extent::empty(N as nat);
    assert(a@.merge(e).lower =~= a@.lower);
    assert(a@.merge(e).upper =~= a@.upper);
    assert(e.merge(a@).lower =~= a@.lower);
    assert(e.merge(a@).upper =~= a@.upper);
}

/// The merge of two boxes holds each of them.
pub proof fn law_merge_encloses<const N: usize>(a: AABB<N>, b: AABB<N>)
    ensures
        a@.merge(b@).encloses(a@),
        a@.merge(b@).encloses(b@),
{
    lemma_aabb_dims(a);
    lemma_aabb_dims(b);
}

/// Intersection is symmetric, and a box meets every non-empty box it holds.
pub proof fn law_intersects<const N: usize>(a: AABB<N>, b: AABB<N>)
    ensures
        a@.overlaps(b@) == b@.overlaps(a@),
        a@.encloses(b@) && b@.is_proper() ==> a@.overlaps(b@),
{
    lemma_aabb_dims(a);
    lemma_aabb_dims(b);
    assert(a@.overlaps(b@) ==> b@.overlaps(a@));
    assert(b@.overlaps(a@) ==> a@.overlaps(b@));
}

/// The overlap of two boxes is no larger than either, and boxes that do not
/// intersect overlap in zero area.
pub proof fn law_intersection_area<const N: usize>(a: AABB<N>, b: AABB<N>)
    ensures
        a@.meet(b@).area() <= min_int(a@.area(), b@.area()),
        !a@.overlaps(b@) ==> a@.meet(b@).area() == 0,
{
    lemma_aabb_dims(a);
    lemma_aabb_dims(b);
    let m = a@.meet(b@);
    m.lemma_area_le(a@, N as nat);
    m.lemma_area_le(b@, N as nat);
    if !a@.overlaps(b@) {
        let i = choose|i: int|
            0 <= i < N && !(a@.lower[i] <= b@.upper[i] && a@.upper[i] >= b@.lower[i]);
        m.lemma_area_flat(N as nat, i);
    }
}

/// Area and margin are never negative.
pub proof fn law_area_margin_nonneg<const N: usize>(a: AABB<N>)
    ensures
        a@.area() >= 0,
        a@.margin() >= 0,
{
    a@.lemma_area_nonneg(a@.dims());
}

/// The sides of the sentinel empty box sum to a negative number.
proof fn lemma_empty_side_sum(n: nat, k: nat)
    requires
        1 <= k <= n,
    ensures
        Extent::empty(n).side_sum(k) < 0,
    decreases k,
{
    let e = Extent::empty(n);
    assert(e.lower[k - 1] == i64::MAX);
    assert(e.upper[k - 1] == i64::MIN);
    if k > 1 {
        lemma_empty_side_sum(n, (k - 1) as nat);
    }
}

/// In one dimension or more, the sentinel empty box holds no point, meets
/// itself and every box but the one spanning the whole scalar range, and has
/// area and margin zero.
pub proof fn law_empty_box<const N: usize>(q: [i64; N], b: AABB<N>)
    requires
        N >= 1,
    ensures
        !Extent::empty(N as nat).contains(q@),
        !Extent::empty(N as nat).overlaps(Extent::empty(N as nat)),
        Extent::empty(N as nat).overlaps(b@) ==> forall|i: int|
            0 <= i < N ==> #[trigger] b@.lower[i] == i64::MIN && b@.upper[i] == i64::MAX,
        Extent::empty(N as nat).area() == 0,
        Extent::empty(N as nat).margin() == 0,
{
    let e = Extent::empty(N as nat);
    assert(e.lower[0] == i64::MAX);
    assert(e.upper[0] == i64::MIN);
    lemma_aabb_dims(b);
    if e.overlaps(b@) {
        assert forall|i: int| 0 <= i < N implies #[trigger] b@.lower[i] == i64::MIN
            && b@.upper[i] == i64::MAX by {
            assert(e.lower[i] == i64::MAX);
            assert(e.upper[i] == i64::MIN);
        }
    }
    e.lemma_area_flat(N as nat, 0);
    lemma_empty_side_sum(N as nat, N as nat);
}

} // verus!
