//! The axis-aligned bounding box and its operations.
use vstd::prelude::*;
use vstd::seq_lib::{to_multiset_contains, to_multiset_update};

use crate::extent::{lemma_sq_gap_grows, seq_max, seq_min, sq_gap, Extent};
use crate::scalar::{abs_wide, scalar_max, scalar_min};

verus! {

/// Componentwise minimum of two points.
fn point_min<const N: usize>(a: &[i64; N], b: &[i64; N]) -> (r: [i64; N])
    ensures
        r@ == seq_min(a@, b@),
{
    let mut r = *a;
    let mut i: usize = 0;
    while i < N
        invariant
            i <= N,
            r@.len() == N,
            forall|j: int| 0 <= j < i ==> r@[j] == seq_min(a@, b@)[j],
            forall|j: int| i <= j < N ==> r@[j] == a@[j],
        decreases N - i,
    {
        if b[i] < a[i] {
            r[i] = b[i];
        }
        i += 1;
    }
    assert(r@ =~= seq_min(a@, b@));
    r
}

/// Componentwise maximum of two points.
fn point_max<const N: usize>(a: &[i64; N], b: &[i64; N]) -> (r: [i64; N])
    ensures
        r@ == seq_max(a@, b@),
{
    let mut r = *a;
    let mut i: usize = 0;
    while i < N
        invariant
            i <= N,
            r@.len() == N,
            forall|j: int| 0 <= j < i ==> r@[j] == seq_max(a@, b@)[j],
            forall|j: int| i <= j < N ==> r@[j] == a@[j],
        decreases N - i,
    {
        if b[i] > a[i] {
            r[i] = b[i];
        }
        i += 1;
    }
    assert(r@ =~= seq_max(a@, b@));
    r
}

/// Whether `a[i] <= b[i]` in every dimension.
fn all_le<const N: usize>(a: &[i64; N], b: &[i64; N]) -> (r: bool)
    ensures
        r == forall|i: int| #![trigger a@[i]] #![trigger b@[i]] 0 <= i < N ==> a@[i] <= b@[i],
{
    let mut i: usize = 0;
    while i < N
        invariant
            i <= N,
            forall|j: int| #![trigger a@[j]] #![trigger b@[j]] 0 <= j < i ==> a@[j] <= b@[j],
        decreases N - i,
    {
        if a[i] > b[i] {
            return false;
        }
        i += 1;
    }
    true
}

/// Squared Euclidean distance between two points.
fn point_sq_gap<const N: usize>(a: &[i64; N], b: &[i64; N]) -> (r: i128)
    requires
        sq_gap(a@, b@, N as nat) <= i128::MAX,
    ensures
        r == sq_gap(a@, b@, N as nat),
{
    let mut acc: i128 = 0;
    let mut i: usize = 0;
    while i < N
        invariant
            i <= N,
            acc == sq_gap(a@, b@, i as nat),
            sq_gap(a@, b@, N as nat) <= i128::MAX,
        decreases N - i,
    {
        proof {
            lemma_sq_gap_grows(a@, b@, i as nat, i as nat);
            lemma_sq_gap_grows(a@, b@, (i + 1) as nat, N as nat);
        }
        let d: i128 = a[i] as i128 - b[i] as i128;
        acc = acc + d * d;
        i += 1;
    }
    acc
}

/// An n-dimensional axis-aligned bounding box: the closed set of points
/// lying between its lower and its upper corner in every dimension.
#[derive(Clone, Copy, Debug, PartialEq, Eq, PartialOrd, Ord, Hash)]
pub struct AABB<const N: usize> {
    lower: [i64; N],
    upper: [i64; N],
}

impl<const N: usize> View for AABB<N> {
    type V = Extent;

    closed spec fn view(&self) -> Extent {
        Extent { lower: self.lower@, upper: self.upper@ }
    }
}

/// The boxes of `s` in positions `lo..hi` come in order of their lower
/// coordinate on `axis`.
pub open spec fn sorted_on<const N: usize>(s: Seq<AABB<N>>, axis: int, lo: int, hi: int) -> bool {
    forall|a: int, b: int|
        lo <= a < b < hi ==> #[trigger] s[a]@.lower[axis] <= #[trigger] s[b]@.lower[axis]
}

/// Some point among the first `n` of `points` has coordinate `v` in dimension `i`.
pub open spec fn attained<const N: usize>(points: Seq<[i64; N]>, n: int, i: int, v: i64) -> bool {
    exists|k: int| 0 <= k < n && #[trigger] points[k]@[i] == v
}

/// Both corners of a box have `N` coordinates.
pub proof fn lemma_aabb_dims<const N: usize>(b: AABB<N>)
    ensures
        b@.lower.len() == N,
        b@.upper.len() == N,
{
}

/// Merging two boxes that are each proper or the sentinel gives one that is
/// proper or the sentinel.
proof fn lemma_merge_valid<const N: usize>(a: AABB<N>, b: AABB<N>)
    ensures
        a@.is_valid() && b@.is_valid() ==> a@.merge(b@).is_valid(),
{
    lemma_aabb_dims(a);
    lemma_aabb_dims(b);
    let m = a@.merge(b@);
    let e = Extent::empty(N as nat);
    if a@.is_valid() && b@.is_valid() {
        if a@.is_proper() {
            assert forall|i: int| #![trigger m.lower[i]] 0 <= i < m.dims() implies m.lower[i] <= m.upper[i] by {
                assert(a@.lower[i] <= a@.upper[i]);
            }
        } else if b@.is_proper() {
            assert forall|i: int| #![trigger m.lower[i]] 0 <= i < m.dims() implies m.lower[i] <= m.upper[i] by {
                assert(b@.lower[i] <= b@.upper[i]);
            }
        } else {
            assert(m.lower =~= e.lower);
            assert(m.upper =~= e.upper);
        }
    }
}

impl<const N: usize> AABB<N> {
    /// The box holding the single point `p`.
    pub fn from_point(p: [i64; N]) -> (r: Self)
        ensures
            r@.lower == p@,
            r@.upper == p@,
            r@.is_proper(),
    {
        AABB { lower: p, upper: p }
    }

    /// The lower corner: the least coordinate of the box in each dimension.
    pub fn lower(&self) -> (r: [i64; N])
        ensures
            r@ == self@.lower,
    {
        self.lower
    }

    /// The upper corner: the greatest coordinate of the box in each dimension.
    pub fn upper(&self) -> (r: [i64; N])
        ensures
            r@ == self@.upper,
    {
        self.upper
    }

    /// The smallest box holding both points, in whichever order they come.
    pub fn from_corners(p1: [i64; N], p2: [i64; N]) -> (r: Self)
        ensures
            r@.lower == seq_min(p1@, p2@),
            r@.upper == seq_max(p1@, p2@),
            r@.is_proper(),
    {
        AABB { lower: point_min(&p1, &p2), upper: point_max(&p1, &p2) }
    }

    /// The sentinel empty box: it holds no point and is the identity of `merged`.
    pub fn new_empty() -> (r: Self)
        ensures
            r@ == Extent::empty(N as nat),
    {
        let max = scalar_max();
        let min = scalar_min();
        let r = AABB { lower: [max; N], upper: [min; N] };
        assert(r@.lower =~= Extent::empty(N as nat).lower);
        assert(r@.upper =~= Extent::empty(N as nat).upper);
        r
    }

    /// Whether `point` lies in the box, boundary included.
    pub fn contains_point(&self, point: &[i64; N]) -> (r: bool)
        ensures
            r == self@.contains(point@),
    {
        all_le(&self.lower, point) && all_le(point, &self.upper)
    }

    /// Whether `other` lies within this box.
    pub fn contains_envelope(&self, other: &Self) -> (r: bool)
        ensures
            r == self@.encloses(other@),
    {
        let r1 = all_le(&self.lower, &other.lower);
        let r2 = all_le(&other.upper, &self.upper);
        proof {
            assert(other@.lower == other.lower@);
            assert(other@.upper == other.upper@);
            assert(r1 == forall|i: int| 0 <= i < N ==> self@.lower[i] <= other@.lower[i]);
            assert(r2 == forall|i: int| 0 <= i < N ==> other@.upper[i] <= self@.upper[i]);
        }
        r1 && r2
    }

    /// Whether the two closed boxes share a point; touching counts.
    pub fn intersects(&self, other: &Self) -> (r: bool)
        ensures
            r == self@.overlaps(other@),
    {
        let r1 = all_le(&self.lower, &other.upper);
        let r2 = all_le(&other.lower, &self.upper);
        proof {
            assert(other@.lower == other.lower@);
            assert(other@.upper == other.upper@);
            assert(r1 == forall|i: int| 0 <= i < N ==> self@.lower[i] <= other@.upper[i]);
            assert(r2 == forall|i: int| 0 <= i < N ==> other@.lower[i] <= self@.upper[i]);
        }
        r1 && r2
    }

    /// Grows this box to the smallest one that also holds `other`.
    pub fn merge(&mut self, other: &Self)
        ensures
            final(self)@ == old(self)@.merge(other@),
            old(self)@.is_valid() && other@.is_valid() ==> final(self)@.is_valid(),
    {
        proof {
            lemma_merge_valid(*self, *other);
        }
        self.lower = point_min(&self.lower, &other.lower);
        self.upper = point_max(&self.upper, &other.upper);
    }

    /// The smallest box holding both this box and `other`.
    pub fn merged(&self, other: &Self) -> (r: Self)
        ensures
            r@ == self@.merge(other@),
            self@.is_valid() && other@.is_valid() ==> r@.is_valid(),
    {
        proof {
            lemma_merge_valid(*self, *other);
        }
        AABB { lower: point_min(&self.lower, &other.lower), upper: point_max(&self.upper, &other.upper) }
    }

    /// The point of the box nearest to `point`: each coordinate clamped
    /// between the corners. A point inside the box is its own answer.
    pub fn min_point(&self, point: &[i64; N]) -> (r: [i64; N])
        ensures
            r@ == self@.nearest(point@),
    {
        point_min(&self.upper, &point_max(&self.lower, point))
    }

    /// Squared Euclidean distance from `point` to the box: zero inside it,
    /// else the squared distance to `min_point`.
    pub fn distance_2(&self, point: &[i64; N]) -> (r: i128)
        requires
            self@.distance_2(point@) <= i128::MAX,
        ensures
            r == self@.distance_2(point@),
    {
        if self.contains_point(point) {
            0
        } else {
            let m = self.min_point(point);
            point_sq_gap(&m, point)
        }
    }

    /// Product of the sides, each clamped at zero; one in zero dimensions.
    pub fn area(&self) -> (r: i128)
        requires
            self@.area() <= i128::MAX,
        ensures
            r == self@.area(),
    {
        let mut i: usize = 0;
        while i < N
            invariant
                i <= N,
                forall|j: int| 0 <= j < i ==> #[trigger] self@.side(j) >= 1,
            decreases N - i,
        {
            if self.upper[i] <= self.lower[i] {
                proof {
                    self@.lemma_area_flat(N as nat, i as int);
                }
                return 0;
            }
            i += 1;
        }
        let mut acc: i128 = 1;
        let mut i: usize = 0;
        while i < N
            invariant
                i <= N,
                acc == self@.area_upto(i as nat),
                forall|j: int| 0 <= j < N ==> #[trigger] self@.side(j) >= 1,
                self@.area() <= i128::MAX,
            decreases N - i,
        {
            proof {
                self@.lemma_area_nonneg(i as nat);
                self@.lemma_area_grows((i + 1) as nat, N as nat);
                assert(self@.side(i as int) >= 1);
            }
            let side: i128 = self.upper[i] as i128 - self.lower[i] as i128;
            acc = acc * side;
            i += 1;
        }
        acc
    }

    /// Sum of the sides, clamped at zero.
    pub fn margin_value(&self) -> (r: i128)
        requires
            N <= u32::MAX,
        ensures
            r == self@.margin(),
    {
        let mut acc: i128 = 0;
        let mut i: usize = 0;
        while i < N
            invariant
                i <= N,
                N <= u32::MAX,
                acc == self@.side_sum(i as nat),
                -(i as int) * 0x1_0000_0000_0000_0000 <= acc <= (i as int) * 0x1_0000_0000_0000_0000,
            decreases N - i,
        {
            acc = acc + (self.upper[i] as i128 - self.lower[i] as i128);
            i += 1;
        }
        if acc < 0 {
            0
        } else {
            acc
        }
    }

    /// Area of the overlap of the two boxes; zero where they are apart.
    pub fn intersection_area(&self, other: &Self) -> (r: i128)
        requires
            self@.meet(other@).area() <= i128::MAX,
        ensures
            r == self@.meet(other@).area(),
    {
        AABB {
            lower: point_max(&self.lower, &other.lower),
            upper: point_min(&self.upper, &other.upper),
        }.area()
    }

    /// Componentwise midpoint of the corners, rounded toward zero.
    pub fn center(&self) -> (r: [i64; N])
        ensures
            forall|i: int| 0 <= i < N ==> #[trigger] r@[i] == self@.center()[i],
    {
        let mut r = self.lower;
        let mut i: usize = 0;
        while i < N
            invariant
                i <= N,
                forall|j: int| 0 <= j < i ==> #[trigger] r@[j] == self@.center()[j],
            decreases N - i,
        {
            let s: i128 = self.lower[i] as i128 + self.upper[i] as i128;
            let h: i128 = if s >= 0 {
                s / 2
            } else {
                -((-s) / 2)
            };
            r[i] = h as i64;
            i += 1;
        }
        r
    }

    /// MINMAXDIST: the squared distance from `point` to the nearest of the
    /// box's far corners, a far corner taking the farther face in one
    /// dimension and the nearer face in all others.
    pub fn min_max_dist_2(&self, point: &[i64; N]) -> (r: i128)
        requires
            forall|k: int| 0 <= k < N ==> #[trigger] self@.candidate(point@, k) <= i128::MAX,
        ensures
            r == self@.min_max_dist_2(point@),
    {
        if N == 0 {
            return 0;
        }
        let mut near: [i128; N] = [0; N];
        let mut far: [i128; N] = [0; N];
        let mut i: usize = 0;
        while i < N
            invariant
                i <= N,
                forall|j: int| 0 <= j < i ==> #[trigger] near@[j] == self@.near_off(point@, j),
                forall|j: int| 0 <= j < i ==> #[trigger] far@[j] == self@.far_off(point@, j),
            decreases N - i,
        {
            let l: i128 = self.lower[i] as i128 - point[i] as i128;
            let u: i128 = self.upper[i] as i128 - point[i] as i128;
            if abs_wide(&l) < abs_wide(&u) {
                near[i] = l;
                far[i] = u;
            } else {
                near[i] = u;
                far[i] = l;
            }
            i += 1;
        }
        proof {
            self@.lemma_far_dominates(point@, 0);
            self@.lemma_near_sum_grows(point@, N as nat, N as nat);
            assert(self@.candidate(point@, 0) <= i128::MAX);
        }
        let mut base: i128 = 0;
        let mut i: usize = 0;
        while i < N
            invariant
                i <= N,
                base == self@.near_sum(point@, i as nat),
                self@.near_sum(point@, N as nat) <= i128::MAX,
                forall|j: int| 0 <= j < N ==> #[trigger] near@[j] == self@.near_off(point@, j),
            decreases N - i,
        {
            proof {
                self@.lemma_near_sum_grows(point@, i as nat, i as nat);
                self@.lemma_near_sum_grows(point@, (i + 1) as nat, N as nat);
            }
            base = base + near[i] * near[i];
            i += 1;
        }
        let mut result: i128 = 0;
        let mut k: usize = 0;
        while k < N
            invariant
                1 <= N,
                k <= N,
                base == self@.near_sum(point@, N as nat),
                k > 0 ==> result == self@.least_candidate(point@, k as nat),
                forall|j: int| 0 <= j < N ==> #[trigger] near@[j] == self@.near_off(point@, j),
                forall|j: int| 0 <= j < N ==> #[trigger] far@[j] == self@.far_off(point@, j),
                forall|j: int| 0 <= j < N ==> #[trigger] self@.candidate(point@, j) <= i128::MAX,
            decreases N - k,
        {
            proof {
                self@.lemma_far_dominates(point@, k as int);
                self@.lemma_near_sum_grows(point@, (k + 1) as nat, N as nat);
                self@.lemma_near_sum_grows(point@, k as nat, (k + 1) as nat);
                assert(self@.candidate(point@, k as int) <= i128::MAX);
            }
            let cand: i128 = base - near[k] * near[k] + far[k] * far[k];
            if cand < result || k == 0 {
                result = cand;
            }
            k += 1;
        }
        result
    }

    /// The smallest box holding this box and `point`.
    fn add_point(&self, point: &[i64; N]) -> (r: Self)
        ensures
            r@.lower == seq_min(self@.lower, point@),
            r@.upper == seq_max(self@.upper, point@),
    {
        AABB { lower: point_min(&self.lower, point), upper: point_max(&self.upper, point) }
    }

    /// The smallest box holding every point of `points`; the sentinel empty
    /// box when there are none.
    pub fn from_points(points: &[[i64; N]]) -> (r: Self)
        ensures
            points@.len() == 0 ==> r@ == Extent::empty(N as nat),
            points@.len() > 0 ==> r@.is_proper(),
            forall|k: int| 0 <= k < points@.len() ==> r@.contains(#[trigger] points@[k]@),
            points@.len() > 0 ==> forall|i: int|
                0 <= i < N ==> attained(points@, points@.len() as int, i, #[trigger] r@.lower[i]),
            points@.len() > 0 ==> forall|i: int|
                0 <= i < N ==> attained(points@, points@.len() as int, i, #[trigger] r@.upper[i]),
    {
        let mut r = Self::new_empty();
        let mut j: usize = 0;
        while j < points.len()
            invariant
                j <= points@.len(),
                j == 0 ==> r@ == Extent::empty(N as nat),
                forall|k: int| 0 <= k < j ==> r@.contains(#[trigger] points@[k]@),
                j > 0 ==> forall|i: int|
                    0 <= i < N ==> attained(points@, j as int, i, #[trigger] r@.lower[i]),
                j > 0 ==> forall|i: int|
                    0 <= i < N ==> attained(points@, j as int, i, #[trigger] r@.upper[i]),
            decreases points@.len() - j,
        {
            let prev = r;
            r = prev.add_point(&points[j]);
            proof {
                let p = points@[j as int]@;
                lemma_aabb_dims(prev);
                lemma_aabb_dims(r);
                assert forall|k: int| 0 <= k < j + 1 implies r@.contains(#[trigger] points@[k]@) by {
                    if k < j {
                        assert(prev@.contains(points@[k]@));
                    }
                }
                assert forall|i: int| 0 <= i < N implies attained(
                    points@,
                    j + 1,
                    i,
                    #[trigger] r@.lower[i],
                ) by {
                    if p[i] <= prev@.lower[i] {
                        assert(points@[j as int]@[i] == r@.lower[i]);
                    } else {
                        assert(attained(points@, j as int, i, prev@.lower[i]));
                    }
                }
                assert forall|i: int| 0 <= i < N implies attained(
                    points@,
                    j + 1,
                    i,
                    #[trigger] r@.upper[i],
                ) by {
                    if p[i] >= prev@.upper[i] {
                        assert(points@[j as int]@[i] == r@.upper[i]);
                    } else {
                        assert(attained(points@, j as int, i, prev@.upper[i]));
                    }
                }
            }
            j += 1;
        }
        proof {
            lemma_aabb_dims(r);
            if points@.len() > 0 {
                assert(r@.contains(points@[0]@));
            }
        }
        r
    }

    /// Orders `envelopes` by the lower coordinate of each box on `axis`,
    /// keeping boxes with equal coordinates in the order they came.
    pub fn sort_envelopes(axis: usize, envelopes: &mut [AABB<N>])
        requires
            axis < N,
        ensures
            final(envelopes)@.to_multiset() == old(envelopes)@.to_multiset(),
            sorted_on(final(envelopes)@, axis as int, 0, final(envelopes)@.len() as int),
    {
        broadcast use vstd::multiset::group_multiset_axioms;

        let n = envelopes.len();
        let mut i: usize = 0;
        while i < n
            invariant
                n == envelopes@.len(),
                i <= n,
                axis < N,
                envelopes@.to_multiset() == old(envelopes)@.to_multiset(),
                sorted_on(envelopes@, axis as int, 0, i as int),
            decreases n - i,
        {
            let mut j: usize = i;
            while j > 0 && envelopes[j - 1].lower[axis] > envelopes[j].lower[axis]
                invariant
                    n == envelopes@.len(),
                    j <= i < n,
                    axis < N,
                    envelopes@.to_multiset() == old(envelopes)@.to_multiset(),
                    sorted_on(envelopes@, axis as int, 0, j as int),
                    sorted_on(envelopes@, axis as int, j as int, i + 1),
                    forall|a: int, b: int|
                        0 <= a < j < b <= i ==> #[trigger] envelopes@[a]@.lower[axis as int]
                            <= #[trigger] envelopes@[b]@.lower[axis as int],
                decreases j,
            {
                let ghost s0 = envelopes@;
                let x = envelopes[j - 1];
                let y = envelopes[j];
                envelopes[j - 1] = y;
                let ghost s1 = envelopes@;
                envelopes[j] = x;
                proof {
                    assert(s1 == s0.update(j - 1, y));
                    assert(envelopes@ == s1.update(j as int, x));
                    to_multiset_update(s0, j - 1, y);
                    to_multiset_update(s1, j as int, x);
                    assert(s0[j - 1] == x);
                    assert(s0.contains(x));
                    to_multiset_contains(s0, x);
                    assert(envelopes@.to_multiset() =~= s0.to_multiset());
                    let k = axis as int;
                    let e = envelopes@;
                    assert forall|a: int, b: int|
                        j - 1 <= a < b < i + 1 implies #[trigger] e[a]@.lower[k]
                        <= #[trigger] e[b]@.lower[k] by {
                        if a == j - 1 && b > j {
                            assert(s0[j as int]@.lower[k] <= s0[b]@.lower[k]);
                        } else if a == j - 1 && b == j {
                        } else {
                            assert(s0[a]@.lower[k] <= s0[b]@.lower[k]);
                        }
                    }
                    assert forall|a: int, b: int|
                        0 <= a < j - 1 < b <= i implies #[trigger] e[a]@.lower[k]
                        <= #[trigger] e[b]@.lower[k] by {
                        if b == j {
                            assert(s0[a]@.lower[k] <= s0[j - 1]@.lower[k]);
                        } else {
                            assert(s0[a]@.lower[k] <= s0[b]@.lower[k]);
                        }
                    }
                }
                j -= 1;
            }
            proof {
                let k = axis as int;
                let e = envelopes@;
                assert forall|a: int, b: int| 0 <= a < b < i + 1 implies #[trigger] e[a]@.lower[k]
                    <= #[trigger] e[b]@.lower[k] by {
                    if a < j && b == j {
                        assert(e[a]@.lower[k] <= e[j - 1]@.lower[k]);
                    }
                }
            }
            i += 1;
        }
    }
}

} // verus!
