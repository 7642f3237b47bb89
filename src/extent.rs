//! The mathematical model of a box: its two corners as sequences of
//! coordinates, and every quantity the box operations compute, over `int`.
use vstd::prelude::*;

verus! {

pub open spec fn min_int(a: int, b: int) -> int {
    if a <= b {
        a
    } else {
        b
    }
}

pub open spec fn max_int(a: int, b: int) -> int {
    if a >= b {
        a
    } else {
        b
    }
}

pub open spec fn abs_int(a: int) -> int {
    if a < 0 {
        -a
    } else {
        a
    }
}

/// Halving that rounds toward zero, as integer division does.
pub open spec fn halve(s: int) -> int {
    if s >= 0 {
        s / 2
    } else {
        -((-s) / 2)
    }
}

/// Componentwise minimum of two points.
pub open spec fn seq_min(a: Seq<i64>, b: Seq<i64>) -> Seq<i64> {
    Seq::new(a.len(), |i: int| if a[i] <= b[i] { a[i] } else { b[i] })
}

/// Componentwise maximum of two points.
pub open spec fn seq_max(a: Seq<i64>, b: Seq<i64>) -> Seq<i64> {
    Seq::new(a.len(), |i: int| if a[i] >= b[i] { a[i] } else { b[i] })
}

/// The point with `n` coordinates, all equal to `v`.
pub open spec fn filled(n: nat, v: i64) -> Seq<i64> {
    Seq::new(n, |i: int| v)
}

/// Sum of the squared differences of the first `n` coordinates of `a` and `b`.
pub open spec fn sq_gap(a: Seq<i64>, b: Seq<i64>, n: nat) -> int
    decreases n,
{
    if n == 0 {
        0
    } else {
        sq_gap(a, b, (n - 1) as nat) + (a[n - 1] - b[n - 1]) * (a[n - 1] - b[n - 1])
    }
}

/// A box given by its lower and its upper corner.
pub struct Extent {
    pub lower: Seq<i64>,
    pub upper: Seq<i64>,
}

impl Extent {
    pub open spec fn dims(self) -> nat {
        self.lower.len()
    }

    /// The sentinel empty box in `n` dimensions: lower corner at the largest
    /// scalar, upper corner at the smallest.
    pub open spec fn empty(n: nat) -> Extent {
        Extent { lower: filled(n, i64::MAX), upper: filled(n, i64::MIN) }
    }

    /// Both corners have the same number of coordinates.
    pub open spec fn shaped(self) -> bool {
        self.upper.len() == self.lower.len()
    }

    /// A non-empty box: lower at most upper in every dimension.
    pub open spec fn is_proper(self) -> bool {
        &&& self.shaped()
        &&& forall|i: int| #![trigger self.lower[i]] 0 <= i < self.dims() ==> self.lower[i] <= self.upper[i]
    }

    /// What the public constructors hand out: a proper box or the sentinel.
    pub open spec fn is_valid(self) -> bool {
        self.is_proper() || self == Extent::empty(self.dims())
    }

    pub open spec fn contains(self, q: Seq<i64>) -> bool {
        forall|i: int|
            #![trigger self.lower[i]]
            #![trigger q[i]]
            #![trigger self.upper[i]]
            0 <= i < self.dims() ==> self.lower[i] <= q[i] && q[i] <= self.upper[i]
    }

    pub open spec fn encloses(self, o: Extent) -> bool {
        forall|i: int|
            #![trigger self.lower[i]]
            #![trigger self.upper[i]]
            0 <= i < self.dims() ==> self.lower[i] <= o.lower[i] && self.upper[i] >= o.upper[i]
    }

    pub open spec fn overlaps(self, o: Extent) -> bool {
        forall|i: int|
            #![trigger self.lower[i]]
            #![trigger self.upper[i]]
            0 <= i < self.dims() ==> self.lower[i] <= o.upper[i] && self.upper[i] >= o.lower[i]
    }

    /// The smallest box holding both.
    pub open spec fn merge(self, o: Extent) -> Extent {
        Extent { lower: seq_min(self.lower, o.lower), upper: seq_max(self.upper, o.upper) }
    }

    /// The candidate intersection; inverted in a dimension where the two are apart.
    pub open spec fn meet(self, o: Extent) -> Extent {
        Extent { lower: seq_max(self.lower, o.lower), upper: seq_min(self.upper, o.upper) }
    }

    pub open spec fn side(self, i: int) -> int {
        self.upper[i] - self.lower[i]
    }

    /// Product of the first `n` sides, each clamped at zero.
    pub open spec fn area_upto(self, n: nat) -> int
        decreases n,
    {
        if n == 0 {
            1
        } else {
            self.area_upto((n - 1) as nat) * max_int(self.side(n - 1), 0)
        }
    }

    pub open spec fn area(self) -> int {
        self.area_upto(self.dims())
    }

    /// Sum of the first `n` sides.
    pub open spec fn side_sum(self, n: nat) -> int
        decreases n,
    {
        if n == 0 {
            0
        } else {
            self.side_sum((n - 1) as nat) + self.side(n - 1)
        }
    }

    pub open spec fn margin(self) -> int {
        max_int(self.side_sum(self.dims()), 0)
    }

    /// The point of the box nearest to `q`, found by clamping each coordinate.
    pub open spec fn nearest(self, q: Seq<i64>) -> Seq<i64> {
        seq_min(self.upper, seq_max(self.lower, q))
    }

    /// Squared Euclidean distance from `q` to the box.
    pub open spec fn distance_2(self, q: Seq<i64>) -> int {
        if self.contains(q) {
            0
        } else {
            sq_gap(self.nearest(q), q, self.dims())
        }
    }

    /// Offset from `q` to the face of the box nearer to it in dimension `i`
    /// (the upper face on a tie).
    pub open spec fn near_off(self, q: Seq<i64>, i: int) -> int {
        let l = self.lower[i] - q[i];
        let u = self.upper[i] - q[i];
        if abs_int(l) < abs_int(u) {
            l
        } else {
            u
        }
    }

    /// Offset from `q` to the other face in dimension `i`.
    pub open spec fn far_off(self, q: Seq<i64>, i: int) -> int {
        let l = self.lower[i] - q[i];
        let u = self.upper[i] - q[i];
        if abs_int(l) < abs_int(u) {
            u
        } else {
            l
        }
    }

    /// Sum of the squared near offsets of the first `n` dimensions.
    pub open spec fn near_sum(self, q: Seq<i64>, n: nat) -> int
        decreases n,
    {
        if n == 0 {
            0
        } else {
            self.near_sum(q, (n - 1) as nat) + self.near_off(q, n - 1) * self.near_off(q, n - 1)
        }
    }

    /// Squared norm of the corner that takes the near offset in every
    /// dimension but `k`, and the far offset in `k`.
    pub open spec fn candidate(self, q: Seq<i64>, k: int) -> int {
        self.near_sum(q, self.dims()) - self.near_off(q, k) * self.near_off(q, k) + self.far_off(
            q,
            k,
        ) * self.far_off(q, k)
    }

    /// Least candidate among dimensions `0..n`, for `n >= 1`.
    pub open spec fn least_candidate(self, q: Seq<i64>, n: nat) -> int
        decreases n,
    {
        if n <= 1 {
            self.candidate(q, 0)
        } else {
            min_int(self.least_candidate(q, (n - 1) as nat), self.candidate(q, n - 1))
        }
    }

    /// MINMAXDIST: the squared distance from `q` to the nearest of the box's
    /// far corners; zero in zero dimensions.
    pub open spec fn min_max_dist_2(self, q: Seq<i64>) -> int {
        if self.dims() == 0 {
            0
        } else {
            self.least_candidate(q, self.dims())
        }
    }

    /// Componentwise midpoint, rounded toward zero.
    pub open spec fn center(self) -> Seq<int> {
        Seq::new(self.dims(), |i: int| halve(self.lower[i] + self.upper[i]))
    }
}

/// Partial sums of squared differences never decrease.
pub proof fn lemma_sq_gap_grows(a: Seq<i64>, b: Seq<i64>, m: nat, n: nat)
    requires
        m <= n,
    ensures
        0 <= sq_gap(a, b, m) <= sq_gap(a, b, n),
    decreases n,
{
    if n > m {
        lemma_sq_gap_grows(a, b, m, (n - 1) as nat);
        let d = a[n - 1] - b[n - 1];
        assert(d * d >= 0) by (nonlinear_arith);
    } else if n > 0 {
        lemma_sq_gap_grows(a, b, (n - 1) as nat, (n - 1) as nat);
        let d = a[n - 1] - b[n - 1];
        assert(d * d >= 0) by (nonlinear_arith);
    }
}

impl Extent {
    /// A product of clamped sides is never negative.
    pub proof fn lemma_area_nonneg(self, n: nat)
        ensures
            self.area_upto(n) >= 0,
        decreases n,
    {
        if n > 0 {
            self.lemma_area_nonneg((n - 1) as nat);
            let x = self.area_upto((n - 1) as nat);
            let f = max_int(self.side(n - 1), 0);
            assert(x * f >= 0) by (nonlinear_arith)
                requires
                    x >= 0,
                    f >= 0,
            ;
        }
    }

    /// A side of zero or less, among the first `n`, makes the product zero.
    pub proof fn lemma_area_flat(self, n: nat, k: int)
        requires
            0 <= k < n,
            self.side(k) <= 0,
        ensures
            self.area_upto(n) == 0,
        decreases n,
    {
        let x = self.area_upto((n - 1) as nat);
        let f = max_int(self.side(n - 1), 0);
        if k < n - 1 {
            self.lemma_area_flat((n - 1) as nat, k);
            assert(x * f == 0) by (nonlinear_arith)
                requires
                    x == 0,
            ;
        } else {
            assert(x * f == 0) by (nonlinear_arith)
                requires
                    f == 0,
            ;
        }
    }

    /// With every side from `m` on at least one, the product only grows.
    pub proof fn lemma_area_grows(self, m: nat, n: nat)
        requires
            m <= n,
            forall|i: int| m <= i < n ==> #[trigger] self.side(i) >= 1,
        ensures
            self.area_upto(m) <= self.area_upto(n),
        decreases n,
    {
        if n > m {
            self.lemma_area_grows(m, (n - 1) as nat);
            self.lemma_area_nonneg((n - 1) as nat);
            let x = self.area_upto((n - 1) as nat);
            let f = self.side(n - 1);
            assert(x <= x * f) by (nonlinear_arith)
                requires
                    x >= 0,
                    f >= 1,
            ;
        }
    }

    /// Clamped sides that are no longer, side by side, give no larger a product.
    pub proof fn lemma_area_le(self, o: Extent, n: nat)
        requires
            forall|i: int|
                0 <= i < n ==> #[trigger] max_int(self.side(i), 0) <= max_int(o.side(i), 0),
        ensures
            self.area_upto(n) <= o.area_upto(n),
        decreases n,
    {
        if n > 0 {
            self.lemma_area_le(o, (n - 1) as nat);
            self.lemma_area_nonneg((n - 1) as nat);
            let x = self.area_upto((n - 1) as nat);
            let y = o.area_upto((n - 1) as nat);
            let f = max_int(self.side(n - 1), 0);
            let g = max_int(o.side(n - 1), 0);
            assert(x * f <= y * g) by (nonlinear_arith)
                requires
                    0 <= x <= y,
                    0 <= f <= g,
            ;
        }
    }

    /// Partial sums of squared near offsets never decrease.
    pub proof fn lemma_near_sum_grows(self, q: Seq<i64>, m: nat, n: nat)
        requires
            m <= n,
        ensures
            0 <= self.near_sum(q, m) <= self.near_sum(q, n),
        decreases n,
    {
        if n > 0 {
            let d = self.near_off(q, n - 1);
            assert(d * d >= 0) by (nonlinear_arith);
            if n > m {
                self.lemma_near_sum_grows(q, m, (n - 1) as nat);
            } else {
                self.lemma_near_sum_grows(q, (n - 1) as nat, (n - 1) as nat);
            }
        }
    }

    /// The far offset is at least as long as the near one.
    pub proof fn lemma_far_dominates(self, q: Seq<i64>, k: int)
        ensures
            0 <= self.near_off(q, k) * self.near_off(q, k) <= self.far_off(q, k) * self.far_off(
                q,
                k,
            ),
    {
        let a = self.near_off(q, k);
        let b = self.far_off(q, k);
        assert(abs_int(a) <= abs_int(b));
        assert(0 <= a * a <= b * b) by (nonlinear_arith)
            requires
                abs_int(a) <= abs_int(b),
                abs_int(a) == (if a < 0 {
                    -a
                } else {
                    a
                }),
                abs_int(b) == (if b < 0 {
                    -b
                } else {
                    b
                }),
        ;
    }
}

} // verus!
