use vstd::prelude::*;

use crate::neighbourhood::{inverted, swapped};
use crate::tsp::{after, before, Tsp, MAX_DIMENSION};

verus! {

impl Tsp {
    /// The edge that leaves position `p` of the closed tour `r`.
    pub open spec fn leg(&self, r: Seq<usize>, p: int) -> int {
        self.hop(r, p, after(r.len() as int, p))
    }

    /// The edges that leave the positions `0..k` of the closed tour `r`.
    pub open spec fn leg_sum(&self, r: Seq<usize>, k: int) -> int
        decreases k,
    {
        if k <= 0 {
            0
        } else {
            self.leg_sum(r, k - 1) + self.leg(r, k - 1)
        }
    }

    /// The edges that leave the positions `a`, `b`, `c` and `d` of `r`, when
    /// below `k`, each position counted once.
    pub open spec fn legs_at(&self, r: Seq<usize>, a: int, b: int, c: int, d: int, k: int) -> int {
        (if 0 <= a < k {
            self.leg(r, a)
        } else {
            0
        }) + (if 0 <= b < k && b != a {
            self.leg(r, b)
        } else {
            0
        }) + (if 0 <= c < k && c != a && c != b {
            self.leg(r, c)
        } else {
            0
        }) + (if 0 <= d < k && d != a && d != b && d != c {
            self.leg(r, d)
        } else {
            0
        })
    }

    /// A path splits at any position in between its ends.
    pub proof fn lemma_split(&self, r: Seq<usize>, lo: int, mid: int, hi: int)
        requires
            lo <= mid <= hi,
        ensures
            self.path_length(r, lo, hi) == self.path_length(r, lo, mid) + self.path_length(
                r,
                mid,
                hi,
            ),
            self.reverse_path_length(r, lo, hi) == self.reverse_path_length(r, lo, mid)
                + self.reverse_path_length(r, mid, hi),
        decreases hi - mid,
    {
        if mid < hi {
            self.lemma_split(r, lo, mid, hi - 1);
        }
    }

    /// A path splits around the edge from position `m` to `m + 1`.
    pub proof fn lemma_split_at(&self, r: Seq<usize>, lo: int, m: int, hi: int)
        requires
            lo <= m < hi,
        ensures
            self.path_length(r, lo, hi) == self.path_length(r, lo, m) + self.hop(r, m, m + 1)
                + self.path_length(r, m + 1, hi),
    {
        self.lemma_split(r, lo, m, hi);
        self.lemma_split(r, m, m + 1, hi);
        assert(self.path_length(r, m, m) == 0);
    }

    /// Paths over positions where two sequences agree have equal lengths.
    pub proof fn lemma_agree(&self, r: Seq<usize>, s: Seq<usize>, lo: int, hi: int)
        requires
            forall|p: int| lo <= p <= hi ==> r[p] == s[p],
        ensures
            self.path_length(r, lo, hi) == self.path_length(s, lo, hi),
        decreases hi - lo,
    {
        if lo < hi {
            self.lemma_agree(r, s, lo, hi - 1);
        }
    }

    /// Walking forward over a mirrored copy of `r` is walking backward over
    /// `r`.
    pub proof fn lemma_mirror(&self, r: Seq<usize>, s: Seq<usize>, lo: int, hi: int, c: int)
        requires
            lo <= hi,
            forall|p: int| lo <= p <= hi ==> s[p] == r[c - p],
        ensures
            self.path_length(s, lo, hi) == self.reverse_path_length(r, c - hi, c - lo),
        decreases hi - lo,
    {
        if lo < hi {
            self.lemma_mirror(r, s, lo, hi - 1, c);
            self.lemma_split(r, c - hi, c - hi + 1, c - lo);
            assert(self.reverse_path_length(r, c - hi, c - hi) == 0);
        }
    }

    /// On a symmetric model a path weighs the same in both directions.
    pub proof fn lemma_symmetric_reverse(&self, r: Seq<usize>, lo: int, hi: int)
        requires
            self.is_symmetric(),
            0 <= lo,
            hi < r.len(),
            forall|k: int| lo <= k <= hi ==> r[k] < self.dim(),
        ensures
            self.reverse_path_length(r, lo, hi) == self.path_length(r, lo, hi),
        decreases hi - lo,
    {
        if lo < hi {
            self.lemma_symmetric_reverse(r, lo, hi - 1);
            let (x, y) = (r[hi] as int, r[hi - 1] as int);
            assert(self.weights()[x][y] == self.weights()[y][x]);
        }
    }

    /// The length of a tour after reversing the positions `i..=j`: the
    /// edges at both ends of the segment are replaced, and the segment is
    /// walked backward. When the segment is the whole tour, the closing edge
    /// turns around instead.
    pub proof fn lemma_inverted_length(&self, r: Seq<usize>, i: int, j: int)
        requires
            self.wf(),
            self.is_route(r),
            0 <= i <= j < r.len(),
        ensures
            ({
                let n = r.len() as int;
                let s = inverted(r, i, j);
                if i == 0 && j == n - 1 {
                    &&& self.route_length(s) == self.route_length(r) - self.hop(r, n - 1, 0)
                        - self.path_length(r, 0, n - 1) + self.reverse_path_length(r, 0, n - 1)
                        + self.hop(r, 0, n - 1)
                    &&& self.hop(r, n - 1, 0) + self.path_length(r, 0, n - 1) <= self.route_length(
                        r,
                    )
                } else {
                    let b = before(n, i);
                    let a = after(n, j);
                    &&& self.route_length(s) == self.route_length(r) - self.hop(r, b, i) - self.hop(
                        r,
                        j,
                        a,
                    ) - self.path_length(r, i, j) + self.hop(r, b, j) + self.hop(r, i, a)
                        + self.reverse_path_length(r, i, j)
                    &&& self.hop(r, b, i) + self.hop(r, j, a) + self.path_length(r, i, j)
                        <= self.route_length(r)
                }
            }),
    {
        let n = r.len() as int;
        let s = inverted(r, i, j);
        self.lemma_mirror(r, s, i, j, i + j);
        if i == 0 && j == n - 1 {
        } else if i > 0 && j < n - 1 {
            self.lemma_split_at(r, 0, i - 1, n - 1);
            self.lemma_split_at(r, i, j, n - 1);
            self.lemma_split_at(s, 0, i - 1, n - 1);
            self.lemma_split_at(s, i, j, n - 1);
            self.lemma_agree(r, s, 0, i - 1);
            self.lemma_agree(r, s, j + 1, n - 1);
            self.lemma_path_length_bound(r, 0, i - 1);
            self.lemma_path_length_bound(r, j + 1, n - 1);
        } else if i > 0 {
            self.lemma_split_at(r, 0, i - 1, n - 1);
            self.lemma_split_at(s, 0, i - 1, n - 1);
            self.lemma_agree(r, s, 0, i - 1);
            self.lemma_path_length_bound(r, 0, i - 1);
        } else {
            self.lemma_split_at(r, 0, j, n - 1);
            self.lemma_split_at(s, 0, j, n - 1);
            self.lemma_agree(r, s, j + 1, n - 1);
            self.lemma_path_length_bound(r, j + 1, n - 1);
        }
    }

    /// Summing the edge that leaves each position gives the tour length.
    pub proof fn lemma_leg_sum_is_length(&self, r: Seq<usize>)
        requires
            r.len() >= 1,
        ensures
            self.leg_sum(r, r.len() as int) == self.route_length(r),
    {
        self.lemma_leg_sum_is_path(r, r.len() - 1);
    }

    proof fn lemma_leg_sum_is_path(&self, r: Seq<usize>, k: int)
        requires
            0 <= k < r.len(),
        ensures
            self.leg_sum(r, k) == self.path_length(r, 0, k),
        decreases k,
    {
        if k > 0 {
            self.lemma_leg_sum_is_path(r, k - 1);
        }
    }

    /// Two tours whose edges agree outside the positions `a`, `b`, `c`, `d`
    /// differ in length by what leaves those positions; and what leaves
    /// them is part of the length.
    pub proof fn lemma_legs_except(
        &self,
        r: Seq<usize>,
        s: Seq<usize>,
        a: int,
        b: int,
        c: int,
        d: int,
        k: int,
    )
        requires
            r.len() == s.len(),
            0 <= k <= r.len(),
            forall|p: int|
                0 <= p < k && p != a && p != b && p != c && p != d ==> #[trigger] self.leg(r, p)
                    == self.leg(s, p),
        ensures
            self.leg_sum(s, k) - self.legs_at(s, a, b, c, d, k) == self.leg_sum(r, k)
                - self.legs_at(r, a, b, c, d, k),
            self.legs_at(r, a, b, c, d, k) <= self.leg_sum(r, k),
        decreases k,
    {
        if k > 0 {
            self.lemma_legs_except(r, s, a, b, c, d, k - 1);
        }
    }

    /// The length of a tour after exchanging the entries at positions `i`
    /// and `j`: only the edges that leave `before(i)`, `i`, `j - 1` and `j`
    /// change.
    pub proof fn lemma_swapped_length(&self, r: Seq<usize>, i: int, j: int)
        requires
            self.is_route(r),
            0 <= i < j < r.len(),
        ensures
            ({
                let n = r.len() as int;
                let s = swapped(r, i, j);
                let b = before(n, i);
                &&& self.route_length(s) == self.route_length(r) - self.legs_at(r, b, i, j - 1, j, n)
                    + self.legs_at(s, b, i, j - 1, j, n)
                &&& self.legs_at(r, b, i, j - 1, j, n) <= self.route_length(r)
            }),
    {
        let n = r.len() as int;
        let s = swapped(r, i, j);
        let b = before(n, i);
        assert forall|p: int|
            0 <= p < n && p != b && p != i && p != j - 1 && p != j implies #[trigger] self.leg(r, p)
            == self.leg(s, p) by {
            let q = after(n, p);
            assert(q != i && q != j);
            assert(s[p] == r[p] && s[q] == r[q]);
        }
        self.lemma_legs_except(r, s, b, i, j - 1, j, n);
        self.lemma_leg_sum_is_length(r);
        self.lemma_leg_sum_is_length(s);
    }
    /// A path of `hi - lo` edges weighs between zero and `hi - lo` times the
    /// largest `u32`.
    pub proof fn lemma_path_length_bound(&self, r: Seq<usize>, lo: int, hi: int)
        requires
            lo <= hi,
        ensures
            0 <= self.path_length(r, lo, hi) <= (hi - lo) * 0xFFFF_FFFF,
            0 <= self.reverse_path_length(r, lo, hi) <= (hi - lo) * 0xFFFF_FFFF,
        decreases hi - lo,
    {
        if lo < hi {
            self.lemma_path_length_bound(r, lo, hi - 1);
            assert((hi - lo) * 0xFFFF_FFFF == (hi - 1 - lo) * 0xFFFF_FFFF + 0xFFFF_FFFF)
                by (nonlinear_arith);
        }
    }

    /// A closed tour through `r.len()` vertices weighs at most `r.len()`
    /// times the largest `u32`.
    pub proof fn lemma_route_length_bound(&self, r: Seq<usize>)
        requires
            r.len() >= 1,
        ensures
            0 <= self.route_length(r) <= r.len() * 0xFFFF_FFFF,
    {
        self.lemma_path_length_bound(r, 0, r.len() - 1);
        assert(r.len() * 0xFFFF_FFFF == (r.len() - 1) * 0xFFFF_FFFF + 0xFFFF_FFFF)
            by (nonlinear_arith);
    }

    /// Two edges more than a tour of a model still fit in a `u64`.
    pub proof fn lemma_tour_bound_fits(&self, n: int)
        requires
            0 <= n <= MAX_DIMENSION,
        ensures
            (n + 2) * 0xFFFF_FFFF <= u64::MAX,
    {
        assert((n + 2) * 0xFFFF_FFFF <= (MAX_DIMENSION + 2) * 0xFFFF_FFFF) by (nonlinear_arith)
            requires
                n <= MAX_DIMENSION,
        ;
    }
}

} // verus!
