use vstd::prelude::*;

use crate::tsp::Tsp;

verus! {

/// `r` with the positions `i..=j` read in reverse order.
pub open spec fn inverted(r: Seq<usize>, i: int, j: int) -> Seq<usize> {
    Seq::new(r.len(), |p: int| if i <= p <= j { r[i + j - p] } else { r[p] })
}

/// `r` with the entries at positions `i` and `j` exchanged.
pub open spec fn swapped(r: Seq<usize>, i: int, j: int) -> Seq<usize> {
    r.update(i, r[j]).update(j, r[i])
}

/// Reverses the positions `i..=j` of `route` in place, exchanging the two
/// ends and moving inwards.
pub fn invert_segment(route: &mut [usize], i: usize, j: usize)
    requires
        i <= j < old(route)@.len(),
    ensures
        final(route)@ == inverted(old(route)@, i as int, j as int),
{
    let ghost r0 = route@;
    let mut lo = i;
    let mut hi = j;
    while lo < hi
        invariant
            r0 == old(route)@,
            route@.len() == r0.len(),
            i <= lo,
            hi <= j,
            j < r0.len(),
            lo + hi == i + j,
            lo <= hi + 1,
            forall|p: int|
                (i <= p < lo || hi < p <= j) ==> #[trigger] route@[p] == r0[i + j - p],
            forall|p: int|
                0 <= p < r0.len() && !(i <= p < lo || hi < p <= j) ==> #[trigger] route@[p]
                    == r0[p],
        decreases hi + 1 - lo,
    {
        let t = route[lo];
        route[lo] = route[hi];
        route[hi] = t;
        lo = lo + 1;
        hi = hi - 1;
    }
    assert(route@ =~= inverted(r0, i as int, j as int));
}

/// Reverses the whole of `route` in place.
pub fn invert(route: &mut [usize])
    ensures
        final(route)@ == old(route)@.reverse(),
{
    let n = route.len();
    if n > 0 {
        invert_segment(route, 0, n - 1);
        assert(route@ =~= old(route)@.reverse());
    } else {
        assert(route@ =~= old(route)@.reverse());
    }
}

/// Exchanges the first and the last entry of `route`.
pub fn swap(route: &mut [usize])
    requires
        old(route)@.len() >= 1,
    ensures
        final(route)@ == swapped(old(route)@, 0, old(route)@.len() - 1),
{
    let last = route.len() - 1;
    let t = route[0];
    route[0] = route[last];
    route[last] = t;
}

/// Reversing a segment of a route gives a route.
pub proof fn lemma_inverted_is_route(tsp: &Tsp, r: Seq<usize>, i: int, j: int)
    requires
        tsp.is_route(r),
        0 <= i <= j < r.len(),
    ensures
        tsp.is_route(inverted(r, i, j)),
{
    let s = inverted(r, i, j);
    assert forall|k: int| 0 <= k < s.len() implies #[trigger] s[k] < tsp.dim() by {
        if i <= k <= j {
            assert(r[i + j - k] < tsp.dim());
        } else {
            assert(r[k] < tsp.dim());
        }
    }
    assert forall|p: int, q: int| 0 <= p < s.len() && 0 <= q < s.len() && p != q implies s[p]
        != s[q] by {
        let pp = if i <= p <= j { i + j - p } else { p };
        let qq = if i <= q <= j { i + j - q } else { q };
        assert(s[p] == r[pp] && s[q] == r[qq] && pp != qq);
    }
}

/// Exchanging two entries of a route gives a route.
pub proof fn lemma_swapped_is_route(tsp: &Tsp, r: Seq<usize>, i: int, j: int)
    requires
        tsp.is_route(r),
        0 <= i < r.len(),
        0 <= j < r.len(),
    ensures
        tsp.is_route(swapped(r, i, j)),
{
    let s = swapped(r, i, j);
    assert forall|k: int| 0 <= k < s.len() implies #[trigger] s[k] < tsp.dim() by {
        if k == j {
            assert(r[i] < tsp.dim());
        } else if k == i {
            assert(r[j] < tsp.dim());
        } else {
            assert(r[k] < tsp.dim());
        }
    }
    assert forall|p: int, q: int| 0 <= p < s.len() && 0 <= q < s.len() && p != q implies s[p]
        != s[q] by {
        let pp = if p == j { i } else if p == i { j } else { p };
        let qq = if q == j { i } else if q == i { j } else { q };
        assert(s[p] == r[pp] && s[q] == r[qq] && pp != qq);
    }
}


/// A move that rearranges the positions `i..=j` of a route in place.
pub trait Neighbourhood {
    /// What the move makes of `r`.
    spec fn moved(&self, r: Seq<usize>, i: int, j: int) -> Seq<usize>;

    /// The move keeps a route a route, and making it twice undoes it.
    proof fn lemma_moved_route(&self, tsp: &Tsp, r: Seq<usize>, i: int, j: int)
        requires
            tsp.is_route(r),
            0 <= i <= j < r.len(),
        ensures
            tsp.is_route(self.moved(r, i, j)),
            self.moved(self.moved(r, i, j), i, j) == r,
    ;

    fn apply(&self, route: &mut [usize], i: usize, j: usize)
        requires
            i <= j < old(route)@.len(),
        ensures
            final(route)@ == self.moved(old(route)@, i as int, j as int),
    ;
}

/// Reversal of the positions `i..=j`.
pub struct InvertSegment;

/// Exchange of the entries at positions `i` and `j`.
pub struct SwapEndpoints;

impl Neighbourhood for InvertSegment {
    open spec fn moved(&self, r: Seq<usize>, i: int, j: int) -> Seq<usize> {
        inverted(r, i, j)
    }

    proof fn lemma_moved_route(&self, tsp: &Tsp, r: Seq<usize>, i: int, j: int) {
        lemma_inverted_is_route(tsp, r, i, j);
        assert(inverted(inverted(r, i, j), i, j) =~= r);
    }

    fn apply(&self, route: &mut [usize], i: usize, j: usize) {
        invert_segment(route, i, j);
    }
}

impl Neighbourhood for SwapEndpoints {
    open spec fn moved(&self, r: Seq<usize>, i: int, j: int) -> Seq<usize> {
        swapped(r, i, j)
    }

    proof fn lemma_moved_route(&self, tsp: &Tsp, r: Seq<usize>, i: int, j: int) {
        lemma_swapped_is_route(tsp, r, i, j);
        assert(swapped(swapped(r, i, j), i, j) =~= r);
    }

    fn apply(&self, route: &mut [usize], i: usize, j: usize) {
        let t = route[i];
        route[i] = route[j];
        route[j] = t;
    }
}

} // verus!
