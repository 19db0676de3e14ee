use vstd::prelude::*;

use crate::neighbourhood::{
    invert_segment, inverted, lemma_inverted_is_route, InvertSegment, Neighbourhood,
};
use crate::tsp::Tsp;
use crate::tsp_heuristic::TspHeuristic;

verus! {

/// The length of `r` after reversing its positions `i..=j`.
pub open spec fn inverted_length(tsp: &Tsp, r: Seq<usize>, i: int, j: int) -> int {
    tsp.route_length(inverted(r, i, j))
}

/// No reversal of a segment makes `r` shorter.
pub open spec fn is_two_opt_optimum(tsp: &Tsp, r: Seq<usize>) -> bool {
    forall|i: int, j: int|
        0 <= i <= j < r.len() ==> #[trigger] inverted_length(tsp, r, i, j) >= tsp.route_length(r)
}

/// The pair `(p, q)` comes before the pair `(i, j)` in a scan that runs over
/// `i`, then over `j`.
pub open spec fn scanned_before(p: int, q: int, i: int, j: int) -> bool {
    p < i || (p == i && q < j)
}

/// The candidate a scan keeps after looking at the pair `(p, q)`: the pair
/// replaces what was kept only when its move gives a tour strictly shorter
/// than `r` and than the move kept so far.
pub open spec fn keep_better<N: Neighbourhood>(
    tsp: &Tsp,
    nb: &N,
    r: Seq<usize>,
    kept: Option<(int, int)>,
    p: int,
    q: int,
) -> Option<(int, int)> {
    let c = moved_length(tsp, nb, r, p, q);
    match kept {
        None => if c < tsp.route_length(r) {
            Some((p, q))
        } else {
            None
        },
        Some((bi, bj)) => if c < moved_length(tsp, nb, r, bi, bj) {
            Some((p, q))
        } else {
            kept
        },
    }
}

/// What a scan over the pairs `p <= q` of positions of `r`, in the order of
/// `p` then `q`, has kept when it reaches the pair `(i, j)`.
pub open spec fn scan_best<N: Neighbourhood>(
    tsp: &Tsp,
    nb: &N,
    r: Seq<usize>,
    i: int,
    j: int,
) -> Option<(int, int)>
    decreases i, j,
{
    if i < 0 || j < i {
        None
    } else if j > i {
        keep_better(tsp, nb, r, scan_best(tsp, nb, r, i, j - 1), i, j - 1)
    } else if i == 0 {
        None
    } else {
        scan_best(tsp, nb, r, i - 1, r.len() as int)
    }
}

/// The move one round makes on `r`: the first pair whose move gives the
/// shortest tour, provided that tour is shorter than `r`.
pub open spec fn best_move<N: Neighbourhood>(tsp: &Tsp, nb: &N, r: Seq<usize>) -> Option<
    (int, int),
> {
    scan_best(tsp, nb, r, r.len() as int, r.len() as int)
}

/// The rounds of the local search from `r`: while some move makes the tour
/// shorter, make the best one. Each round strictly shortens the tour.
pub open spec fn descent<N: Neighbourhood>(tsp: &Tsp, nb: &N, r: Seq<usize>) -> Seq<usize>
    decreases tsp.route_length(r),
{
    match best_move(tsp, nb, r) {
        Some((i, j)) => if 0 <= tsp.route_length(nb.moved(r, i, j)) < tsp.route_length(r) {
            descent(tsp, nb, nb.moved(r, i, j))
        } else {
            r
        },
        None => r,
    }
}

/// The 2-opt search from `r`: rounds of the best segment reversal. The
/// search that recounts each candidate and the one that computes its
/// length from the changed edges both end here.
pub open spec fn two_opt_descent(tsp: &Tsp, r: Seq<usize>) -> Seq<usize> {
    descent(tsp, &InvertSegment, r)
}

/// `res` names the pair that `m` names, or both name none.
pub open spec fn same_move(res: Option<(usize, usize, u64)>, m: Option<(int, int)>) -> bool {
    match (res, m) {
        (None, None) => true,
        (Some((i, j, _)), Some((p, q))) => i == p && j == q,
        _ => false,
    }
}

/// What a scan has kept on reaching `(i, j)`: a pair scanned before, whose
/// move is shorter than `r` and no longer than that of any pair scanned
/// before; or none, when no such move is shorter than `r`.
pub proof fn lemma_scan_best<N: Neighbourhood>(tsp: &Tsp, nb: &N, r: Seq<usize>, i: int, j: int)
    requires
        0 <= i <= j <= r.len(),
    ensures
        match scan_best(tsp, nb, r, i, j) {
            None => forall|p: int, q: int|
                0 <= p <= q < r.len() && scanned_before(p, q, i, j) ==> #[trigger] moved_length(
                    tsp,
                    nb,
                    r,
                    p,
                    q,
                ) >= tsp.route_length(r),
            Some((bi, bj)) => {
                &&& 0 <= bi <= bj < r.len()
                &&& scanned_before(bi, bj, i, j)
                &&& moved_length(tsp, nb, r, bi, bj) < tsp.route_length(r)
                &&& forall|p: int, q: int|
                    0 <= p <= q < r.len() && scanned_before(p, q, i, j) ==> #[trigger] moved_length(
                        tsp,
                        nb,
                        r,
                        p,
                        q,
                    ) >= moved_length(tsp, nb, r, bi, bj)
            },
        },
    decreases i, j,
{
    if j > i {
        lemma_scan_best(tsp, nb, r, i, j - 1);
    } else if i > 0 {
        lemma_scan_best(tsp, nb, r, i - 1, r.len() as int);
    }
}

/// The local search from a route ends at a route no longer than it, where
/// no move makes the tour shorter; it is the route itself when no move
/// does, and strictly shorter otherwise.
pub proof fn lemma_descent<N: Neighbourhood>(tsp: &Tsp, nb: &N, r: Seq<usize>)
    requires
        tsp.wf(),
        tsp.is_route(r),
    ensures
        tsp.is_route(descent(tsp, nb, r)),
        tsp.route_length(descent(tsp, nb, r)) <= tsp.route_length(r),
        forall|i: int, j: int|
            0 <= i <= j < r.len() ==> #[trigger] moved_length(tsp, nb, descent(tsp, nb, r), i, j)
                >= tsp.route_length(descent(tsp, nb, r)),
        descent(tsp, nb, r) == r || tsp.route_length(descent(tsp, nb, r)) < tsp.route_length(r),
        (forall|i: int, j: int|
            0 <= i <= j < r.len() ==> #[trigger] moved_length(tsp, nb, r, i, j) >= tsp.route_length(
                r,
            )) ==> descent(tsp, nb, r) == r,
    decreases tsp.route_length(r),
{
    lemma_scan_best(tsp, nb, r, r.len() as int, r.len() as int);
    match best_move(tsp, nb, r) {
        Some((i, j)) => {
            nb.lemma_moved_route(tsp, r, i, j);
            tsp.lemma_route_length_bound(nb.moved(r, i, j));
            lemma_descent(tsp, nb, nb.moved(r, i, j));
        },
        None => {},
    }
}

/// The 2-opt search leaves a route where no reversal makes it shorter as
/// it is.
pub proof fn lemma_optimum_is_kept(tsp: &Tsp, r: Seq<usize>)
    requires
        tsp.wf(),
        tsp.is_route(r),
        is_two_opt_optimum(tsp, r),
    ensures
        two_opt_descent(tsp, r) == r,
{
    assert forall|i: int, j: int| 0 <= i <= j < r.len() implies #[trigger] moved_length(
        tsp,
        &InvertSegment,
        r,
        i,
        j,
    ) >= tsp.route_length(r) by {
        assert(inverted_length(tsp, r, i, j) >= tsp.route_length(r));
    }
    lemma_descent(tsp, &InvertSegment, r);
}

/// The 2-opt local search, started from the tour that `initial_heuristic`
/// produces.
pub struct TwoOpt<H: TspHeuristic> {
    initial_heuristic: H,
}

impl<H: TspHeuristic> TwoOpt<H> {
    pub fn new(initial_heuristic: H) -> Self {
        TwoOpt { initial_heuristic }
    }
}

/// One round of the 2-opt search on `route`, whose length is `route_len`:
/// over every pair `i <= j`, the reversal of `i..=j` that gives the shortest
/// tour, the first such pair on ties, provided that it is shorter than
/// `route_len`; `None` where no reversal is.
pub fn best_invert_move(tsp: &Tsp, route: &[usize], route_len: u64) -> (res: Option<
    (usize, usize, u64),
>)
    requires
        tsp.wf(),
        tsp.is_route(route@),
        route_len == tsp.route_length(route@),
    ensures
        match res {
            None => is_two_opt_optimum(tsp, route@),
            Some((i, j, len)) => {
                &&& i <= j < tsp.dim()
                &&& len == inverted_length(tsp, route@, i as int, j as int)
                &&& len < route_len
                &&& forall|p: int, q: int|
                    0 <= p <= q < tsp.dim() ==> #[trigger] inverted_length(tsp, route@, p, q) >= len
                &&& forall|p: int, q: int|
                    0 <= p <= q < tsp.dim() && scanned_before(p, q, i as int, j as int)
                        ==> #[trigger] inverted_length(tsp, route@, p, q) > len
            },
        },
        same_move(res, best_move(tsp, &InvertSegment, route@)),
{
    let dimension = tsp.get_dimension();
    let ghost r = route@;
    let mut best: Option<(usize, usize, u64)> = None;
    let mut i: usize = 0;
    while i < dimension
        invariant
            tsp.wf(),
            tsp.is_route(r),
            r == route@,
            route_len == tsp.route_length(r),
            dimension == tsp.dim(),
            i <= dimension,
            same_move(best, scan_best(tsp, &InvertSegment, r, i as int, i as int)),
            best is None ==> forall|p: int, q: int|
                0 <= p <= q < dimension && p < i ==> #[trigger] inverted_length(tsp, r, p, q)
                    >= route_len,
            best matches Some((bi, bj, bl)) ==> {
                &&& bi <= bj < dimension
                &&& bi < i
                &&& bl == inverted_length(tsp, r, bi as int, bj as int)
                &&& bl < route_len
                &&& forall|p: int, q: int|
                    0 <= p <= q < dimension && p < i ==> #[trigger] inverted_length(tsp, r, p, q)
                        >= bl
                &&& forall|p: int, q: int|
                    0 <= p <= q < dimension && scanned_before(p, q, bi as int, bj as int)
                        ==> #[trigger] inverted_length(tsp, r, p, q) > bl
            },
        decreases dimension - i,
    {
        let mut j: usize = i;
        while j < dimension
            invariant
                tsp.wf(),
                tsp.is_route(r),
                r == route@,
                route_len == tsp.route_length(r),
                dimension == tsp.dim(),
                i < dimension,
                i <= j <= dimension,
                same_move(best, scan_best(tsp, &InvertSegment, r, i as int, j as int)),
                best is None ==> forall|p: int, q: int|
                    0 <= p <= q < dimension && scanned_before(p, q, i as int, j as int)
                        ==> #[trigger] inverted_length(tsp, r, p, q) >= route_len,
                best matches Some((bi, bj, bl)) ==> {
                    &&& bi <= bj < dimension
                    &&& scanned_before(bi as int, bj as int, i as int, j as int)
                    &&& bl == inverted_length(tsp, r, bi as int, bj as int)
                    &&& bl < route_len
                    &&& forall|p: int, q: int|
                        0 <= p <= q < dimension && scanned_before(p, q, i as int, j as int)
                            ==> #[trigger] inverted_length(tsp, r, p, q) >= bl
                    &&& forall|p: int, q: int|
                        0 <= p <= q < dimension && scanned_before(p, q, bi as int, bj as int)
                            ==> #[trigger] inverted_length(tsp, r, p, q) > bl
                },
            decreases dimension - j,
        {
            let candidate = tsp.get_inverted_route_len(route, route_len, i, j);
            let improves = match best {
                None => candidate < route_len,
                Some((_, _, best_len)) => candidate < best_len,
            };
            if improves {
                best = Some((i, j, candidate));
            }
            assert(scan_best(tsp, &InvertSegment, r, i as int, j + 1) == keep_better(
                tsp,
                &InvertSegment,
                r,
                scan_best(tsp, &InvertSegment, r, i as int, j as int),
                i as int,
                j as int,
            ));
            j = j + 1;
        }
        assert(scan_best(tsp, &InvertSegment, r, i + 1, i + 1) == scan_best(
            tsp,
            &InvertSegment,
            r,
            i as int,
            dimension as int,
        ));
        i = i + 1;
    }
    best
}

/// Runs 2-opt rounds on `route` until no reversal of a segment makes it
/// shorter. Each round commits the best reversal, which strictly shortens
/// the tour, so the search ends.
pub fn best_neighbourhood_invert(tsp: &Tsp, route: Vec<usize>) -> (res: Vec<usize>)
    requires
        tsp.wf(),
        tsp.is_route(route@),
    ensures
        tsp.is_route(res@),
        tsp.route_length(res@) <= tsp.route_length(route@),
        is_two_opt_optimum(tsp, res@),
        res@ == two_opt_descent(tsp, route@),
{
    let ghost start = route@;
    let mut best_route = route;
    let mut best_route_len = tsp.get_route_len(best_route.as_slice()).unwrap();
    let mut done = false;
    while !done
        invariant
            tsp.wf(),
            tsp.is_route(best_route@),
            best_route_len == tsp.route_length(best_route@),
            best_route_len <= tsp.route_length(start),
            done ==> is_two_opt_optimum(tsp, best_route@),
            two_opt_descent(tsp, best_route@) == two_opt_descent(tsp, start),
            done ==> best_move(tsp, &InvertSegment, best_route@) is None,
        decreases (if done {
            0
        } else {
            best_route_len + 1
        }),
    {
        match best_invert_move(tsp, best_route.as_slice(), best_route_len) {
            None => {
                done = true;
            },
            Some((i, j, len)) => {
                proof {
                    lemma_inverted_is_route(tsp, best_route@, i as int, j as int);
                    assert(two_opt_descent(tsp, best_route@) == two_opt_descent(
                        tsp,
                        inverted(best_route@, i as int, j as int),
                    ));
                }
                invert_segment(best_route.as_mut_slice(), i, j);
                best_route_len = len;
            },
        }
    }
    best_route
}

/// The length of `r` after the move `neighbourhood` on the positions `i..=j`.
pub open spec fn moved_length<N: Neighbourhood>(
    tsp: &Tsp,
    neighbourhood: &N,
    r: Seq<usize>,
    i: int,
    j: int,
) -> int {
    tsp.route_length(neighbourhood.moved(r, i, j))
}

/// The local search of [`best_neighbourhood_invert`] for any move: each
/// candidate is made in place, measured by a full recount of the tour, and
/// undone. Rounds run until no move on any pair `i <= j` makes the tour
/// shorter.
pub fn best_neighbourhood_generic<N: Neighbourhood>(
    tsp: &Tsp,
    route: Vec<usize>,
    neighbourhood: &N,
) -> (res: Vec<usize>)
    requires
        tsp.wf(),
        tsp.is_route(route@),
    ensures
        tsp.is_route(res@),
        tsp.route_length(res@) <= tsp.route_length(route@),
        forall|i: int, j: int|
            0 <= i <= j < tsp.dim() ==> #[trigger] moved_length(tsp, neighbourhood, res@, i, j)
                >= tsp.route_length(res@),
        res@ == descent(tsp, neighbourhood, route@),
{
    let ghost start = route@;
    let dimension = tsp.get_dimension();
    let mut best_route = route;
    let mut best_route_len = tsp.get_route_len(best_route.as_slice()).unwrap();
    let mut done = false;
    while !done
        invariant
            tsp.wf(),
            dimension == tsp.dim(),
            tsp.is_route(best_route@),
            best_route_len == tsp.route_length(best_route@),
            best_route_len <= tsp.route_length(start),
            descent(tsp, neighbourhood, best_route@) == descent(tsp, neighbourhood, start),
            done ==> best_move(tsp, neighbourhood, best_route@) is None,
            done ==> forall|i: int, j: int|
                0 <= i <= j < dimension ==> #[trigger] moved_length(
                    tsp,
                    neighbourhood,
                    best_route@,
                    i,
                    j,
                ) >= best_route_len,
        decreases (if done {
            0
        } else {
            best_route_len + 1
        }),
    {
        let ghost r = best_route@;
        let mut best: Option<(usize, usize, u64)> = None;
        let mut i: usize = 0;
        while i < dimension
            invariant
                tsp.wf(),
                dimension == tsp.dim(),
                tsp.is_route(r),
                best_route@ == r,
                best_route_len == tsp.route_length(r),
                i <= dimension,
                same_move(best, scan_best(tsp, neighbourhood, r, i as int, i as int)),
                best is None ==> forall|p: int, q: int|
                    0 <= p <= q < dimension && p < i ==> #[trigger] moved_length(
                        tsp,
                        neighbourhood,
                        r,
                        p,
                        q,
                    ) >= best_route_len,
                best matches Some((bi, bj, bl)) ==> {
                    &&& bi <= bj < dimension
                    &&& bl == moved_length(tsp, neighbourhood, r, bi as int, bj as int)
                    &&& bl < best_route_len
                    &&& forall|p: int, q: int|
                        0 <= p <= q < dimension && p < i ==> #[trigger] moved_length(
                            tsp,
                            neighbourhood,
                            r,
                            p,
                            q,
                        ) >= bl
                },
            decreases dimension - i,
        {
            let mut j: usize = i;
            while j < dimension
                invariant
                    tsp.wf(),
                    dimension == tsp.dim(),
                    tsp.is_route(r),
                    best_route@ == r,
                    best_route_len == tsp.route_length(r),
                    i < dimension,
                    i <= j <= dimension,
                    same_move(best, scan_best(tsp, neighbourhood, r, i as int, j as int)),
                    best is None ==> forall|p: int, q: int|
                        0 <= p <= q < dimension && scanned_before(p, q, i as int, j as int)
                            ==> #[trigger] moved_length(tsp, neighbourhood, r, p, q)
                            >= best_route_len,
                    best matches Some((bi, bj, bl)) ==> {
                        &&& bi <= bj < dimension
                        &&& bl == moved_length(tsp, neighbourhood, r, bi as int, bj as int)
                        &&& bl < best_route_len
                        &&& forall|p: int, q: int|
                            0 <= p <= q < dimension && scanned_before(p, q, i as int, j as int)
                                ==> #[trigger] moved_length(tsp, neighbourhood, r, p, q) >= bl
                    },
                decreases dimension - j,
            {
                proof {
                    neighbourhood.lemma_moved_route(tsp, r, i as int, j as int);
                }
                neighbourhood.apply(best_route.as_mut_slice(), i, j);
                let route_len = tsp.get_route_len(best_route.as_slice()).unwrap();
                neighbourhood.apply(best_route.as_mut_slice(), i, j);
                let improves = match best {
                    None => route_len < best_route_len,
                    Some((_, _, curr_best_len)) => route_len < curr_best_len,
                };
                if improves {
                    best = Some((i, j, route_len));
                }
                assert(scan_best(tsp, neighbourhood, r, i as int, j + 1) == keep_better(
                    tsp,
                    neighbourhood,
                    r,
                    scan_best(tsp, neighbourhood, r, i as int, j as int),
                    i as int,
                    j as int,
                ));
                j = j + 1;
            }
            assert(scan_best(tsp, neighbourhood, r, i + 1, i + 1) == scan_best(
                tsp,
                neighbourhood,
                r,
                i as int,
                dimension as int,
            ));
            i = i + 1;
        }
        match best {
            None => {
                done = true;
            },
            Some((i, j, route_len)) => {
                proof {
                    neighbourhood.lemma_moved_route(tsp, r, i as int, j as int);
                    assert(descent(tsp, neighbourhood, r) == descent(
                        tsp,
                        neighbourhood,
                        neighbourhood.moved(r, i as int, j as int),
                    ));
                }
                neighbourhood.apply(best_route.as_mut_slice(), i, j);
                best_route_len = route_len;
            },
        }
    }
    best_route
}

impl<H: TspHeuristic> TspHeuristic for TwoOpt<H> {
    fn get_route(&self, tsp: &Tsp) -> (route: Vec<usize>)
        ensures
            is_two_opt_optimum(tsp, route@),
            exists|seed: Seq<usize>|
                {
                    &&& tsp.is_route(seed)
                    &&& route@ == two_opt_descent(tsp, seed)
                    &&& tsp.route_length(route@) <= tsp.route_length(seed)
                },
    {
        let initial_route = self.initial_heuristic.get_route(tsp);
        let ghost seed = initial_route@;
        let route = best_neighbourhood_invert(tsp, initial_route);
        assert(tsp.is_route(seed) && route@ == two_opt_descent(tsp, seed));
        route
    }
}

} // verus!
