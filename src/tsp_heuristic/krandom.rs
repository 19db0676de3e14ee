use vstd::prelude::*;

use crate::randomness::{seeded_generator, shuffle};
use crate::tsp::Tsp;
use crate::tsp_heuristic::TspHeuristic;

verus! {

/// A random search asked for zero draws.
#[derive(Debug, PartialEq, Eq, Structural)]
pub struct NoIterations;

/// The shortest of the tours in `drawn`, the earliest one on ties.
pub open spec fn first_shortest(tsp: &Tsp, drawn: Seq<Seq<usize>>) -> Seq<usize>
    decreases drawn.len(),
{
    if drawn.len() <= 1 {
        drawn[0]
    } else {
        let best = first_shortest(tsp, drawn.drop_last());
        if tsp.route_length(drawn.last()) < tsp.route_length(best) {
            drawn.last()
        } else {
            best
        }
    }
}

/// The tours that the vectors of `draws` hold.
pub open spec fn routes_of(draws: Seq<Vec<usize>>) -> Seq<Seq<usize>> {
    draws.map_values(|v: Vec<usize>| v@)
}

/// Drawing more tours never makes the best one longer: over one sequence
/// of draws, the best of the first `k2` is no longer than the best of the
/// first `k1` whenever `k1 <= k2`.
pub proof fn lemma_more_draws_no_longer(tsp: &Tsp, drawn: Seq<Seq<usize>>, k1: int, k2: int)
    requires
        1 <= k1 <= k2 <= drawn.len(),
    ensures
        tsp.route_length(first_shortest(tsp, drawn.take(k2))) <= tsp.route_length(
            first_shortest(tsp, drawn.take(k1)),
        ),
    decreases k2 - k1,
{
    if k1 < k2 {
        lemma_more_draws_no_longer(tsp, drawn, k1, k2 - 1);
        assert(drawn.take(k2).drop_last() =~= drawn.take(k2 - 1));
    }
}

/// The first shortest of the tours in `draws`: a scan that replaces the
/// tour it keeps only by a strictly shorter one.
pub fn keep_first_shortest(tsp: &Tsp, draws: &Vec<Vec<usize>>) -> (best: Vec<usize>)
    requires
        tsp.wf(),
        draws@.len() >= 1,
        forall|t: int| 0 <= t < draws@.len() ==> tsp.is_route(#[trigger] draws@[t]@),
    ensures
        best@ == first_shortest(tsp, routes_of(draws@)),
        tsp.is_route(best@),
{
    let ghost all = routes_of(draws@);
    assert(all.take(1).len() == 1);
    let mut best_index: usize = 0;
    let mut best_len = tsp.get_route_len(draws[0].as_slice()).unwrap();
    let mut t: usize = 1;
    while t < draws.len()
        invariant
            tsp.wf(),
            all == routes_of(draws@),
            forall|q: int| 0 <= q < draws@.len() ==> tsp.is_route(#[trigger] draws@[q]@),
            1 <= t <= draws@.len(),
            best_index < t,
            draws@[best_index as int]@ == first_shortest(tsp, all.take(t as int)),
            best_len == tsp.route_length(draws@[best_index as int]@),
        decreases draws@.len() - t,
    {
        let len = tsp.get_route_len(draws[t].as_slice()).unwrap();
        assert(all.take(t + 1).drop_last() =~= all.take(t as int));
        assert(all.take(t + 1).last() == draws@[t as int]@);
        if len < best_len {
            best_index = t;
            best_len = len;
        }
        t = t + 1;
    }
    assert(all.take(t as int) =~= all);
    let best = draws[best_index].clone();
    assert(best@ =~= draws@[best_index as int]@);
    best
}

/// A rearrangement of a route is a route.
proof fn lemma_rearranged_is_route(tsp: &Tsp, r: Seq<usize>, s: Seq<usize>)
    requires
        tsp.is_route(r),
        s.to_multiset() == r.to_multiset(),
    ensures
        tsp.is_route(s),
{
    broadcast use vstd::seq_lib::group_to_multiset_ensures;

    assert forall|k: int| 0 <= k < s.len() implies #[trigger] s[k] < tsp.dim() by {
        assert(s.contains(s[k]));
        assert(r.to_multiset().count(s[k]) > 0);
        let q = choose|q: int| 0 <= q < r.len() && r[q] == s[k];
        assert(r[q] < tsp.dim());
    }
    vstd::seq_lib::to_multiset_len(s);
    vstd::seq_lib::to_multiset_len(r);
    r.lemma_multiset_has_no_duplicates();
    s.lemma_multiset_has_no_duplicates_conv();
}

/// The vertices in increasing order.
fn identity_route(tsp: &Tsp) -> (route: Vec<usize>)
    requires
        tsp.wf(),
    ensures
        tsp.is_route(route@),
{
    let n = tsp.get_dimension();
    let mut route: Vec<usize> = Vec::new();
    let mut v: usize = 0;
    while v < n
        invariant
            n == tsp.dim(),
            v <= n,
            route@.len() == v,
            forall|k: int| 0 <= k < v ==> #[trigger] route@[k] == k,
        decreases n - v,
    {
        route.push(v);
        v = v + 1;
    }
    route
}

/// Random search: the shortest of `k` uniformly shuffled tours, drawn from a
/// generator seeded with `seed`; the earliest one on ties.
pub struct KRandom {
    k: usize,
    seed: u64,
}

impl KRandom {
    #[verifier::type_invariant]
    spec fn draws_some(&self) -> bool {
        self.k >= 1
    }

    pub closed spec fn k(&self) -> nat {
        self.k as nat
    }

    pub closed spec fn seed(&self) -> u64 {
        self.seed
    }

    /// A random search over `k` draws; `k` must be at least one.
    pub fn new(k: usize, seed: u64) -> (res: Result<KRandom, NoIterations>)
        ensures
            res is Ok <==> k >= 1,
            res matches Ok(h) ==> h.k() == k && h.seed() == seed,
    {
        if k == 0 {
            return Err(NoIterations);
        }
        Ok(KRandom { k, seed })
    }
}

impl KRandom {
    /// The `k` tours that successive shuffles from the seeded generator give,
    /// each shuffle starting from the tour before it.
    fn draw_routes(&self, tsp: &Tsp) -> (draws: Vec<Vec<usize>>)
        requires
            tsp.wf(),
        ensures
            draws@.len() == self.k(),
            forall|t: int| 0 <= t < draws@.len() ==> tsp.is_route(#[trigger] draws@[t]@),
    {
        proof {
            use_type_invariant(self);
        }
        let mut route = identity_route(tsp);
        let mut rng = seeded_generator(self.seed as u128);
        let mut draws: Vec<Vec<usize>> = Vec::new();
        let mut t: usize = 0;
        while t < self.k
            invariant
                tsp.wf(),
                t <= self.k,
                tsp.is_route(route@),
                draws@.len() == t,
                forall|q: int| 0 <= q < draws@.len() ==> tsp.is_route(#[trigger] draws@[q]@),
            decreases self.k - t,
        {
            let ghost before = route@;
            shuffle(&mut route, &mut rng);
            proof {
                lemma_rearranged_is_route(tsp, before, route@);
            }
            let drawn = route.clone();
            assert(drawn@ =~= route@);
            draws.push(drawn);
            t = t + 1;
        }
        draws
    }
}

impl TspHeuristic for KRandom {
    fn get_route(&self, tsp: &Tsp) -> (route: Vec<usize>)
        ensures
            exists|drawn: Seq<Seq<usize>>|
                {
                    &&& drawn.len() == self.k()
                    &&& forall|t: int| 0 <= t < drawn.len() ==> tsp.is_route(#[trigger] drawn[t])
                    &&& route@ == first_shortest(tsp, drawn)
                },
    {
        proof {
            use_type_invariant(self);
        }
        let draws = self.draw_routes(tsp);
        let route = keep_first_shortest(tsp, &draws);
        assert(routes_of(draws@).len() == self.k());
        assert(forall|t: int|
            0 <= t < routes_of(draws@).len() ==> tsp.is_route(#[trigger] routes_of(draws@)[t]));
        route
    }
}

} // verus!
