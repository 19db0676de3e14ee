use vstd::prelude::*;
use vstd::seq_lib::lemma_seq_contains_after_push;
use vstd::set_lib::*;

use crate::randomness::{random_below, seeded_generator};
use crate::tsp::Tsp;
use crate::tsp_heuristic::TspHeuristic;

verus! {

/// Scanning the vertices `0..k` from left to right, the first one not on
/// `visited` whose edge from `from` is lighter than that of every earlier
/// candidate.
pub open spec fn nearest_unvisited(tsp: &Tsp, from: int, visited: Seq<usize>, k: int) -> Option<
    usize,
>
    decreases k,
{
    if k <= 0 {
        None
    } else {
        let best = nearest_unvisited(tsp, from, visited, k - 1);
        if visited.contains((k - 1) as usize) {
            best
        } else {
            match best {
                None => Some((k - 1) as usize),
                Some(b) => if tsp.weight(from, k - 1) < tsp.weight(from, b as int) {
                    Some((k - 1) as usize)
                } else {
                    best
                },
            }
        }
    }
}

/// The first `m` vertices of the greedy tour from `start`: each next vertex
/// is the nearest one not yet on the tour.
pub open spec fn nearest_neighbour_tour(tsp: &Tsp, start: usize, m: nat) -> Seq<usize>
    decreases m,
{
    if m <= 1 {
        seq![start]
    } else {
        let p = nearest_neighbour_tour(tsp, start, (m - 1) as nat);
        match nearest_unvisited(tsp, p.last() as int, p, tsp.dim() as int) {
            Some(v) => p.push(v),
            None => p,
        }
    }
}

/// The first start vertex below `k` whose greedy tour is the shortest.
pub open spec fn shortest_start(tsp: &Tsp, k: int) -> usize
    decreases k,
{
    if k <= 1 {
        0
    } else {
        let b = shortest_start(tsp, k - 1);
        if tsp.route_length(nearest_neighbour_tour(tsp, (k - 1) as usize, tsp.dim()))
            < tsp.route_length(nearest_neighbour_tour(tsp, b, tsp.dim())) {
            (k - 1) as usize
        } else {
            b
        }
    }
}

/// The scan picks a vertex below `k` that is not visited, the lightest such
/// one from `from`, and finds one whenever there is one.
pub proof fn lemma_nearest_unvisited(tsp: &Tsp, from: int, visited: Seq<usize>, k: int)
    requires
        k <= usize::MAX + 1,
    ensures
        nearest_unvisited(tsp, from, visited, k) matches Some(v) ==> {
            &&& 0 <= v < k
            &&& !visited.contains(v)
            &&& forall|u: int|
                0 <= u < k && !visited.contains(u as usize) ==> tsp.weight(from, v as int)
                    <= #[trigger] tsp.weight(from, u)
        },
        nearest_unvisited(tsp, from, visited, k) is None ==> forall|u: int|
            0 <= u < k ==> #[trigger] visited.contains(u as usize),
    decreases k,
{
    if k > 0 {
        lemma_nearest_unvisited(tsp, from, visited, k - 1);
        let best = nearest_unvisited(tsp, from, visited, k - 1);
        let last = k - 1;
        if !visited.contains(last as usize) {
            match best {
                None => {
                    assert forall|u: int| 0 <= u < k && !visited.contains(u as usize) implies tsp.weight(
                        from,
                        last,
                    ) <= #[trigger] tsp.weight(from, u) by {
                        if u < last {
                            assert(visited.contains(u as usize));
                        }
                    }
                },
                Some(b) => {
                    assert forall|u: int| 0 <= u < k && !visited.contains(u as usize) implies tsp.weight(
                        from,
                        nearest_unvisited(tsp, from, visited, k).unwrap() as int,
                    ) <= #[trigger] tsp.weight(from, u) by {
                        if u < last {
                            assert(tsp.weight(from, b as int) <= tsp.weight(from, u));
                        }
                    }
                },
            }
        }
    }
}

/// A sequence of fewer than `n` distinct vertices below `n` misses one.
proof fn lemma_some_vertex_missing(n: nat, r: Seq<usize>)
    requires
        r.len() < n <= usize::MAX,
        forall|k: int| 0 <= k < r.len() ==> #[trigger] r[k] < n,
        r.no_duplicates(),
    ensures
        exists|u: usize| u < n && !r.contains(u),
{
    if forall|u: usize| u < n ==> r.contains(u) {
        let ri = r.map_values(|x: usize| x as int);
        assert(ri.no_duplicates()) by {
            assert forall|p: int, q: int| 0 <= p < ri.len() && 0 <= q < ri.len() && p != q implies ri[p]
                != ri[q] by {
                assert(r[p] != r[q]);
            }
        }
        ri.unique_seq_to_set();
        lemma_int_range(0, n as int);
        assert forall|x: int| set_int_range(0, n as int).contains(x) implies ri.to_set().contains(x) by {
            assert(r.contains(x as usize));
            let k = choose|k: int| 0 <= k < r.len() && r[k] == x as usize;
            assert(ri[k] == x);
        }
        lemma_len_subset(set_int_range(0, n as int), ri.to_set());
    }
}

/// The greedy tour from `starting_vertex`: from the current vertex, move to
/// the nearest vertex not yet visited, ties going to the lowest index.
pub fn nearest_neighbour_inner(tsp: &Tsp, starting_vertex: usize) -> (route: Vec<usize>)
    requires
        tsp.wf(),
        starting_vertex < tsp.dim(),
    ensures
        route@ == nearest_neighbour_tour(tsp, starting_vertex, tsp.dim()),
        tsp.is_route(route@),
{
    let dimension = tsp.get_dimension();
    let mut route: Vec<usize> = Vec::new();
    route.push(starting_vertex);
    let mut visited: Vec<bool> = Vec::new();
    let mut u: usize = 0;
    while u < dimension
        invariant
            u <= dimension,
            visited@.len() == u,
            forall|v: int| 0 <= v < u ==> visited@[v] == (v == starting_vertex),
        decreases dimension - u,
    {
        visited.push(u == starting_vertex);
        u = u + 1;
    }
    assert(forall|v: int| 0 <= v < dimension ==> visited@[v] == route@.contains(v as usize)) by {
        assert forall|v: int| 0 <= v < dimension implies visited@[v] == route@.contains(
            v as usize,
        ) by {
            if route@.contains(v as usize) {
                assert(route@[0] == v);
            }
            if v == starting_vertex {
                assert(route@[0] == v);
            }
        }
    }
    let mut curr_vertex = starting_vertex;
    let mut i: usize = 1;
    while i < dimension
        invariant
            tsp.wf(),
            dimension == tsp.dim(),
            1 <= i <= dimension,
            route@ == nearest_neighbour_tour(tsp, starting_vertex, i as nat),
            route@.len() == i,
            curr_vertex == route@.last(),
            visited@.len() == dimension,
            forall|v: int| 0 <= v < dimension ==> visited@[v] == route@.contains(v as usize),
            forall|k: int| 0 <= k < i ==> #[trigger] route@[k] < dimension,
            route@.no_duplicates(),
        decreases dimension - i,
    {
        let mut next: Option<usize> = None;
        let mut min_len: u32 = 0;
        let mut v: usize = 0;
        while v < dimension
            invariant
                tsp.wf(),
                dimension == tsp.dim(),
                v <= dimension,
                curr_vertex < dimension,
                visited@.len() == dimension,
                forall|x: int| 0 <= x < dimension ==> visited@[x] == route@.contains(x as usize),
                next == nearest_unvisited(tsp, curr_vertex as int, route@, v as int),
                next matches Some(b) ==> b < v && min_len == tsp.weight(
                    curr_vertex as int,
                    b as int,
                ),
            decreases dimension - v,
        {
            if !visited[v] {
                let w = tsp.edge(curr_vertex, v);
                match next {
                    None => {
                        next = Some(v);
                        min_len = w;
                    },
                    Some(_) => {
                        if w < min_len {
                            next = Some(v);
                            min_len = w;
                        }
                    },
                }
            }
            v = v + 1;
        }
        proof {
            lemma_some_vertex_missing(dimension as nat, route@);
            lemma_nearest_unvisited(tsp, curr_vertex as int, route@, dimension as int);
            let missing = choose|u: usize| u < dimension && !route@.contains(u);
            assert(!route@.contains((missing as int) as usize));
        }
        let next_vertex = next.unwrap();
        let ghost old_route = route@;
        let ghost visited_before = visited@;
        visited.set(next_vertex, true);
        route.push(next_vertex);
        proof {
            assert forall|x: int| 0 <= x < dimension implies visited@[x] == route@.contains(
                x as usize,
            ) by {
                lemma_seq_contains_after_push(old_route, next_vertex, x as usize);
                assert(old_route.contains(x as usize) == visited_before[x]);
            }
        }
        curr_vertex = next_vertex;
        i = i + 1;
    }
    route
}

/// The greedy tour from a start vertex drawn from a generator seeded with
/// `seed`.
pub struct NearestNeighbour {
    seed: u64,
}

impl NearestNeighbour {
    pub fn new(seed: u64) -> (h: NearestNeighbour)
        ensures
            h.seed() == seed,
    {
        NearestNeighbour { seed }
    }

    pub closed spec fn seed(&self) -> u64 {
        self.seed
    }
}

impl TspHeuristic for NearestNeighbour {
    fn get_route(&self, tsp: &Tsp) -> (route: Vec<usize>)
        ensures
            exists|start: usize|
                start < tsp.dim() && route@ == nearest_neighbour_tour(tsp, start, tsp.dim()),
    {
        let mut rng = seeded_generator(self.seed as u128);
        let first_vertex = random_below(&mut rng, tsp.get_dimension());
        nearest_neighbour_inner(tsp, first_vertex)
    }
}

/// The shortest of the greedy tours from every start vertex, the first one
/// on ties.
pub struct NearestNeighbourOptimized;

impl NearestNeighbourOptimized {
    pub fn new() -> NearestNeighbourOptimized {
        NearestNeighbourOptimized
    }
}

impl TspHeuristic for NearestNeighbourOptimized {
    fn get_route(&self, tsp: &Tsp) -> (route: Vec<usize>)
        ensures
            route@ == nearest_neighbour_tour(tsp, shortest_start(tsp, tsp.dim() as int), tsp.dim()),
    {
        let dimension = tsp.get_dimension();
        let mut best_route = nearest_neighbour_inner(tsp, 0);
        let mut best_route_len = tsp.get_route_len(best_route.as_slice()).unwrap();
        let mut i: usize = 1;
        while i < dimension
            invariant
                tsp.wf(),
                dimension == tsp.dim(),
                1 <= i <= dimension,
                best_route@ == nearest_neighbour_tour(tsp, shortest_start(tsp, i as int), tsp.dim()),
                best_route_len == tsp.route_length(best_route@),
                tsp.is_route(best_route@),
            decreases dimension - i,
        {
            let route = nearest_neighbour_inner(tsp, i);
            let route_len = tsp.get_route_len(route.as_slice()).unwrap();
            if route_len < best_route_len {
                best_route = route;
                best_route_len = route_len;
            }
            i = i + 1;
        }
        best_route
    }
}

/// The best of the greedy tours is no longer than the greedy tour from any
/// single start vertex.
pub proof fn lemma_multi_start_no_longer(tsp: &Tsp, start: usize)
    requires
        tsp.wf(),
        start < tsp.dim(),
    ensures
        tsp.route_length(nearest_neighbour_tour(tsp, shortest_start(tsp, tsp.dim() as int), tsp.dim()))
            <= tsp.route_length(nearest_neighbour_tour(tsp, start, tsp.dim())),
{
    lemma_shortest_start_prefix(tsp, tsp.dim() as int, start);
}

proof fn lemma_shortest_start_prefix(tsp: &Tsp, k: int, start: usize)
    requires
        start < k,
    ensures
        tsp.route_length(nearest_neighbour_tour(tsp, shortest_start(tsp, k), tsp.dim()))
            <= tsp.route_length(nearest_neighbour_tour(tsp, start, tsp.dim())),
    decreases k,
{
    if k > 1 && start < k - 1 {
        lemma_shortest_start_prefix(tsp, k - 1, start);
    }
}

} // verus!
