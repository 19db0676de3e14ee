use vstd::prelude::*;

use crate::neighbourhood::{inverted, swapped};

verus! {

/// The largest number of vertices a model may have. With at most this many
/// vertices the length of every closed tour fits in a `u64`.
pub const MAX_DIMENSION: usize = 0xFFFF_FFFF;

/// Why a route was refused by [`Tsp::get_route_len`].
#[derive(Debug, PartialEq, Eq, Structural)]
pub enum TspRouteError {
    /// The route does not have one entry per vertex.
    TooShort,
    /// The route has one entry per vertex, but is not a permutation of them.
    NotPermutation,
}

/// Whether `edges[a][b] == edges[b][a]` holds for every pair of vertices.
#[derive(Debug, Clone, Copy, PartialEq, Eq, Structural)]
pub enum TspType {
    Symmetric,
    Asymmetric,
}

/// A distance matrix that cannot be turned into a model: it is empty, too
/// large, not square with `dimension` rows and columns, or classified as
/// symmetric while it is not.
#[derive(Debug, PartialEq, Eq, Structural)]
pub struct ConfigurationError;

/// An immutable `dimension` x `dimension` matrix of edge weights together
/// with its symmetry classification.
#[derive(Debug, Clone)]
pub struct Tsp {
    edges: Vec<Vec<u32>>,
    dimension: usize,
    tsp_type: TspType,
}

/// The weight matrix, the dimension and the classification that make a
/// model: square, with between one and `MAX_DIMENSION` vertices, and
/// symmetric when classified so.
pub open spec fn valid_model(m: Seq<Seq<u32>>, dimension: nat, kind: TspType) -> bool {
    &&& 1 <= dimension <= MAX_DIMENSION
    &&& m.len() == dimension
    &&& forall|a: int| 0 <= a < dimension ==> (#[trigger] m[a]).len() == dimension
    &&& kind == TspType::Symmetric ==> matrix_symmetric(m, dimension)
}

pub open spec fn matrix_symmetric(m: Seq<Seq<u32>>, dimension: nat) -> bool {
    forall|a: int, b: int|
        0 <= a < dimension && 0 <= b < dimension ==> #[trigger] m[a][b] == m[b][a]
}

/// The position before `i` on a closed tour of `n` positions.
pub open spec fn before(n: int, i: int) -> int {
    if i == 0 {
        n - 1
    } else {
        i - 1
    }
}

/// The position after `j` on a closed tour of `n` positions.
pub open spec fn after(n: int, j: int) -> int {
    if j == n - 1 {
        0
    } else {
        j + 1
    }
}

impl Tsp {
    /// The weight matrix.
    pub closed spec fn weights(&self) -> Seq<Seq<u32>> {
        self.edges.deep_view()
    }

    /// The number of vertices.
    pub closed spec fn dim(&self) -> nat {
        self.dimension as nat
    }

    /// The symmetry classification.
    pub closed spec fn kind(&self) -> TspType {
        self.tsp_type
    }

    pub open spec fn wf(&self) -> bool {
        valid_model(self.weights(), self.dim(), self.kind())
    }

    /// The weight of the edge from vertex `a` to vertex `b`.
    pub open spec fn weight(&self, a: int, b: int) -> int {
        self.weights()[a][b] as int
    }

    /// The weight of the edge from the vertex at position `p` of `r` to the
    /// vertex at position `q`.
    pub open spec fn hop(&self, r: Seq<usize>, p: int, q: int) -> int {
        self.weight(r[p] as int, r[q] as int)
    }

    pub open spec fn is_symmetric(&self) -> bool {
        matrix_symmetric(self.weights(), self.dim())
    }

    /// `r` lists every vertex exactly once.
    pub open spec fn is_route(&self, r: Seq<usize>) -> bool {
        &&& r.len() == self.dim()
        &&& forall|k: int| 0 <= k < r.len() ==> #[trigger] r[k] < self.dim()
        &&& r.no_duplicates()
    }

    /// Length of the forward traversal `r[lo] -> r[lo + 1] -> ... -> r[hi]`.
    pub open spec fn path_length(&self, r: Seq<usize>, lo: int, hi: int) -> int
        decreases hi - lo,
    {
        if hi <= lo {
            0
        } else {
            self.path_length(r, lo, hi - 1) + self.hop(r, hi - 1, hi)
        }
    }

    /// Length of the backward traversal `r[hi] -> r[hi - 1] -> ... -> r[lo]`.
    pub open spec fn reverse_path_length(&self, r: Seq<usize>, lo: int, hi: int) -> int
        decreases hi - lo,
    {
        if hi <= lo {
            0
        } else {
            self.reverse_path_length(r, lo, hi - 1) + self.hop(r, hi, hi - 1)
        }
    }

    /// Length of `r` read as a closed tour: the consecutive edges, then the
    /// edge from the last vertex back to the first.
    pub open spec fn route_length(&self, r: Seq<usize>) -> int {
        self.path_length(r, 0, r.len() - 1) + self.hop(r, r.len() - 1, 0)
    }

    /// Builds a model from a weight matrix, refusing a matrix that does not
    /// make one.
    pub fn new(edges: Vec<Vec<u32>>, dimension: usize, tsp_type: TspType) -> (res: Result<
        Tsp,
        ConfigurationError,
    >)
        ensures
            res is Ok <==> valid_model(edges.deep_view(), dimension as nat, tsp_type),
            res matches Ok(t) ==> t.weights() == edges.deep_view() && t.dim() == dimension
                && t.kind() == tsp_type,
    {
        if dimension == 0 || dimension > MAX_DIMENSION || edges.len() != dimension {
            return Err(ConfigurationError);
        }
        let ghost m = edges.deep_view();
        let mut a: usize = 0;
        while a < dimension
            invariant
                m == edges.deep_view(),
                edges@.len() == dimension,
                a <= dimension,
                forall|p: int| 0 <= p < a ==> (#[trigger] m[p]).len() == dimension,
            decreases dimension - a,
        {
            if edges[a].len() != dimension {
                assert(m[a as int].len() != dimension);
                return Err(ConfigurationError);
            }
            a = a + 1;
        }
        if tsp_type == TspType::Symmetric {
            let mut a: usize = 0;
            while a < dimension
                invariant
                    m == edges.deep_view(),
                    tsp_type == TspType::Symmetric,
                    edges@.len() == dimension,
                    a <= dimension,
                    forall|p: int| 0 <= p < dimension ==> (#[trigger] m[p]).len() == dimension,
                    forall|p: int, q: int|
                        0 <= p < a && 0 <= q < dimension ==> #[trigger] m[p][q] == m[q][p],
                decreases dimension - a,
            {
                let mut b: usize = 0;
                while b < dimension
                    invariant
                        m == edges.deep_view(),
                        tsp_type == TspType::Symmetric,
                        edges@.len() == dimension,
                        a < dimension,
                        b <= dimension,
                        forall|p: int| 0 <= p < dimension ==> (#[trigger] m[p]).len() == dimension,
                        forall|p: int, q: int|
                            0 <= p < a && 0 <= q < dimension ==> #[trigger] m[p][q] == m[q][p],
                        forall|q: int| 0 <= q < b ==> #[trigger] m[a as int][q] == m[q][a as int],
                    decreases dimension - b,
                {
                    assert(m[a as int].len() == dimension && m[b as int].len() == dimension);
                    if edges[a][b] != edges[b][a] {
                        assert(m[a as int][b as int] != m[b as int][a as int]);
                        assert(!matrix_symmetric(m, dimension as nat));
                        return Err(ConfigurationError);
                    }
                    b = b + 1;
                }
                a = a + 1;
            }
        }
        Ok(Tsp { edges, dimension, tsp_type })
    }

    /// Refuses a route that is not a permutation of the vertices.
    fn check_route_valid(&self, route: &[usize]) -> (res: Result<(), TspRouteError>)
        requires
            self.wf(),
        ensures
            match res {
                Ok(()) => self.is_route(route@),
                Err(TspRouteError::TooShort) => route@.len() != self.dim(),
                Err(TspRouteError::NotPermutation) => route@.len() == self.dim() && !self.is_route(
                    route@,
                ),
            },
    {
        let n = self.dimension;
        if route.len() != n {
            return Err(TspRouteError::TooShort);
        }
        let mut seen: Vec<bool> = Vec::new();
        let mut u: usize = 0;
        while u < n
            invariant
                u <= n,
                seen@.len() == u,
                forall|v: int| 0 <= v < u ==> !(#[trigger] seen@[v]),
            decreases n - u,
        {
            seen.push(false);
            u = u + 1;
        }
        let mut k: usize = 0;
        while k < n
            invariant
                n == self.dim(),
                route@.len() == n,
                k <= n,
                seen@.len() == n,
                forall|q: int| 0 <= q < k ==> #[trigger] route@[q] < n && seen@[route@[q] as int],
                forall|v: int|
                    0 <= v < n && #[trigger] seen@[v] ==> exists|q: int|
                        0 <= q < k && route@[q] == v,
                forall|p: int, q: int|
                    0 <= p < k && 0 <= q < k && p != q ==> #[trigger] route@[p] != #[trigger] route@[q],
            decreases n - k,
        {
            let v = route[k];
            if v >= n {
                return Err(TspRouteError::NotPermutation);
            }
            if seen[v] {
                let ghost q = choose|q: int| 0 <= q < k && route@[q] == v;
                assert(route@[q] == route@[k as int]);
                return Err(TspRouteError::NotPermutation);
            }
            seen.set(v, true);
            proof {
                assert forall|v2: int| 0 <= v2 < n && #[trigger] seen@[v2] implies exists|q: int|
                    0 <= q < k + 1 && route@[q] == v2 by {
                    if v2 != v {
                        let q = choose|q: int| 0 <= q < k && route@[q] == v2;
                        assert(0 <= q < k + 1 && route@[q] == v2);
                    } else {
                        assert(route@[k as int] == v2);
                    }
                }
            }
            k = k + 1;
        }
        Ok(())
    }

    /// Length of `route` as a closed tour, or why it is no route.
    pub fn get_route_len(&self, route: &[usize]) -> (res: Result<u64, TspRouteError>)
        requires
            self.wf(),
        ensures
            match res {
                Ok(len) => self.is_route(route@) && len == self.route_length(route@),
                Err(TspRouteError::TooShort) => route@.len() != self.dim(),
                Err(TspRouteError::NotPermutation) => route@.len() == self.dim() && !self.is_route(
                    route@,
                ),
            },
    {
        self.check_route_valid(route)?;
        let n = self.dimension;
        let mut route_len: u64 = 0;
        let mut k: usize = 0;
        while k + 1 < n
            invariant
                self.wf(),
                self.is_route(route@),
                n == self.dim(),
                k < n,
                route_len == self.path_length(route@, 0, k as int),
            decreases n - k,
        {
            proof {
                self.lemma_path_length_bound(route@, 0, k + 1);
                self.lemma_tour_bound_fits(n as int);
            }
            route_len = route_len + self.edge(route[k], route[k + 1]) as u64;
            k = k + 1;
        }
        proof {
            self.lemma_route_length_bound(route@);
            self.lemma_tour_bound_fits(n as int);
        }
        route_len = route_len + self.edge(route[n - 1], route[0]) as u64;
        Ok(route_len)
    }

    /// Length of the tour after reversing the positions `i..=j` of `route`,
    /// whose length is `route_len`, computed from the edges that change.
    pub fn get_inverted_route_len(&self, route: &[usize], route_len: u64, i: usize, j: usize) -> (res:
        u64)
        requires
            self.wf(),
            self.is_route(route@),
            route_len == self.route_length(route@),
            i <= j < self.dim(),
        ensures
            res == self.route_length(inverted(route@, i as int, j as int)),
    {
        match self.tsp_type {
            TspType::Symmetric => self.get_inverted_symmetric_route_len(route, route_len, i, j),
            TspType::Asymmetric => self.get_inverted_asymmetric_route_len(route, route_len, i, j),
        }
    }

    /// Length of the tour after reversing the positions `i..=j` on a
    /// symmetric model, where only the two edges at the ends of the segment
    /// change.
    pub fn get_inverted_symmetric_route_len(
        &self,
        route: &[usize],
        route_len: u64,
        i: usize,
        j: usize,
    ) -> (res: u64)
        requires
            self.wf(),
            self.is_symmetric(),
            self.is_route(route@),
            route_len == self.route_length(route@),
            i <= j < self.dim(),
        ensures
            res == self.route_length(inverted(route@, i as int, j as int)),
    {
        let n = self.dimension;
        let ghost r = route@;
        proof {
            self.lemma_inverted_length(r, i as int, j as int);
            self.lemma_symmetric_reverse(r, i as int, j as int);
            self.lemma_symmetric_reverse(r, 0, n - 1);
            self.lemma_path_length_bound(r, i as int, j as int);
            crate::neighbourhood::lemma_inverted_is_route(self, r, i as int, j as int);
            self.lemma_route_length_bound(inverted(r, i as int, j as int));
            self.lemma_tour_bound_fits(n as int);
        }
        if i == 0 && j == n - 1 {
            proof {
                let (x, y) = (r[n - 1] as int, r[0] as int);
                assert(self.weights()[x][y] == self.weights()[y][x]);
            }
            return route_len;
        }
        let before_index = if i == 0 {
            n - 1
        } else {
            i - 1
        };
        let after_index = if j == n - 1 {
            0
        } else {
            j + 1
        };
        let removed = self.edge(route[before_index], route[i]) as u64 + self.edge(
            route[j],
            route[after_index],
        ) as u64;
        let added = self.edge(route[before_index], route[j]) as u64 + self.edge(
            route[i],
            route[after_index],
        ) as u64;
        route_len - removed + added
    }

    /// Length of the tour after reversing the positions `i..=j` on any
    /// model: the edges at the ends of the segment change, and the segment
    /// is walked in the other direction.
    pub fn get_inverted_asymmetric_route_len(
        &self,
        route: &[usize],
        route_len: u64,
        i: usize,
        j: usize,
    ) -> (res: u64)
        requires
            self.wf(),
            self.is_route(route@),
            route_len == self.route_length(route@),
            i <= j < self.dim(),
        ensures
            res == self.route_length(inverted(route@, i as int, j as int)),
    {
        let n = self.dimension;
        let ghost r = route@;
        let forward = self.get_part_route_len(route, i, j);
        let backward = self.get_inverted_part_route_len(route, i, j);
        proof {
            self.lemma_inverted_length(r, i as int, j as int);
            crate::neighbourhood::lemma_inverted_is_route(self, r, i as int, j as int);
            self.lemma_route_length_bound(inverted(r, i as int, j as int));
            self.lemma_tour_bound_fits(n as int);
            self.lemma_path_length_bound(r, i as int, j as int);
        }
        if i == 0 && j == n - 1 {
            let removed = self.edge(route[n - 1], route[0]) as u64 + forward;
            let added = self.edge(route[0], route[n - 1]) as u64 + backward;
            return route_len - removed + added;
        }
        let before_index = if i == 0 {
            n - 1
        } else {
            i - 1
        };
        let after_index = if j == n - 1 {
            0
        } else {
            j + 1
        };
        let removed = self.edge(route[before_index], route[i]) as u64 + self.edge(
            route[j],
            route[after_index],
        ) as u64 + forward;
        let added = self.edge(route[before_index], route[j]) as u64 + self.edge(
            route[i],
            route[after_index],
        ) as u64 + backward;
        route_len - removed + added
    }

    /// Length of the forward walk over the positions `i..=j` of `route`.
    fn get_part_route_len(&self, route: &[usize], i: usize, j: usize) -> (res: u64)
        requires
            self.wf(),
            self.is_route(route@),
            i <= j < self.dim(),
        ensures
            res == self.path_length(route@, i as int, j as int),
    {
        let mut route_len: u64 = 0;
        let mut k = i;
        while k < j
            invariant
                self.wf(),
                self.is_route(route@),
                i <= k <= j < self.dim(),
                route_len == self.path_length(route@, i as int, k as int),
            decreases j - k,
        {
            proof {
                self.lemma_path_length_bound(route@, i as int, k + 1);
                self.lemma_tour_bound_fits(self.dim() as int);
                assert((k + 1 - i) * 0xFFFF_FFFF <= (self.dim() + 2) * 0xFFFF_FFFF)
                    by (nonlinear_arith)
                    requires
                        k + 1 - i <= self.dim() + 2,
                ;
            }
            route_len = route_len + self.edge(route[k], route[k + 1]) as u64;
            k = k + 1;
        }
        route_len
    }

    /// Length of the backward walk over the positions `i..=j` of `route`,
    /// from `route[j]` to `route[i]`.
    fn get_inverted_part_route_len(&self, route: &[usize], i: usize, j: usize) -> (res: u64)
        requires
            self.wf(),
            self.is_route(route@),
            i <= j < self.dim(),
        ensures
            res == self.reverse_path_length(route@, i as int, j as int),
    {
        let mut route_len: u64 = 0;
        let mut k = i;
        while k < j
            invariant
                self.wf(),
                self.is_route(route@),
                i <= k <= j < self.dim(),
                route_len == self.reverse_path_length(route@, i as int, k as int),
            decreases j - k,
        {
            proof {
                self.lemma_path_length_bound(route@, i as int, k + 1);
                self.lemma_tour_bound_fits(self.dim() as int);
                assert((k + 1 - i) * 0xFFFF_FFFF <= (self.dim() + 2) * 0xFFFF_FFFF)
                    by (nonlinear_arith)
                    requires
                        k + 1 - i <= self.dim() + 2,
                ;
            }
            route_len = route_len + self.edge(route[k + 1], route[k]) as u64;
            k = k + 1;
        }
        route_len
    }

    /// Length of the tour after exchanging the entries at positions `i` and
    /// `j` of `route`, whose length is `route_len`. Only the edges that leave
    /// the positions before `i`, `i`, before `j` and `j` change; when `i` and
    /// `j` are neighbours on the tour, a shared edge is counted once.
    pub fn get_swap_route_len(&self, route: &[usize], route_len: u64, i: usize, j: usize) -> (res:
        u64)
        requires
            self.wf(),
            self.is_route(route@),
            route_len == self.route_length(route@),
            i < j < self.dim(),
        ensures
            res == self.route_length(swapped(route@, i as int, j as int)),
    {
        let n = self.dimension;
        let ghost r = route@;
        let before_i = if i == 0 {
            n - 1
        } else {
            i - 1
        };
        let before_j = j - 1;
        proof {
            self.lemma_swapped_length(r, i as int, j as int);
            crate::neighbourhood::lemma_swapped_is_route(self, r, i as int, j as int);
            self.lemma_route_length_bound(swapped(r, i as int, j as int));
            self.lemma_tour_bound_fits(n as int);
        }
        let mut removed = self.leg_of(route, before_i) as u64 + self.leg_of(route, i) as u64;
        let mut added = self.swapped_leg_of(route, i, j, before_i) as u64 + self.swapped_leg_of(
            route,
            i,
            j,
            i,
        ) as u64;
        if before_j != i {
            removed = removed + self.leg_of(route, before_j) as u64;
            added = added + self.swapped_leg_of(route, i, j, before_j) as u64;
        }
        if before_i != j {
            removed = removed + self.leg_of(route, j) as u64;
            added = added + self.swapped_leg_of(route, i, j, j) as u64;
        }
        proof {
            let bi = before_i as int;
            let bj = before_j as int;
            assert(bi != i && bj != bi && j != i && j != bj);
            assert(removed == self.legs_at(r, bi, i as int, bj, j as int, n as int));
            assert(added == self.legs_at(
                swapped(r, i as int, j as int),
                bi,
                i as int,
                bj,
                j as int,
                n as int,
            ));
        }
        route_len - removed + added
    }

    /// The weight of the edge that leaves position `p` of `route`.
    fn leg_of(&self, route: &[usize], p: usize) -> (w: u32)
        requires
            self.wf(),
            self.is_route(route@),
            p < self.dim(),
        ensures
            w == self.leg(route@, p as int),
    {
        let q = if p == self.dimension - 1 {
            0
        } else {
            p + 1
        };
        self.edge(route[p], route[q])
    }

    /// The weight of the edge that leaves position `p` once the entries at
    /// positions `i` and `j` of `route` are exchanged.
    fn swapped_leg_of(&self, route: &[usize], i: usize, j: usize, p: usize) -> (w: u32)
        requires
            self.wf(),
            self.is_route(route@),
            i < self.dim(),
            j < self.dim(),
            p < self.dim(),
        ensures
            w == self.leg(swapped(route@, i as int, j as int), p as int),
    {
        let q = if p == self.dimension - 1 {
            0
        } else {
            p + 1
        };
        let from = if p == i {
            route[j]
        } else if p == j {
            route[i]
        } else {
            route[p]
        };
        let to = if q == i {
            route[j]
        } else if q == j {
            route[i]
        } else {
            route[q]
        };
        self.edge(from, to)
    }

    /// The weight of the edge from `a` to `b`.
    pub(crate) fn edge(&self, a: usize, b: usize) -> (w: u32)
        requires
            self.wf(),
            a < self.dim(),
            b < self.dim(),
        ensures
            w == self.weight(a as int, b as int),
    {
        assert(self.weights()[a as int].len() == self.dim());
        self.edges[a][b]
    }

    pub fn get_edges(&self) -> (edges: &[Vec<u32>])
        ensures
            edges.deep_view() == self.weights(),
    {
        self.edges.as_slice()
    }

    pub fn get_dimension(&self) -> (dimension: usize)
        ensures
            dimension == self.dim(),
    {
        self.dimension
    }

    pub fn get_tsp_type(&self) -> (tsp_type: TspType)
        ensures
            tsp_type == self.kind(),
    {
        self.tsp_type
    }
}

} // verus!
