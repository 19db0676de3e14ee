pub mod neighbourhood;
pub mod path_lemmas;
mod randomness;
pub mod tsp;
pub mod tsp_heuristic;
pub mod tsp_parser;

use vstd::prelude::*;

pub use crate::tsp::{ConfigurationError, Tsp, TspRouteError, TspType, MAX_DIMENSION};
pub use crate::tsp_heuristic::krandom::{KRandom, NoIterations};
pub use crate::tsp_heuristic::nearest_neighbour::{NearestNeighbour, NearestNeighbourOptimized};
pub use crate::tsp_heuristic::two_opt::{best_neighbourhood_generic, best_neighbourhood_invert, TwoOpt};
pub use crate::tsp_heuristic::TspHeuristic;

use std::time::{Duration, Instant};

verus! {

/// The clock reading that a benchmark starts from.
#[verifier::external_type_specification]
#[verifier::external_body]
pub struct ExInstant(Instant);

/// Relies on `std::time::Instant::now`: a reading of the monotonic clock,
/// of which nothing is assumed.
#[verifier::external_body]
fn clock_now() -> Instant {
    Instant::now()
}

/// Relies on `std::time::Instant::elapsed`: the time since `start`, of which
/// nothing is assumed.
#[verifier::external_body]
fn elapsed_since(start: &Instant) -> Duration {
    start.elapsed()
}

/// A tour produced by a heuristic, its length, and how long producing and
/// measuring it took.
pub struct HeuristicBench {
    pub route: Vec<usize>,
    pub route_len: u64,
    pub duration: Duration,
}

/// Measures `route`, and how long it took since `start` to produce and
/// measure it.
pub fn bench_route(tsp: &Tsp, route: Vec<usize>, start: &Instant) -> (bench: HeuristicBench)
    requires
        tsp.wf(),
        tsp.is_route(route@),
    ensures
        bench.route@ == route@,
        bench.route_len == tsp.route_length(route@),
{
    let route_len = tsp.get_route_len(route.as_slice()).unwrap();
    HeuristicBench { route, route_len, duration: elapsed_since(start) }
}

/// Runs `heuristic` on `tsp` and measures the tour it produces.
pub fn run_heuristic_with_bench<H: TspHeuristic>(tsp: &Tsp, heuristic: H) -> (bench: HeuristicBench)
    requires
        tsp.wf(),
    ensures
        tsp.is_route(bench.route@),
        bench.route_len == tsp.route_length(bench.route@),
{
    let start = clock_now();
    let route = heuristic.get_route(tsp);
    bench_route(tsp, route, &start)
}

} // verus!
