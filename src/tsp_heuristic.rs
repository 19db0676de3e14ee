use vstd::prelude::*;

use crate::tsp::Tsp;

pub mod krandom;
pub mod nearest_neighbour;
pub mod two_opt;

verus! {

/// Anything that produces a tour of a model: the construction heuristics,
/// and the local search that refines what another one produced.
pub trait TspHeuristic {
    fn get_route(&self, tsp: &Tsp) -> (route: Vec<usize>)
        requires
            tsp.wf(),
        ensures
            tsp.is_route(route@),
    ;
}

} // verus!
