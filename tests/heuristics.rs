use tsp_heuristics::neighbourhood::{invert, InvertSegment, SwapEndpoints};
use tsp_heuristics::tsp_heuristic::nearest_neighbour::nearest_neighbour_inner;
use tsp_heuristics::tsp_heuristic::krandom::keep_first_shortest;
use tsp_heuristics::tsp_heuristic::two_opt::best_invert_move;
use tsp_heuristics::{
    bench_route, best_neighbourhood_generic, best_neighbourhood_invert, run_heuristic_with_bench,
    HeuristicBench, KRandom, NearestNeighbour, NearestNeighbourOptimized, NoIterations, Tsp,
    TspHeuristic, TspType, TwoOpt,
};

fn full_matrix_tsp() -> Tsp {
    Tsp::new(
        vec![vec![9999, 2, 3], vec![2, 9999, 3], vec![3, 3, 9999]],
        3,
        TspType::Asymmetric,
    )
    .expect("valid matrix")
}

fn symmetric_instance(n: usize) -> Tsp {
    let coords: Vec<(i64, i64)> = (0..n)
        .map(|v| (((v * 7919) % 613) as i64, ((v * 104729) % 467) as i64))
        .collect();
    let edges = (0..n)
        .map(|a| {
            (0..n)
                .map(|b| {
                    let (dx, dy) = (coords[a].0 - coords[b].0, coords[a].1 - coords[b].1);
                    (dx.abs() + dy.abs()) as u32
                })
                .collect()
        })
        .collect();
    Tsp::new(edges, n, TspType::Symmetric).expect("valid matrix")
}

fn asymmetric_instance(n: usize) -> Tsp {
    let edges = (0..n)
        .map(|a| {
            (0..n)
                .map(|b| if a == b { 9999 } else { ((a * 37 + b * 91 + a * b) % 997 + 1) as u32 })
                .collect()
        })
        .collect();
    Tsp::new(edges, n, TspType::Asymmetric).expect("valid matrix")
}

fn is_permutation(route: &[usize], n: usize) -> bool {
    let mut sorted = route.to_vec();
    sorted.sort_unstable();
    sorted == (0..n).collect::<Vec<_>>()
}

/// No reversal of a segment shortens the route.
fn is_local_optimum(tsp: &Tsp, route: &[usize]) -> bool {
    let len = tsp.get_route_len(route).unwrap();
    let n = route.len();
    for i in 0..n {
        for j in i..n {
            let mut moved = route.to_vec();
            invert(&mut moved[i..=j]);
            if tsp.get_route_len(&moved).unwrap() < len {
                return false;
            }
        }
    }
    true
}

#[test]
fn krandom_works() {
    let tsp = full_matrix_tsp();
    let route = KRandom::new(10, 1).expect("k is positive").get_route(&tsp);
    let route_len = tsp.get_route_len(&route).expect("Has to be valid route");

    assert!(route_len > 0);
}

#[test]
fn krandom_needs_an_iteration() {
    assert_eq!(Some(NoIterations), KRandom::new(0, 1).err());
}

#[test]
fn krandom_more_draws_never_longer() {
    let tsp = asymmetric_instance(9);
    let mut previous = u64::MAX;
    for k in 1..40 {
        let route = KRandom::new(k, 42).unwrap().get_route(&tsp);
        let len = tsp.get_route_len(&route).unwrap();
        assert!(len <= previous);
        previous = len;
    }
}

#[test]
fn krandom_shuffles() {
    // On this instance the tour in index order is by far the longest one.
    let n = 6;
    let edges = (0..n)
        .map(|a| (0..n).map(|b| if (a + 1) % n == b { 1000 } else { 1 }).collect())
        .collect();
    let tsp = Tsp::new(edges, n, TspType::Asymmetric).unwrap();
    let route = KRandom::new(30, 3).unwrap().get_route(&tsp);
    assert!(is_permutation(&route, n));
    assert_ne!((0..n).collect::<Vec<_>>(), route);
}

#[test]
fn nearest_neighbour_works() {
    let tsp = full_matrix_tsp();
    let route = NearestNeighbour::new(5).get_route(&tsp);
    let route_len = tsp.get_route_len(&route).expect("Has to be valid route.");

    assert!(route_len > 0);
}

#[test]
fn nearest_neighbour_starts_at_a_vertex_of_the_model() {
    let tsp = asymmetric_instance(8);
    for seed in 0..20 {
        let route = NearestNeighbour::new(seed).get_route(&tsp);
        assert!(is_permutation(&route, 8));
        assert_eq!(nearest_neighbour_inner(&tsp, route[0]), route);
    }
}

#[test]
fn nearest_neighbour_greedy_choice_and_ties() {
    let tsp = Tsp::new(
        vec![
            vec![0, 5, 2, 2],
            vec![5, 0, 1, 9],
            vec![2, 1, 0, 4],
            vec![2, 9, 4, 0],
        ],
        4,
        TspType::Symmetric,
    )
    .unwrap();
    assert_eq!(vec![0, 2, 1, 3], nearest_neighbour_inner(&tsp, 0));
    assert_eq!(vec![3, 0, 2, 1], nearest_neighbour_inner(&tsp, 3));
}

#[test]
fn nearest_neighbour_all_weights_at_maximum() {
    let tsp = Tsp::new(vec![vec![u32::MAX; 3]; 3], 3, TspType::Symmetric).unwrap();
    let route = nearest_neighbour_inner(&tsp, 2);
    assert_eq!(vec![2, 0, 1], route);
    assert_eq!(Ok(3 * u32::MAX as u64), tsp.get_route_len(&route));
}

#[test]
fn nearest_neighbour_optimized_works() {
    let tsp = full_matrix_tsp();
    let route = NearestNeighbourOptimized::new().get_route(&tsp);
    let route_len = tsp.get_route_len(&route).expect("Has to be valid route.");

    assert!(route_len > 0);
}

#[test]
fn multi_start_no_longer_than_any_start() {
    let tsp = asymmetric_instance(10);
    let best = NearestNeighbourOptimized::new().get_route(&tsp);
    let best_len = tsp.get_route_len(&best).unwrap();
    for start in 0..10 {
        let route = nearest_neighbour_inner(&tsp, start);
        assert!(best_len <= tsp.get_route_len(&route).unwrap());
    }
}

#[test]
fn two_opt_works() {
    let tsp = full_matrix_tsp();
    let heuristic = NearestNeighbourOptimized::new();
    let route = TwoOpt::new(heuristic).get_route(&tsp);
    let route_len = tsp.get_route_len(&route).expect("Has to be valid route.");

    assert!(route_len > 0);
}

#[test]
fn two_opt_reaches_a_local_optimum() {
    for tsp in [symmetric_instance(12), asymmetric_instance(9)] {
        let n = tsp.get_dimension();
        let start: Vec<usize> = (0..n).collect();
        let start_len = tsp.get_route_len(&start).unwrap();
        let route = best_neighbourhood_invert(&tsp, start);
        assert!(is_permutation(&route, n));
        assert!(tsp.get_route_len(&route).unwrap() <= start_len);
        assert!(is_local_optimum(&tsp, &route));
    }
}

#[test]
fn two_opt_round_picks_the_best_reversal() {
    let tsp = symmetric_instance(8);
    let route: Vec<usize> = (0..8).collect();
    let len = tsp.get_route_len(&route).unwrap();
    let mut best: Option<(usize, usize, u64)> = None;
    for i in 0..8 {
        for j in i..8 {
            let mut moved = route.clone();
            invert(&mut moved[i..=j]);
            let l = tsp.get_route_len(&moved).unwrap();
            let better = match best {
                None => l < len,
                Some((_, _, b)) => l < b,
            };
            if better {
                best = Some((i, j, l));
            }
        }
    }
    assert_eq!(best, best_invert_move(&tsp, &route, len));
}

#[test]
fn two_opt_lengths_decrease_round_by_round() {
    let tsp = asymmetric_instance(10);
    let mut route: Vec<usize> = (0..10).collect();
    let mut len = tsp.get_route_len(&route).unwrap();
    while let Some((i, j, next)) = best_invert_move(&tsp, &route, len) {
        assert!(next < len);
        invert(&mut route[i..=j]);
        assert_eq!(Ok(next), tsp.get_route_len(&route));
        len = next;
    }
    assert!(is_local_optimum(&tsp, &route));
    assert_eq!(best_neighbourhood_invert(&tsp, (0..10).collect()), route);
}

#[test]
fn two_opt_keeps_a_local_optimum() {
    let tsp = symmetric_instance(11);
    let optimum = best_neighbourhood_invert(&tsp, (0..11).collect());
    assert_eq!(optimum, best_neighbourhood_invert(&tsp, optimum.clone()));
}

#[test]
fn recounting_and_incremental_searches_agree() {
    for tsp in [symmetric_instance(9), asymmetric_instance(9)] {
        let start: Vec<usize> = (0..9).rev().collect();
        assert_eq!(
            best_neighbourhood_invert(&tsp, start.clone()),
            best_neighbourhood_generic(&tsp, start, &InvertSegment)
        );
    }
}

#[test]
fn keep_first_shortest_keeps_the_first_of_equals() {
    let tsp = Tsp::new(
        vec![vec![0, 1, 9], vec![9, 0, 1], vec![1, 9, 0]],
        3,
        TspType::Asymmetric,
    )
    .unwrap();
    // [0, 2, 1] has length 27; [1, 2, 0] and [0, 1, 2] both have length 3.
    let draws = vec![vec![0, 2, 1], vec![1, 2, 0], vec![0, 1, 2], vec![2, 1, 0]];
    assert_eq!(vec![1, 2, 0], keep_first_shortest(&tsp, &draws));
    assert_eq!(vec![0, 2, 1], keep_first_shortest(&tsp, &draws[..1].to_vec()));
}

#[test]
fn bench_route_reports_the_given_route() {
    let tsp = full_matrix_tsp();
    let bench = bench_route(&tsp, vec![2, 0, 1], &std::time::Instant::now());
    assert_eq!(vec![2, 0, 1], bench.route);
    assert_eq!(8, bench.route_len);
}

#[test]
fn generic_search_with_either_move() {
    let tsp = asymmetric_instance(8);
    let start: Vec<usize> = (0..8).collect();
    let start_len = tsp.get_route_len(&start).unwrap();

    let by_invert = best_neighbourhood_generic(&tsp, start.clone(), &InvertSegment);
    assert!(is_local_optimum(&tsp, &by_invert));

    let by_swap = best_neighbourhood_generic(&tsp, start, &SwapEndpoints);
    assert!(is_permutation(&by_swap, 8));
    let swap_len = tsp.get_route_len(&by_swap).unwrap();
    assert!(swap_len <= start_len);
    for i in 0..8 {
        for j in (i + 1)..8 {
            assert!(tsp.get_swap_route_len(&by_swap, swap_len, i, j) >= swap_len);
        }
    }
}

#[test]
fn test_route_invert_len() {
    let tsp = symmetric_instance(52);

    let HeuristicBench {
        mut route,
        route_len,
        duration: _,
    } = run_heuristic_with_bench(&tsp, NearestNeighbourOptimized::new());

    let i = 0;
    let j = 1;

    let fast_route_len = tsp.get_inverted_route_len(&route, route_len, i, j);

    invert(&mut route[i..=j]);

    let slow_route_len = tsp.get_route_len(&route).expect("has to be some");

    invert(&mut route[i..=j]);

    assert_eq!(fast_route_len, slow_route_len);
}

#[test]
fn bench_measures_the_route() {
    let tsp = asymmetric_instance(7);
    let bench = run_heuristic_with_bench(&tsp, TwoOpt::new(NearestNeighbour::new(9)));
    assert!(is_permutation(&bench.route, 7));
    assert_eq!(Ok(bench.route_len), tsp.get_route_len(&bench.route));
}
