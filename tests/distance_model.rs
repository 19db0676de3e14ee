use tsp_heuristics::neighbourhood::{invert, swap};
use tsp_heuristics::{ConfigurationError, Tsp, TspRouteError, TspType};

fn scenario_a() -> Tsp {
    Tsp::new(
        vec![vec![0, 10, 7], vec![10, 0, 7], vec![7, 7, 0]],
        3,
        TspType::Symmetric,
    )
    .expect("valid matrix")
}

fn scenario_b() -> Tsp {
    Tsp::new(
        vec![vec![9999, 2, 3], vec![2, 9999, 3], vec![3, 3, 9999]],
        3,
        TspType::Asymmetric,
    )
    .expect("valid matrix")
}

/// A deterministic asymmetric instance with `n` vertices.
fn asymmetric_instance(n: usize) -> Tsp {
    let edges = (0..n)
        .map(|a| {
            (0..n)
                .map(|b| if a == b { 9999 } else { ((a * 37 + b * 91 + a * b) % 997 + 1) as u32 })
                .collect()
        })
        .collect();
    Tsp::new(edges, n, TspType::Asymmetric).expect("valid matrix")
}

/// A deterministic symmetric instance with `n` vertices.
fn symmetric_instance(n: usize) -> Tsp {
    let coords: Vec<(i64, i64)> = (0..n)
        .map(|v| (((v * 7919) % 613) as i64, ((v * 104729) % 467) as i64))
        .collect();
    let edges = (0..n)
        .map(|a| {
            (0..n)
                .map(|b| {
                    let (dx, dy) = (coords[a].0 - coords[b].0, coords[a].1 - coords[b].1);
                    (dx.abs() + dy.abs()) as u32
                })
                .collect()
        })
        .collect();
    Tsp::new(edges, n, TspType::Symmetric).expect("valid matrix")
}

/// The closed-tour length computed directly from the matrix.
fn recount(tsp: &Tsp, route: &[usize]) -> u64 {
    let edges = tsp.get_edges();
    let n = route.len();
    let mut len = 0u64;
    for k in 0..n {
        len += edges[route[k]][route[(k + 1) % n]] as u64;
    }
    len
}

#[test]
fn scenario_symmetric_three_vertices() {
    let tsp = scenario_a();
    assert_eq!(Ok(24), tsp.get_route_len(&[0, 1, 2]));
}

#[test]
fn scenario_asymmetric_three_vertices() {
    let tsp = scenario_b();
    assert_eq!(Ok(8), tsp.get_route_len(&[0, 1, 2]));
}

#[test]
fn scenario_route_errors() {
    let tsp = scenario_b();
    assert_eq!(Err(TspRouteError::TooShort), tsp.get_route_len(&[0, 1]));
    assert_eq!(Err(TspRouteError::NotPermutation), tsp.get_route_len(&[0, 1, 1]));
}

#[test]
fn route_len_works() {
    let tsp = scenario_b();
    let route = [0, 1, 2];

    let route_len = tsp.get_route_len(&route).expect("route should be valid");

    assert_eq!(8, route_len);
}

#[test]
fn route_len_too_short() {
    let tsp = scenario_b();
    let route = [0, 1];

    let route_len = tsp.get_route_len(&route);

    assert!(route_len.is_err());
}

#[test]
fn route_len_not_permutation() {
    let tsp = scenario_b();
    let route = [0, 1, 1];

    let route_len = tsp.get_route_len(&route);

    assert!(route_len.is_err());
}

#[test]
fn route_len_rejects_out_of_range_and_long_routes() {
    let tsp = scenario_b();
    assert_eq!(Err(TspRouteError::NotPermutation), tsp.get_route_len(&[0, 1, 3]));
    assert_eq!(Err(TspRouteError::TooShort), tsp.get_route_len(&[0, 1, 2, 0]));
    assert_eq!(Err(TspRouteError::TooShort), tsp.get_route_len(&[]));
}

#[test]
fn route_len_uses_the_closing_edge_from_last_to_first() {
    let tsp = Tsp::new(
        vec![vec![0, 1, 100], vec![100, 0, 1], vec![5, 100, 0]],
        3,
        TspType::Asymmetric,
    )
    .expect("valid matrix");
    assert_eq!(Ok(7), tsp.get_route_len(&[0, 1, 2]));
}

#[test]
fn route_len_matches_recount() {
    let tsp = asymmetric_instance(9);
    let route = [4, 2, 8, 0, 1, 7, 3, 6, 5];
    assert_eq!(Ok(recount(&tsp, &route)), tsp.get_route_len(&route));
}

#[test]
fn single_vertex_model() {
    let tsp = Tsp::new(vec![vec![4]], 1, TspType::Asymmetric).expect("valid matrix");
    assert_eq!(Ok(4), tsp.get_route_len(&[0]));
    assert_eq!(4, tsp.get_inverted_route_len(&[0], 4, 0, 0));
}

#[test]
fn configuration_errors() {
    assert_eq!(Err(ConfigurationError), Tsp::new(vec![], 0, TspType::Symmetric).map(|_| ()));
    assert_eq!(
        Err(ConfigurationError),
        Tsp::new(vec![vec![0, 1], vec![1, 0]], 3, TspType::Symmetric).map(|_| ())
    );
    assert_eq!(
        Err(ConfigurationError),
        Tsp::new(vec![vec![0, 1], vec![1]], 2, TspType::Symmetric).map(|_| ())
    );
    assert_eq!(
        Err(ConfigurationError),
        Tsp::new(vec![vec![0, 1], vec![2, 0]], 2, TspType::Symmetric).map(|_| ())
    );
    assert!(Tsp::new(vec![vec![0, 1], vec![2, 0]], 2, TspType::Asymmetric).is_ok());
}

#[test]
fn getters_return_the_model() {
    let tsp = scenario_b();
    assert_eq!(3, tsp.get_dimension());
    assert_eq!(TspType::Asymmetric, tsp.get_tsp_type());
    assert_eq!(vec![vec![9999, 2, 3], vec![2, 9999, 3], vec![3, 3, 9999]], tsp.get_edges());
}

fn check_invert(tsp: &Tsp, l: usize, r: usize) {
    let mut route = (0..tsp.get_dimension()).collect::<Vec<_>>();
    route.rotate_left(tsp.get_dimension() / 3);

    let route_len = tsp.get_route_len(&route).expect("has to be some");

    let other_route_len = tsp.get_inverted_route_len(&route, route_len, l, r);

    invert(&mut route[l..=r]);

    let inverted_route_len = tsp.get_route_len(&route).expect("has to be some");

    assert_eq!(inverted_route_len, other_route_len);
    assert_eq!(recount(tsp, &route), other_route_len);
}

#[test]
fn different_route_lens() {
    let tsp = symmetric_instance(127);

    let mut route = (0..tsp.get_dimension()).collect::<Vec<_>>();

    let route_len = tsp.get_route_len(&route).expect("has to be some");

    let (l, r) = (1, 2);

    let other_route_len = tsp.get_inverted_route_len(&route, route_len, l, r);

    invert(&mut route[l..=r]);

    let inverted_route_len = tsp.get_route_len(&route).expect("has to be some");

    assert_eq!(inverted_route_len, other_route_len);
}

#[test]
fn inverted_len_matches_recount_on_every_segment() {
    for tsp in [symmetric_instance(7), asymmetric_instance(7)] {
        for i in 0..7 {
            for j in i..7 {
                check_invert(&tsp, i, j);
            }
        }
    }
}

#[test]
fn whole_tour_reversal_on_asymmetric_model() {
    let tsp = Tsp::new(
        vec![vec![0, 1, 100], vec![100, 0, 1], vec![5, 100, 0]],
        3,
        TspType::Asymmetric,
    )
    .expect("valid matrix");
    let route = vec![0, 1, 2];
    assert_eq!(Ok(7), tsp.get_route_len(&route));
    assert_eq!(Ok(300), tsp.get_route_len(&[2, 1, 0]));
    assert_eq!(300, tsp.get_inverted_asymmetric_route_len(&route, 7, 0, 2));
    assert_eq!(300, tsp.get_inverted_route_len(&route, 7, 0, 2));
}

#[test]
fn symmetric_formula_values() {
    let tsp = scenario_a();
    let route = [0, 1, 2];
    assert_eq!(24, tsp.get_inverted_symmetric_route_len(&route, 24, 0, 2));
    assert_eq!(24, tsp.get_inverted_symmetric_route_len(&route, 24, 1, 2));
    let tsp = symmetric_instance(6);
    let route = [0, 1, 2, 3, 4, 5];
    let len = tsp.get_route_len(&route).unwrap();
    let moved = [0, 3, 2, 1, 4, 5];
    assert_eq!(
        tsp.get_route_len(&moved).unwrap(),
        tsp.get_inverted_symmetric_route_len(&route, len, 1, 3)
    );
}

fn check_swap(tsp: &Tsp, l: usize, r: usize) {
    let mut route = (0..tsp.get_dimension()).collect::<Vec<_>>();

    let route_len = tsp.get_route_len(&route).expect("has to be some");

    let other_route_len = tsp.get_swap_route_len(&route, route_len, l, r);

    swap(&mut route[l..=r]);

    let swapped_route_len = tsp.get_route_len(&route).expect("has to be some");

    assert_eq!(swapped_route_len, other_route_len);
}

#[test]
fn different_route_lens_swap() {
    let tsp = asymmetric_instance(70);

    check_swap(&tsp, 10, 40);
    check_swap(&tsp, 5, 7);
    check_swap(&tsp, 5, 6);
    check_swap(&tsp, 1, 2);
    check_swap(&tsp, 50, 60);
    check_swap(&tsp, 45, 55);
}

#[test]
fn swapped_len_matches_recount_on_every_pair() {
    for n in [2, 3, 4, 7] {
        for tsp in [symmetric_instance(n), asymmetric_instance(n)] {
            for i in 0..n {
                for j in (i + 1)..n {
                    check_swap(&tsp, i, j);
                }
            }
        }
    }
}

#[test]
fn swap_of_first_and_last_vertex() {
    let tsp = asymmetric_instance(5);
    let route = vec![0, 1, 2, 3, 4];
    let len = tsp.get_route_len(&route).unwrap();
    let swapped = vec![4, 1, 2, 3, 0];
    assert_eq!(tsp.get_route_len(&swapped).unwrap(), tsp.get_swap_route_len(&route, len, 0, 4));
}
