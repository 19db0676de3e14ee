use tsp_heuristics::neighbourhood::{invert, invert_segment, swap};

#[test]
fn invert_even_works() {
    let mut route = [1, 2, 3, 4, 5, 6];

    invert(&mut route[1..=4]);

    assert_eq!([1, 5, 4, 3, 2, 6], route);
}

#[test]
fn invert_odd_works() {
    let mut route = [1, 2, 3, 4, 5];

    invert(&mut route[1..=3]);

    assert_eq!([1, 4, 3, 2, 5], route);
}

#[test]
fn swap_even_works() {
    let mut route = [1, 2, 3, 4, 5, 6];

    swap(&mut route[1..=4]);

    assert_eq!([1, 5, 3, 4, 2, 6], route);
}

#[test]
fn swap_odd_works() {
    let mut route = [1, 2, 3, 4, 5];

    swap(&mut route[1..=3]);

    assert_eq!([1, 4, 3, 2, 5], route);
}

#[test]
fn invert_empty_and_single() {
    let mut empty: [usize; 0] = [];
    invert(&mut empty);
    assert_eq!(empty.len(), 0);

    let mut single = [7];
    invert(&mut single);
    assert_eq!([7], single);
}

#[test]
fn invert_segment_in_place() {
    let mut route = vec![0, 1, 2, 3, 4, 5, 6];

    invert_segment(&mut route, 2, 5);
    assert_eq!(vec![0, 1, 5, 4, 3, 2, 6], route);

    invert_segment(&mut route, 3, 3);
    assert_eq!(vec![0, 1, 5, 4, 3, 2, 6], route);

    invert_segment(&mut route, 0, 6);
    assert_eq!(vec![6, 2, 3, 4, 5, 1, 0], route);
}
