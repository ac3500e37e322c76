use tsp::TSP;
use tsp::isqrt;

#[test]
fn isqrt_small_values() {
    assert_eq!(isqrt(0), 0);
    assert_eq!(isqrt(1), 1);
    assert_eq!(isqrt(2), 1);
    assert_eq!(isqrt(3), 1);
    assert_eq!(isqrt(4), 2);
    assert_eq!(isqrt(15), 3);
    assert_eq!(isqrt(16), 4);
    assert_eq!(isqrt(17), 4);
}

#[test]
fn isqrt_large_values() {
    assert_eq!(isqrt(20_000_000_000_000), 4_472_135);
    let max = u64::MAX as u128;
    assert_eq!(isqrt(max * max), u64::MAX);
    assert_eq!(isqrt(max * max - 1), u64::MAX - 1);
}

#[test]
fn from_distances_accepts_a_symmetric_table() {
    let t = TSP::from_distances(vec![vec![0, 5], vec![5, 0]]).unwrap();
    let (len, tour) = t.do_2opt(None).unwrap();
    assert_eq!(len, 10);
    assert_eq!(tour, vec![0, 1]);
}

#[test]
fn from_distances_accepts_the_empty_table() {
    let t = TSP::from_distances(vec![]).unwrap();
    let (len, tour) = t.do_3opt(None).unwrap();
    assert_eq!(len, 0);
    assert_eq!(tour, Vec::<usize>::new());
}

#[test]
fn from_distances_rejects_asymmetry() {
    assert!(TSP::from_distances(vec![vec![0, 5], vec![6, 0]]).is_none());
}

#[test]
fn from_distances_rejects_nonzero_diagonal() {
    assert!(TSP::from_distances(vec![vec![1]]).is_none());
}

#[test]
fn from_distances_rejects_ragged_rows() {
    assert!(TSP::from_distances(vec![vec![0, 1]]).is_none());
    assert!(TSP::from_distances(vec![vec![0, 1], vec![1]]).is_none());
}

#[test]
fn distance_table_is_symmetric_with_zero_diagonal() {
    let t = TSP::new_euc2d(&vec![(0, 0), (3_000, 4_000), (-3_000, 4_000)]);
    assert_eq!(t.size(), 3);
    for i in 0..3 {
        assert_eq!(t.dist(i, i), 0);
        for j in 0..3 {
            assert_eq!(t.dist(i, j), t.dist(j, i));
        }
    }
    // 3-4-5 triangle: exact distance 5_000
    assert_eq!(t.dist(0, 1), 5_000);
    assert_eq!(t.dist(0, 2), 5_000);
    assert_eq!(t.dist(1, 2), 6_000);
}

#[test]
fn four_point_tour_from_explicit_table() {
    // a table where the identity tour is already optimal
    let t = TSP::from_distances(vec![
        vec![0, 1, 9, 1],
        vec![1, 0, 1, 9],
        vec![9, 1, 0, 1],
        vec![1, 9, 1, 0],
    ])
    .unwrap();
    let (len2, tour2) = t.do_2opt(None).unwrap();
    assert_eq!(len2, 4);
    assert_eq!(tour2, vec![0, 1, 2, 3]);
    let (len3, tour3) = t.do_3opt(None).unwrap();
    assert_eq!(len3, 4);
    assert_eq!(tour3, vec![0, 1, 2, 3]);
}
