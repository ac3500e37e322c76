use tsp::TSP;
use tsp::TspError;

// Coordinates are fixed-point: 1_000_000 units to one original coordinate
// unit, so lengths come out scaled by 1_000_000 and rounded down per edge.

#[test]
fn pair() {
    let t = TSP::new_euc2d(&vec![(0, 0), (4_000_000, 2_000_000)]);
    let (len, tour) = t.do_2opt(None).unwrap();
    // 2 * floor(sqrt(20) * 1_000_000) = 2 * 4_472_135
    assert_eq!(len, 8_944_270);
    assert_eq!(tour, vec![0, 1]);
}

#[test]
fn square() {
    let t = TSP::new_euc2d(&vec![(0, 0), (1_000_000, 1_000_000), (0, 1_000_000), (1_000_000, 0)]);
    let (len, tour) = t.do_2opt(None).unwrap();
    assert_eq!(len, 4_000_000);
    assert_eq!(tour, vec![0, 2, 1, 3]);
}

#[test]
fn square_3opt() {
    let t = TSP::new_euc2d(&vec![(0, 0), (1_000_000, 1_000_000), (0, 1_000_000), (1_000_000, 0)]);
    let (len, tour) = t.do_3opt(None).unwrap();
    assert_eq!(len, 4_000_000);
    assert_eq!(tour.first(), Some(&0));
    let mut sorted = tour.clone();
    sorted.sort();
    assert_eq!(sorted, vec![0, 1, 2, 3]);
}

#[test]
fn empty_point_list() {
    let t = TSP::new_euc2d(&vec![]);
    let (len2, tour2) = t.do_2opt(None).unwrap();
    assert_eq!(len2, 0);
    assert_eq!(tour2, Vec::<usize>::new());
    let (len3, tour3) = t.do_3opt(None).unwrap();
    assert_eq!(len3, 0);
    assert_eq!(tour3, Vec::<usize>::new());
}

#[test]
fn single_point() {
    let t = TSP::new_euc2d(&vec![(7_000, -3_000)]);
    let (len2, tour2) = t.do_2opt(None).unwrap();
    assert_eq!(len2, 0);
    assert_eq!(tour2, vec![0]);
    let (len3, tour3) = t.do_3opt(None).unwrap();
    assert_eq!(len3, 0);
    assert_eq!(tour3, vec![0]);
}

#[test]
fn three_d_pair() {
    let t = TSP::new_euc3d(&vec![(0, 0, 0), (1_000_000, 2_000_000, 2_000_000)]);
    let (len, tour) = t.do_2opt(None).unwrap();
    // sqrt(1 + 4 + 4) = 3 exactly, so no rounding.
    assert_eq!(len, 6_000_000);
    assert_eq!(tour, vec![0, 1]);
    let (len3, tour3) = t.do_3opt(None).unwrap();
    assert_eq!(len3, 6_000_000);
    assert_eq!(tour3, vec![0, 1]);
}

#[test]
fn invalid_start_tours_rejected() {
    let t = TSP::new_euc2d(&vec![(0, 0), (1_000_000, 0), (0, 1_000_000)]);
    // wrong length
    assert_eq!(t.do_2opt(Some(&vec![0, 1])), Err(TspError::InvalidTour));
    // duplicate index
    assert_eq!(t.do_2opt(Some(&vec![0, 0, 1])), Err(TspError::InvalidTour));
    // out-of-range index
    assert_eq!(t.do_2opt(Some(&vec![0, 1, 3])), Err(TspError::InvalidTour));
    assert_eq!(t.do_3opt(Some(&vec![0, 1])), Err(TspError::InvalidTour));
    assert_eq!(t.do_3opt(Some(&vec![2, 2, 0])), Err(TspError::InvalidTour));
    assert_eq!(t.do_3opt(Some(&vec![0, 1, 5])), Err(TspError::InvalidTour));
}

#[test]
fn supplied_start_tour_not_mutated_and_not_lengthened() {
    let t = TSP::new_euc2d(&vec![(0, 0), (1_000_000, 1_000_000), (0, 1_000_000), (1_000_000, 0)]);
    let start = vec![0, 1, 2, 3];
    // identity tour length: 2 * 1_414_213 + 2 * 1_000_000
    let start_len: u128 = 4_828_426;
    let (len, tour) = t.do_2opt(Some(&start)).unwrap();
    assert_eq!(start, vec![0, 1, 2, 3]);
    assert!(len <= start_len);
    assert_eq!(len, 4_000_000);
    assert_eq!(tour, vec![0, 2, 1, 3]);
    let (len3, _) = t.do_3opt(Some(&start)).unwrap();
    assert!(len3 <= start_len);
    assert_eq!(len3, 4_000_000);
}

fn ten_points() -> Vec<(i64, i64)> {
    vec![
        (310_000, 420_000),
        (910_000, 80_000),
        (150_000, 730_000),
        (500_000, 500_000),
        (40_000, 950_000),
        (880_000, 760_000),
        (270_000, 110_000),
        (620_000, 330_000),
        (730_000, 910_000),
        (90_000, 260_000),
    ]
}

#[test]
fn tours_are_permutations() {
    let t = TSP::new_euc2d(&ten_points());
    let (_, tour2) = t.do_2opt(None).unwrap();
    let mut s2 = tour2.clone();
    s2.sort();
    assert_eq!(s2, (0..10).collect::<Vec<usize>>());
    let (_, tour3) = t.do_3opt(None).unwrap();
    let mut s3 = tour3.clone();
    s3.sort();
    assert_eq!(s3, (0..10).collect::<Vec<usize>>());
}

#[test]
fn tours_start_at_base() {
    let t = TSP::new_euc2d(&ten_points());
    let (_, tour2) = t.do_2opt(None).unwrap();
    assert_eq!(tour2.first(), Some(&0));
    let (_, tour3) = t.do_3opt(None).unwrap();
    assert_eq!(tour3.first(), Some(&0));
    // and with a supplied starting tour, its first element stays first
    let start = vec![5, 1, 2, 3, 4, 0, 6, 7, 8, 9];
    let (_, tour2s) = t.do_2opt(Some(&start)).unwrap();
    assert_eq!(tour2s.first(), Some(&5));
    let (_, tour3s) = t.do_3opt(Some(&start)).unwrap();
    assert_eq!(tour3s.first(), Some(&5));
}

#[test]
fn rerunning_on_own_output_changes_nothing() {
    let t = TSP::new_euc2d(&ten_points());
    let (len2, tour2) = t.do_2opt(None).unwrap();
    let (len2b, tour2b) = t.do_2opt(Some(&tour2)).unwrap();
    assert_eq!(len2b, len2);
    assert_eq!(tour2b, tour2);
    let (len3, tour3) = t.do_3opt(None).unwrap();
    let (len3b, tour3b) = t.do_3opt(Some(&tour3)).unwrap();
    assert_eq!(len3b, len3);
    assert_eq!(tour3b, tour3);
}

#[test]
fn three_opt_no_worse_than_two_opt_start() {
    let t = TSP::new_euc2d(&ten_points());
    let (len2, tour2) = t.do_2opt(None).unwrap();
    let (len3, _) = t.do_3opt(Some(&tour2)).unwrap();
    assert!(len3 <= len2);
}

#[test]
fn extreme_coordinates() {
    let t = TSP::new_euc2d(&vec![
        (1_000_000_000, -1_000_000_000),
        (-1_000_000_000, 1_000_000_000),
    ]);
    let (len, tour) = t.do_2opt(None).unwrap();
    // 2 * floor(2_000_000_000 * sqrt(2))
    assert_eq!(len, 5_656_854_248);
    assert_eq!(tour, vec![0, 1]);
}
