use acs_tsp::tour::is_permutation;
use acs_tsp::tsp_data::{coords_admissible, TspData, MAX_COORD};

fn unit_square() -> TspData {
    TspData::new(vec![(0, 0), (0, 1000), (1000, 1000), (1000, 0)])
}

#[test]
fn distances_are_floor_euclidean() {
    let data = unit_square();
    assert_eq!(data.n, 4);
    assert_eq!(data.dist(0, 1), 1000);
    assert_eq!(data.dist(0, 2), 1414);
    assert_eq!(data.dist(2, 0), 1414);
    assert_eq!(data.dist(3, 3), 0);
}

#[test]
fn three_four_five_triangle() {
    let data = TspData::new(vec![(0, 0), (3, 4)]);
    assert_eq!(data.dist(0, 1), 5);
    assert_eq!(data.calculate_tour_length(&vec![0, 1]), 10);
}

#[test]
fn tour_length_closes_the_cycle() {
    let data = unit_square();
    assert_eq!(data.calculate_tour_length(&vec![0, 1, 2, 3]), 4000);
    assert_eq!(data.calculate_tour_length(&vec![0, 2, 1, 3]), 4828);
    assert_eq!(data.calculate_tour_length(&vec![2]), 0);
    assert_eq!(data.calculate_tour_length(&vec![]), 0);
}

#[test]
fn matrix_is_symmetric() {
    let data = TspData::new(vec![(7, -3), (-20, 11), (5, 5), (100, 0), (-1, -1)]);
    for i in 0..data.n {
        for j in 0..data.n {
            assert_eq!(data.dist(i, j), data.dist(j, i));
        }
        assert_eq!(data.dist(i, i), 0);
    }
}

#[test]
fn admissible_coordinates() {
    assert!(coords_admissible(&vec![(0, 0), (MAX_COORD, -MAX_COORD)]));
    assert!(!coords_admissible(&vec![(0, 0), (MAX_COORD + 1, 0)]));
    assert!(!coords_admissible(&vec![(0, -MAX_COORD - 1)]));
    assert!(coords_admissible(&vec![]));
}

#[test]
fn permutation_check() {
    assert!(is_permutation(&vec![2, 0, 1], 3));
    assert!(!is_permutation(&vec![2, 0, 0], 3));
    assert!(!is_permutation(&vec![2, 0, 3], 3));
    assert!(!is_permutation(&vec![0, 1], 3));
    assert!(is_permutation(&vec![], 0));
}
