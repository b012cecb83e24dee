use acs_tsp::candidates::build_candidates;
use acs_tsp::local_search::{or_opt, two_opt};
use acs_tsp::tour::is_permutation;
use acs_tsp::tsp_data::TspData;

fn rectangle() -> TspData {
    TspData::new(vec![
        (0, 0),
        (1000, 0),
        (2000, 0),
        (2000, 1000),
        (1000, 1000),
        (0, 1000),
    ])
}

#[test]
fn two_opt_uncrosses() {
    let data = rectangle();
    let mut tour = vec![0, 1, 4, 3, 2, 5];
    assert_eq!(data.calculate_tour_length(&tour), 7236);
    let converged = two_opt(&data, &mut tour, 8);
    assert!(converged);
    assert_eq!(tour, vec![0, 1, 2, 3, 4, 5]);
    assert_eq!(data.calculate_tour_length(&tour), 6000);
}

#[test]
fn two_opt_twice_changes_nothing() {
    let data = rectangle();
    let mut tour = vec![0, 3, 1, 4, 2, 5];
    let before = data.calculate_tour_length(&tour);
    let converged = two_opt(&data, &mut tour, 8);
    let after = data.calculate_tour_length(&tour);
    assert!(after <= before);
    assert!(is_permutation(&tour, 6));
    assert_eq!(tour[0], 0);
    if converged {
        let copy = tour.clone();
        assert!(two_opt(&data, &mut tour, 8));
        assert_eq!(tour, copy);
    }
}

#[test]
fn two_opt_with_no_passes_is_identity() {
    let data = rectangle();
    let mut tour = vec![0, 1, 4, 3, 2, 5];
    assert!(!two_opt(&data, &mut tour, 0));
    assert_eq!(tour, vec![0, 1, 4, 3, 2, 5]);
}

#[test]
fn or_opt_relocates_a_misplaced_city() {
    let data = rectangle();
    let candidates = build_candidates(&data, 30);
    let mut tour = vec![0, 2, 1, 3, 4, 5];
    let before = data.calculate_tour_length(&tour);
    assert_eq!(before, 7414);
    let improved = or_opt(&data, &candidates, &mut tour);
    let after = data.calculate_tour_length(&tour);
    assert!(improved);
    assert!(after < before);
    assert!(is_permutation(&tour, 6));
}

#[test]
fn or_opt_leaves_an_optimal_tour() {
    let data = rectangle();
    let candidates = build_candidates(&data, 30);
    let mut tour = vec![0, 1, 2, 3, 4, 5];
    assert!(!or_opt(&data, &candidates, &mut tour));
    assert_eq!(tour, vec![0, 1, 2, 3, 4, 5]);
}
