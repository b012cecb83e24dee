use acs_tsp::random::RandomSource;
use acs_tsp::selection::{apply_rule, attractiveness_of, pick_exploit, pick_roulette, weight_total, ETA_ONE};

#[test]
fn attractiveness_values() {
    assert_eq!(attractiveness_of(100, 10, 2), ETA_ONE);
    assert_eq!(attractiveness_of(100, 10, 0), 100 * ETA_ONE);
    assert_eq!(attractiveness_of(100, 0, 3), 100 * ETA_ONE);
    assert_eq!(attractiveness_of(0, 7, 2), 0);
    assert_eq!(attractiveness_of(3, 2, 1), 3 * ETA_ONE / 2);
}

#[test]
fn exploit_takes_first_largest() {
    assert_eq!(pick_exploit(&vec![3, 7, 7, 1]), 1);
    assert_eq!(pick_exploit(&vec![5]), 0);
    assert_eq!(pick_exploit(&vec![0, 0, 0]), 0);
}

#[test]
fn roulette_slices() {
    let w = vec![1, 0, 2];
    assert_eq!(weight_total(&w), 3);
    assert_eq!(pick_roulette(&w, 0), 0);
    assert_eq!(pick_roulette(&w, 1), 2);
    assert_eq!(pick_roulette(&w, 2), 2);
}

#[test]
fn draws_stay_below_bound() {
    let mut rng = RandomSource::seeded(3);
    for bound in 1..200u128 {
        assert!(rng.below(bound) < bound);
    }
}

#[test]
fn same_seed_same_draws() {
    let mut a = RandomSource::seeded(11);
    let mut b = RandomSource::seeded(11);
    let xs: Vec<u128> = (0..20).map(|_| a.below(1000)).collect();
    let ys: Vec<u128> = (0..20).map(|_| b.below(1000)).collect();
    assert_eq!(xs, ys);
    assert!(xs.iter().any(|&x| x != xs[0]));
}

#[test]
fn rule_for_given_draws() {
    let w = vec![1, 5, 5, 2];
    assert_eq!(apply_rule(&w, true, 0), 1);
    assert_eq!(apply_rule(&w, false, 0), 0);
    assert_eq!(apply_rule(&w, false, 1), 1);
    assert_eq!(apply_rule(&w, false, 6), 2);
    assert_eq!(apply_rule(&w, false, 12), 3);
    assert_eq!(apply_rule(&vec![0, 0], false, 0), 0);
}
