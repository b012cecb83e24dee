use acs_tsp::random::RandomSource;
use acs_tsp::tour::is_permutation;
use acs_tsp::tsp_data::TspData;
use acs_tsp::tsp_solvers::AcsTspSolver;

fn unit_square() -> TspData {
    TspData::new(vec![(0, 0), (0, 1000), (1000, 1000), (1000, 0)])
}

fn scattered() -> TspData {
    TspData::new(vec![
        (0, 0),
        (5200, 1300),
        (1700, 8800),
        (9100, 4100),
        (3300, 3900),
        (7600, 9400),
        (600, 5200),
        (8800, 600),
        (4500, 7000),
        (2500, 2100),
        (6900, 2800),
        (1200, 9900),
    ])
}

#[test]
fn square_baseline_is_optimal() {
    let solver = AcsTspSolver::new(unit_square(), 4, 4, 900000, 2);
    assert_eq!(solver.best_score, 4000);
    assert_eq!(solver.best_tour, vec![0, 1, 2, 3]);
    assert!(solver.history.is_empty());
}

#[test]
fn single_city() {
    let mut solver = AcsTspSolver::new(TspData::new(vec![(5, 5)]), 2, 3, 900000, 2);
    assert_eq!(solver.best_tour, vec![0]);
    assert_eq!(solver.best_score, 0);
    let mut rng = RandomSource::seeded(1);
    solver.run(&mut rng);
    assert_eq!(solver.best_tour, vec![0]);
    assert_eq!(solver.history, vec![0, 0, 0]);
}

#[test]
fn two_cities_round_trip() {
    let mut solver = AcsTspSolver::new(TspData::new(vec![(0, 0), (3, 4)]), 1, 1, 900000, 2);
    assert_eq!(solver.best_score, 10);
    let mut rng = RandomSource::seeded(2);
    solver.run(&mut rng);
    assert_eq!(solver.best_score, 10);
    assert!(is_permutation(&solver.best_tour, 2));
}

#[test]
fn one_ant_one_iteration_keeps_baseline() {
    let mut solver = AcsTspSolver::new(unit_square(), 1, 1, 900000, 2);
    let baseline = solver.best_score;
    let mut rng = RandomSource::seeded(5);
    solver.run(&mut rng);
    assert!(solver.best_score <= baseline);
    assert_eq!(solver.best_score, 4000);
    assert_eq!(solver.history, vec![4000]);
}

#[test]
fn run_keeps_state_consistent() {
    let data = scattered();
    let mut solver = AcsTspSolver::new(data, 6, 10, 900000, 2);
    let baseline = solver.best_score;
    let mut rng = RandomSource::seeded(7);
    solver.run(&mut rng);
    assert_eq!(solver.history.len(), 10);
    for w in solver.history.windows(2) {
        assert!(w[1] <= w[0]);
    }
    assert!(solver.best_score <= baseline);
    assert_eq!(*solver.history.last().unwrap(), solver.best_score);
    assert!(is_permutation(&solver.best_tour, 12));
    assert_eq!(solver.data.calculate_tour_length(&solver.best_tour), solver.best_score);
}

#[test]
fn same_seed_same_run() {
    let mut a = AcsTspSolver::new(scattered(), 5, 6, 700000, 3);
    let mut b = AcsTspSolver::new(scattered(), 5, 6, 700000, 3);
    a.run(&mut RandomSource::seeded(99));
    b.run(&mut RandomSource::seeded(99));
    assert_eq!(a.best_tour, b.best_tour);
    assert_eq!(a.best_score, b.best_score);
    assert_eq!(a.history, b.history);
}

#[test]
fn pure_exploration_and_pure_exploitation() {
    for q0 in [0u64, 1000000] {
        let mut solver = AcsTspSolver::new(scattered(), 3, 3, q0, 2);
        let baseline = solver.best_score;
        solver.run(&mut RandomSource::seeded(4));
        assert!(solver.best_score <= baseline);
        assert!(is_permutation(&solver.best_tour, 12));
    }
}

#[test]
fn zero_iterations_keep_baseline() {
    let mut solver = AcsTspSolver::new(scattered(), 3, 0, 900000, 2);
    let baseline = solver.best_tour.clone();
    solver.run(&mut RandomSource::seeded(8));
    assert_eq!(solver.best_tour, baseline);
    assert!(solver.history.is_empty());
}

fn rectangle() -> TspData {
    TspData::new(vec![
        (0, 0),
        (1000, 0),
        (2000, 0),
        (2000, 1000),
        (1000, 1000),
        (0, 1000),
    ])
}

#[test]
fn finish_iteration_keeps_best_unless_strictly_shorter() {
    let mut solver = AcsTspSolver::new(unit_square(), 3, 1, 900000, 2);
    solver.finish_iteration(vec![vec![0, 2, 1, 3], vec![1, 2, 3, 0], vec![0, 1, 2, 3]]);
    assert_eq!(solver.best_tour, vec![0, 1, 2, 3]);
    assert_eq!(solver.best_score, 4000);
    assert_eq!(solver.history, vec![4000]);
}

#[test]
fn finish_iteration_takes_a_shorter_champion() {
    let mut solver = AcsTspSolver::new(rectangle(), 2, 1, 900000, 2);
    solver.best_tour = vec![0, 1, 4, 3, 2, 5];
    solver.best_score = 7236;
    solver.finish_iteration(vec![vec![0, 2, 1, 3, 4, 5], vec![5, 4, 3, 2, 1, 0]]);
    assert_eq!(solver.best_score, 6000);
    assert_eq!(solver.best_tour, vec![5, 4, 3, 2, 1, 0]);
    assert_eq!(solver.history, vec![6000]);
    assert_eq!(solver.pheromone.level(5, 4), solver.pheromone.level(4, 5));
}

#[test]
fn finish_iteration_without_ants_only_records() {
    let mut solver = AcsTspSolver::new(unit_square(), 0, 1, 900000, 2);
    solver.finish_iteration(vec![]);
    assert_eq!(solver.best_score, 4000);
    assert_eq!(solver.history, vec![4000]);
}
