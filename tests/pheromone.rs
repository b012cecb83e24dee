use acs_tsp::pheromone::{deposit_level, initial_level, PheromoneField, TAU_ONE};

#[test]
fn uniform_start() {
    let field = PheromoneField::new(3, 1000);
    for i in 0..3 {
        for j in 0..3 {
            assert_eq!(field.level(i, j), 1000);
        }
    }
}

#[test]
fn local_update_decays_toward_baseline() {
    let mut field = PheromoneField::new(3, 1000);
    field.evaporate_toward(0, 1, 2000);
    assert_eq!(field.level(0, 1), 1100);
    assert_eq!(field.level(1, 0), 1100);
    field.local_update(0, 1);
    assert_eq!(field.level(0, 1), 1090);
    assert_eq!(field.level(1, 0), 1090);
    field.local_update(1, 2);
    assert_eq!(field.level(1, 2), 1000);
    assert_eq!(field.level(0, 2), 1000);
}

#[test]
fn global_update_reinforces_tour_edges() {
    let mut field = PheromoneField::new(3, 1000);
    field.evaporate_toward(0, 1, 2000);
    field.local_update(0, 1);
    field.global_update(&vec![0, 1, 2], 3);
    assert_eq!(field.level(0, 1), 38430716820229213);
    assert_eq!(field.level(1, 2), 38430716820229132);
    assert_eq!(field.level(2, 0), 38430716820229132);
    for i in 0..3 {
        for j in 0..3 {
            assert_eq!(field.level(i, j), field.level(j, i));
        }
    }
    assert_eq!(field.level(1, 1), 1000);
}

#[test]
fn baseline_and_deposit_levels() {
    assert_eq!(initial_level(4, 4000), 72057594037927);
    assert_eq!(initial_level(0, 4000), TAU_ONE);
    assert_eq!(initial_level(1, 0), TAU_ONE);
    assert_eq!(deposit_level(4), 288230376151711744);
    assert_eq!(deposit_level(0), TAU_ONE);
}
