use acs_tsp::candidates::{build_candidates, nearest_neighbours};
use acs_tsp::tsp_data::TspData;

fn line() -> TspData {
    TspData::new(vec![(0, 0), (10, 0), (30, 0), (60, 0)])
}

#[test]
fn nearest_first() {
    let data = line();
    assert_eq!(nearest_neighbours(&data, 1, 30), vec![0, 2, 3]);
    assert_eq!(nearest_neighbours(&data, 0, 2), vec![1, 2]);
    assert_eq!(nearest_neighbours(&data, 3, 1), vec![2]);
    assert_eq!(nearest_neighbours(&data, 2, 0), Vec::<usize>::new());
}

#[test]
fn ties_broken_by_index() {
    let data = TspData::new(vec![(0, 0), (-5, 0), (5, 0), (0, 5)]);
    assert_eq!(nearest_neighbours(&data, 0, 3), vec![1, 2, 3]);
    assert_eq!(nearest_neighbours(&data, 0, 2), vec![1, 2]);
}

#[test]
fn lists_hold_min_of_k_and_n_minus_one() {
    let data = line();
    let lists = build_candidates(&data, 30);
    assert_eq!(lists.len(), 4);
    for (i, list) in lists.iter().enumerate() {
        assert_eq!(list.len(), 3);
        assert!(!list.contains(&i));
        for w in list.windows(2) {
            assert!(data.dist(i, w[0]) <= data.dist(i, w[1]));
        }
    }
    let short = build_candidates(&data, 2);
    for list in short.iter() {
        assert_eq!(list.len(), 2);
    }
}

#[test]
fn single_city_has_no_candidates() {
    let data = TspData::new(vec![(4, 4)]);
    let lists = build_candidates(&data, 30);
    assert_eq!(lists, vec![Vec::<usize>::new()]);
}
