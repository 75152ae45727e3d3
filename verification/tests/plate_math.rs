use barbell::plate_math::{determine_plate_combos, determine_plates, determine_weight_space, merge, Plate};

fn inventory() -> Vec<Plate> {
    vec![
        Plate { weight: 5, count: 4 },
        Plate { weight: 10, count: 2 },
        Plate { weight: 25, count: 2 },
    ]
}

#[test]
fn selector_picks_greedily_largest_first() {
    // target 100, handle 20: 40 to load on one side -> 25, then 10, then 5.
    let r = determine_plates(Some(100), Some(20), &inventory());
    assert_eq!(r, vec![25, 10, 5]);
    let sum: u64 = r.iter().sum();
    assert!(sum <= 40);
    assert_eq!(sum, 40);
}

#[test]
fn selector_reuses_a_denomination_while_its_count_lasts() {
    // 50 to load, two 25s available: both are taken.
    let r = determine_plates(Some(120), Some(20), &vec![Plate { weight: 25, count: 2 }]);
    assert_eq!(r, vec![25, 25]);
}

#[test]
fn selector_stops_when_the_load_is_met_exactly() {
    let r = determine_plates(Some(30), Some(20), &vec![Plate { weight: 5, count: 4 }]);
    assert_eq!(r, vec![5]);
}

#[test]
fn selector_returns_its_best_partial_result() {
    // 40 to load but only one 5 on hand: no error, just [5].
    let r = determine_plates(Some(100), Some(20), &vec![Plate { weight: 5, count: 1 }]);
    assert_eq!(r, vec![5]);
}

#[test]
fn selector_with_target_at_or_below_handle_selects_nothing() {
    let r = determine_plates(Some(20), Some(20), &inventory());
    assert_eq!(r, Vec::<u64>::new());
    let r = determine_plates(Some(10), Some(20), &inventory());
    assert_eq!(r, Vec::<u64>::new());
}

#[test]
fn selector_degrades_to_empty_on_absent_or_empty_input() {
    assert_eq!(determine_plates(None, Some(20), &inventory()), Vec::<u64>::new());
    assert_eq!(determine_plates(Some(100), None, &inventory()), Vec::<u64>::new());
    assert_eq!(determine_plates(Some(100), Some(20), &Vec::new()), Vec::<u64>::new());
}

#[test]
fn combos_of_an_empty_list_is_the_empty_load() {
    assert_eq!(determine_plate_combos(&Vec::new(), 0), vec![0]);
}

#[test]
fn combos_enumerates_all_pair_sums() {
    // 2*5 = 10, 2*10 = 20, 2*5 + 2*10 = 30.
    assert_eq!(determine_plate_combos(&vec![5, 10], 0), vec![0, 10, 20, 30]);
}

#[test]
fn combos_pivot_skips_the_largest_denominations() {
    assert_eq!(determine_plate_combos(&vec![5, 10], 1), vec![0, 10]);
    assert_eq!(determine_plate_combos(&vec![5, 10], 2), vec![0]);
}

#[test]
fn combos_always_starts_with_zero() {
    for plates in [vec![3], vec![5, 10], vec![5, 10, 25], vec![1, 2, 4, 8]] {
        let r = determine_plate_combos(&plates, 0);
        assert_eq!(r[0], 0);
    }
}

#[test]
fn combos_is_strictly_ascending() {
    let r = determine_plate_combos(&vec![5, 10, 25, 35], 0);
    for w in r.windows(2) {
        assert!(w[0] < w[1]);
    }
}

#[test]
fn combos_length_is_at_most_two_to_the_denomination_count() {
    for plates in [vec![], vec![5], vec![5, 5], vec![5, 10, 25], vec![5, 10, 15, 25]] {
        let n = plates.len();
        let r = determine_plate_combos(&plates, 0);
        assert!(r.len() <= 1usize << n);
    }
}

#[test]
fn combos_collapses_equal_sums() {
    // Both denominations load 10; the sums {0, 10, 20} appear once each.
    assert_eq!(determine_plate_combos(&vec![5, 5], 0), vec![0, 10, 20]);
}

#[test]
fn weight_space_is_the_combos_plus_the_handle() {
    assert_eq!(determine_weight_space(Some(20), &vec![5, 10]), vec![20, 30, 40, 50]);
}

#[test]
fn weight_space_of_a_bare_bar_is_the_handle_alone() {
    assert_eq!(determine_weight_space(Some(20), &Vec::new()), vec![20]);
}

#[test]
fn weight_space_without_a_handle_is_empty() {
    assert_eq!(determine_weight_space(None, &vec![5, 10]), Vec::<u64>::new());
}

#[test]
fn merge_collapses_a_value_present_on_both_sides() {
    assert_eq!(merge(&vec![0, 10, 20], &vec![10, 30, 40]), vec![0, 10, 20, 30, 40]);
}

#[test]
fn merge_interleaves_disjoint_sides() {
    assert_eq!(merge(&vec![1, 4, 9], &vec![2, 3, 11]), vec![1, 2, 3, 4, 9, 11]);
    assert_eq!(merge(&Vec::new(), &vec![2, 3]), vec![2, 3]);
    assert_eq!(merge(&vec![2, 3], &Vec::new()), vec![2, 3]);
}

#[test]
fn every_function_is_pure_across_repeated_calls() {
    let inv = inventory();
    assert_eq!(
        determine_plates(Some(100), Some(20), &inv),
        determine_plates(Some(100), Some(20), &inv)
    );
    let plates = vec![5, 10, 25];
    assert_eq!(
        determine_plate_combos(&plates, 0),
        determine_plate_combos(&plates, 0)
    );
    assert_eq!(
        determine_weight_space(Some(20), &plates),
        determine_weight_space(Some(20), &plates)
    );
    assert_eq!(
        merge(&vec![0, 10], &vec![5, 10]),
        merge(&vec![0, 10], &vec![5, 10])
    );
}
