use meridian::discover::{combinations, count_combinations, EXHAUSTIVE_LIMIT};

#[test]
fn combinations_are_every_subset_exactly_once() {
    let c = combinations(5, 3);
    assert_eq!(c.len() as u64, count_combinations(5, 3));
    assert_eq!(c.len(), 10);
    let mut seen = c.clone();
    seen.sort();
    seen.dedup();
    assert_eq!(seen.len(), 10, "duplicates: {c:?}");
    assert!(c.contains(&vec![0, 1, 2]) && c.contains(&vec![2, 3, 4]));
}

#[test]
fn a_greedy_search_is_reported_as_greedy() {
    // Far more candidates than the exhaustive limit allows for a basket of this size.
    assert!(count_combinations(60, 8) > EXHAUSTIVE_LIMIT);
    assert!(count_combinations(20, 3) <= EXHAUSTIVE_LIMIT);
}

#[test]
fn subsets_come_in_lexicographic_order() {
    assert_eq!(
        combinations(4, 2),
        vec![
            vec![0, 1],
            vec![0, 2],
            vec![0, 3],
            vec![1, 2],
            vec![1, 3],
            vec![2, 3]
        ]
    );
}

#[test]
fn no_subsets_of_size_zero_or_larger_than_the_set() {
    assert!(combinations(3, 0).is_empty());
    assert!(combinations(3, 4).is_empty());
    assert_eq!(combinations(3, 3), vec![vec![0, 1, 2]]);
}

#[test]
fn the_count_is_the_binomial_coefficient() {
    assert_eq!(count_combinations(60, 8), 2_558_620_845);
    assert_eq!(count_combinations(20, 3), 1_140);
    assert_eq!(count_combinations(10, 0), 1);
    assert_eq!(count_combinations(4, 5), 0);
    assert_eq!(count_combinations(10, 7), 120);
}

#[test]
fn a_count_too_large_for_u64_saturates_instead_of_wrapping() {
    assert_eq!(count_combinations(200, 100), 184_467_440_737_095_516);
}

#[test]
fn baskets_come_in_lexicographic_order_from_the_first_run_to_the_last() {
    let c = combinations(5, 3);
    assert_eq!(c.first(), Some(&vec![0, 1, 2]));
    assert_eq!(c.last(), Some(&vec![2, 3, 4]));
    for w in c.windows(2) {
        assert!(w[0] < w[1], "{:?} before {:?}", w[0], w[1]);
    }
}
