use meridian::discover::{exhaustive, rebalances_on, search_split, EXHAUSTIVE_LIMIT, GAP};
use meridian::outliers::{largest_first, merge_groups, report_windows, Flag, BASELINE, RECENT};
use meridian::optimize::{pick_indices, plan_matrix, rate_indices, slice_bounds, MIN_OBS};

/// `n` consecutive day labels starting at day `from`.
fn days(from: usize, n: usize) -> Vec<String> {
    (from..from + n).map(|i| format!("d{i:05}")).collect()
}

fn names(v: &[&str]) -> Vec<String> {
    v.iter().map(|s| s.to_string()).collect()
}

#[test]
fn a_symbol_with_too_little_history_is_left_out_and_named() {
    let want = names(&["LONG", "SHORT"]);
    let ds = vec![Some(days(0, 400)), Some(days(300, 100))];
    let p = plan_matrix(&want, &ds, "");
    assert_eq!(p.kept, vec![0]);
    assert_eq!(p.excluded, vec!["SHORT"]);
    assert_eq!(p.days, days(0, 400));
}

#[test]
fn a_symbol_without_history_or_a_rate_is_left_out() {
    let want = names(&["A", "NOFX", "B"]);
    let ds = vec![Some(days(0, 300)), None, Some(days(0, 300))];
    let p = plan_matrix(&want, &ds, "");
    assert_eq!(p.kept, vec![0, 2]);
    assert_eq!(p.excluded, vec!["NOFX"]);
}

#[test]
fn only_the_days_every_kept_symbol_has_are_shared() {
    let want = names(&["A", "B"]);
    let ds = vec![Some(days(0, 400)), Some(days(50, 400))];
    let p = plan_matrix(&want, &ds, "");
    assert_eq!(p.kept, vec![0, 1]);
    assert_eq!(p.days, days(50, 350));
    assert!(p.excluded.is_empty());
}

#[test]
fn too_few_shared_days_leave_every_symbol_out() {
    let want = names(&["A", "B"]);
    let ds = vec![Some(days(0, 300)), Some(days(200, 300))];
    let p = plan_matrix(&want, &ds, "");
    assert!(p.kept.is_empty() && p.days.is_empty());
    assert_eq!(p.excluded, vec!["A", "B"]);
}

#[test]
fn a_window_excludes_what_does_not_reach_back_to_its_start() {
    let want = names(&["OLD", "NEW"]);
    let ds = vec![Some(days(0, 700)), Some(days(200, 500))];
    let since = "d00100";
    let p = plan_matrix(&want, &ds, since);
    assert_eq!(p.kept, vec![0], "the window survives the late lister");
    assert_eq!(p.excluded, vec!["NEW"]);
    assert_eq!(p.days, days(100, 600));
}

#[test]
fn nothing_usable_gives_an_empty_plan() {
    let p = plan_matrix(&[], &[], "");
    assert!(p.kept.is_empty() && p.days.is_empty() && p.excluded.is_empty());
    assert_eq!(MIN_OBS, 252);
}

#[test]
fn a_slice_is_clamped_to_the_matrix() {
    assert_eq!(slice_bounds(10, 2, 5), (2, 5));
    assert_eq!(slice_bounds(10, 2, 50), (2, 10));
    assert_eq!(slice_bounds(10, 12, 50), (10, 10));
    assert_eq!(slice_bounds(10, 7, 3), (3, 3));
}

#[test]
fn picking_keeps_the_order_asked_and_skips_the_missing() {
    let symbols = names(&["A", "B", "C"]);
    assert_eq!(pick_indices(&symbols, &names(&["C", "X", "A"])), vec![2, 0]);
    assert!(pick_indices(&symbols, &[]).is_empty());
}

#[test]
fn a_search_trains_on_seven_tenths_and_tests_after_a_gap() {
    assert_eq!(search_split(1000, 20, 5), Some((700, 700 + GAP)));
    assert_eq!(search_split(1000, 4, 5), None, "fewer symbols than the basket");
    assert_eq!(search_split(1000, 20, 0), None, "a basket of none");
    assert_eq!(search_split(360, 20, 5), None, "too little training history");
    assert_eq!(search_split(361, 20, 5), None, "252 training days are not more than 252");
    assert_eq!(search_split(370, 20, 5), Some((259, 264)));
}

#[test]
fn the_exhaustive_search_is_kept_to_what_can_be_enumerated() {
    assert!(exhaustive(1));
    assert!(exhaustive(EXHAUSTIVE_LIMIT));
    assert!(!exhaustive(EXHAUSTIVE_LIMIT + 1));
    assert!(!exhaustive(0));
}

#[test]
fn a_missing_rate_is_filled_forward_and_a_day_before_the_rates_is_dropped() {
    let rates = names(&["2026-01-02", "2026-01-05", "2026-01-06"]);
    let days = names(&["2026-01-01", "2026-01-02", "2026-01-03", "2026-01-05", "2026-01-09"]);
    assert_eq!(
        rate_indices(&rates, &days),
        vec![None, Some(0), Some(0), Some(1), Some(2)]
    );
}

#[test]
fn of_two_rates_on_one_day_the_later_listed_is_used() {
    let rates = names(&["2026-01-02", "2026-01-02", "2026-01-01"]);
    assert_eq!(rate_indices(&rates, &names(&["2026-01-03"])), vec![Some(1)]);
    assert_eq!(rate_indices(&rates, &names(&["2026-01-01"])), vec![Some(2)]);
    assert_eq!(rate_indices(&[], &names(&["2026-01-01"])), vec![None]);
}

#[test]
fn a_walk_rebalances_every_period_but_never_at_formation() {
    let due: Vec<usize> = (0..130).filter(|t| rebalances_on(*t, 63)).collect();
    assert_eq!(due, vec![62, 125]);
    assert!(!rebalances_on(0, 1));
    assert!(rebalances_on(1, 1));
}

#[test]
fn the_outlier_windows_are_the_last_quarter_and_the_year_before_it() {
    assert_eq!(report_windows(RECENT + BASELINE - 1), None);
    assert_eq!(report_windows(RECENT + BASELINE), Some((0, BASELINE)));
    assert_eq!(report_windows(1000), Some((1000 - 315, 1000 - 63)));
}

#[test]
fn flags_are_served_by_name() {
    assert_eq!(Flag::Volatility.name(), "volatility");
    assert_eq!(Flag::Decoupling.name(), "decoupling");
    assert_eq!(Flag::Move.name(), "move");
}

#[test]
fn merging_two_groups_keeps_the_members_in_order_and_the_others_in_place() {
    let mut g = vec![vec![0], vec![3, 5], vec![2], vec![1, 4], vec![6]];
    merge_groups(&mut g, 1, 3);
    assert_eq!(g, vec![vec![0], vec![1, 3, 4, 5], vec![2], vec![6]]);
    merge_groups(&mut g, 0, 3);
    assert_eq!(g, vec![vec![0, 6], vec![1, 3, 4, 5], vec![2]]);
}

#[test]
fn groups_are_reported_largest_first_and_a_lone_holding_is_no_group() {
    let g = vec![vec![0, 1], vec![2], vec![3, 4, 5], vec![6, 7], vec![8]];
    assert_eq!(
        largest_first(g),
        vec![vec![3, 4, 5], vec![0, 1], vec![6, 7]],
        "groups of one size keep the order they were found in"
    );
    assert!(largest_first(vec![vec![0], vec![1]]).is_empty());
}
