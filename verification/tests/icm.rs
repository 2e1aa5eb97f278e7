use postflop_solver::icm::normalize_payouts;

#[test]
fn normalize_sorts_descending() {
    assert_eq!(normalize_payouts(&[20, 50, 30], 3), vec![50, 30, 20]);
}

#[test]
fn normalize_pads_with_zero_prizes() {
    assert_eq!(normalize_payouts(&[30, 70], 4), vec![70, 30, 0, 0]);
    assert_eq!(normalize_payouts(&[], 2), vec![0, 0]);
}

#[test]
fn normalize_truncates_to_player_count() {
    assert_eq!(normalize_payouts(&[10, 50, 20, 30], 2), vec![50, 30]);
    assert_eq!(normalize_payouts(&[10, 50], 0), Vec::<i32>::new());
}

#[test]
fn normalize_keeps_equal_prizes() {
    assert_eq!(normalize_payouts(&[25, 50, 25, 50], 5), vec![50, 50, 25, 25, 0]);
}

#[test]
fn normalize_ignores_listing_order() {
    let a = normalize_payouts(&[50, 30, 20], 4);
    let b = normalize_payouts(&[20, 50, 30], 4);
    assert_eq!(a, b);
    assert_eq!(a, vec![50, 30, 20, 0]);
}

#[test]
fn normalize_twice_changes_nothing() {
    let once = normalize_payouts(&[20, 70, 10], 5);
    let twice = normalize_payouts(&once, 5);
    assert_eq!(once, twice);
}

#[test]
fn normalize_negative_prize_sorts_before_padding() {
    // The padding zeros come after every listed prize, including negative ones.
    let once = normalize_payouts(&[-1], 2);
    assert_eq!(once, vec![-1, 0]);
    assert_eq!(normalize_payouts(&once, 2), vec![0, -1]);
}
