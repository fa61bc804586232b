use keyword_rank::window::get_window_range;

#[test]
fn window_clamps_at_start() {
    assert_eq!(get_window_range(2, 0, 5), 0..3);
}

#[test]
fn window_clamps_at_end() {
    assert_eq!(get_window_range(2, 4, 5), 2..5);
}

#[test]
fn window_in_the_middle() {
    assert_eq!(get_window_range(1, 2, 5), 1..4);
}

#[test]
fn window_of_radius_zero() {
    assert_eq!(get_window_range(0, 3, 5), 3..4);
}

#[test]
fn window_does_not_overflow() {
    assert_eq!(get_window_range(usize::MAX, 3, 5), 0..5);
}
