use ant_trace::cli::{Cli, Command};
use ant_trace::digits::DigitSum;
use ant_trace::point::Point;
use ant_trace::region::calc_points_impl;

#[test]
fn test_digit_sum_u32() {
    assert_eq!(40, 28282828.digit_sum());
    assert_eq!(0, 0.digit_sum());
    assert_eq!(40, (-28282828).digit_sum());
}

#[test]
fn test_digit_sum_point() {
    assert_eq!(40, Point::new(2828, 2828).digit_sum());
    assert_eq!(40, Point::new(2828, -2828).digit_sum());
    assert_eq!(20, Point::new(0, -2828).digit_sum());
}

#[test]
fn test_inc_point() {
    assert_eq!(Point::new(1, 1), Point::default().inc(1, 1));
    assert_eq!(Point::new(0, 0), Point::default().inc(0, 0));
    assert_eq!(Point::new(0, 5), Point::default().inc(0, 5));
    assert_eq!(Point::new(15, -100), Point::new(25, -105).inc(-10, 5));
}

#[test]
fn test_inc_point_combines() {
    // moving twice comes to the same as one move by the combined offset
    assert_eq!(
        Point::new(25, -105).inc(-6, 2).inc(-4, 3),
        Point::new(25, -105).inc(-10, 5)
    );
}

#[test]
fn test_calc_points() {
    assert_eq!(25, calc_points_impl(Point::new(0, 0), 3));
}

#[test]
fn test_digit_sum_sign_invariance() {
    for n in [1, 7, 10, 909, 123456789, i32::MAX] {
        assert_eq!(n.digit_sum(), (-n).digit_sum());
    }
}

#[test]
fn test_digit_sum_point_additive() {
    assert_eq!(
        Point::new(707, -55).digit_sum(),
        707.digit_sum() + (-55).digit_sum()
    );
    assert_eq!(
        Point::new(-4, 90210).digit_sum(),
        (-4).digit_sum() + 90210.digit_sum()
    );
}

#[test]
fn test_calc_points_unreachable_start() {
    // the start's digit sum 54 already exceeds the limit: nothing is counted
    assert_eq!(0, calc_points_impl(Point::new(999, 999), 3));
}

#[test]
fn test_calc_points_start_only() {
    // limit 0 admits the origin and nothing next to it
    assert_eq!(1, calc_points_impl(Point::new(0, 0), 0));
}

#[test]
fn test_calc_points_idempotent() {
    let first = calc_points_impl(Point::new(2, -1), 5);
    let second = calc_points_impl(Point::new(2, -1), 5);
    assert_eq!(first, second);
}

#[test]
fn test_calc_points_monotonic() {
    let under_two = calc_points_impl(Point::new(0, 0), 2);
    let under_three = calc_points_impl(Point::new(0, 0), 3);
    assert!(under_two <= under_three);
    assert_eq!(25, under_three);
}

#[test]
fn test_point_from_text() {
    assert_eq!(Some(Point::new(25, -105)), Point::from_text(b"25:-105"));
    assert_eq!(Some(Point::new(0, 0)), Point::from_text(b"0:0"));
    assert_eq!(
        Some(Point::new(i32::MAX, i32::MIN)),
        Point::from_text(b"+2147483647:-2147483648")
    );
    assert_eq!(Some(Point::new(7, 0)), Point::from_text(b"007:-0"));
}

#[test]
fn test_point_from_text_rejects() {
    assert_eq!(None, Point::from_text(b""));
    assert_eq!(None, Point::from_text(b"12"));
    assert_eq!(None, Point::from_text(b"1:2:3"));
    assert_eq!(None, Point::from_text(b"1:"));
    assert_eq!(None, Point::from_text(b":2"));
    assert_eq!(None, Point::from_text(b"a:2"));
    assert_eq!(None, Point::from_text(b"1:+"));
    assert_eq!(None, Point::from_text(b"1: 2"));
    assert_eq!(None, Point::from_text(b"2147483648:0"));
    assert_eq!(None, Point::from_text(b"-2147483649:0"));
}

#[test]
fn test_execute_start() {
    let cli = Cli {
        command: Some(Command::Start { from: Point::new(0, 0), dig_sum_limit: 3 }),
    };
    assert_eq!(Some(25), cli.execute());
}

#[test]
fn test_execute_no_command() {
    let cli = Cli { command: None };
    assert_eq!(None, cli.execute());
}
