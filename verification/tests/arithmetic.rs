use inkdrop::arith::{floor_div, floor_sqrt, half_sqrt, round_div, rounded_sqrt};

#[test]
fn square_roots_are_rounded_down() {
    assert_eq!(floor_sqrt(0), 0);
    assert_eq!(floor_sqrt(1), 1);
    assert_eq!(floor_sqrt(3), 1);
    assert_eq!(floor_sqrt(4), 2);
    assert_eq!(floor_sqrt(99), 9);
    assert_eq!(floor_sqrt(100), 10);
    assert_eq!(floor_sqrt(u128::MAX), u64::MAX);
    assert_eq!(floor_sqrt(0xffff_fffe_0000_0001), 0xffff_ffff);
    assert_eq!(floor_sqrt(0xffff_fffe_0000_0000), 0xffff_fffe);
}

#[test]
fn square_roots_are_rounded_to_the_nearest() {
    assert_eq!(rounded_sqrt(0), 0);
    assert_eq!(rounded_sqrt(2), 1);
    assert_eq!(rounded_sqrt(3), 2);
    assert_eq!(rounded_sqrt(6), 2);
    assert_eq!(rounded_sqrt(7), 3);
    assert_eq!(rounded_sqrt(2_000_000), 1414);
    assert_eq!(half_sqrt(100), 5);
    assert_eq!(half_sqrt(81), 5);
    assert_eq!(half_sqrt(80), 4);
    assert_eq!(half_sqrt(u128::MAX), 0x8000_0000_0000_0000);
}

#[test]
fn quotients_are_rounded_down() {
    assert_eq!(floor_div(7, 2), 3);
    assert_eq!(floor_div(-7, 2), -4);
    assert_eq!(floor_div(-8, 2), -4);
    assert_eq!(floor_div(-1, 100_000), -1);
    assert_eq!(floor_div(0, 5), 0);
}

#[test]
fn quotients_are_rounded_to_the_nearest() {
    assert_eq!(round_div(7, 2), 4);
    assert_eq!(round_div(-7, 2), -3);
    assert_eq!(round_div(-9, 2), -4);
    assert_eq!(round_div(10, 4), 3);
    assert_eq!(round_div(9, 4), 2);
    assert_eq!(round_div(-10, 4), -2);
    assert_eq!(round_div(-11, 4), -3);
}
