use search_rl::value::{gcd, Value, SCALE};

fn v(micros: i64) -> Value {
    Value::from_micros(micros)
}

#[test]
fn constants_and_round_trip() {
    assert_eq!(SCALE, 1_000_000);
    assert_eq!(Value::zero().micros(), 0);
    assert_eq!(Value::one().micros(), 1_000_000);
    assert_eq!(v(-42).micros(), -42);
    assert_eq!(v(7), Value { micros: 7 });
}

#[test]
fn add_is_exact_and_saturates() {
    assert_eq!(v(1_500_000).add(v(2_250_000)), v(3_750_000));
    assert_eq!(v(1_000_000).add(v(-1_000_000)), v(0));
    assert_eq!(v(i64::MAX).add(v(1)), v(i64::MAX));
    assert_eq!(v(i64::MIN).add(v(-1)), v(i64::MIN));
}

#[test]
fn neg_is_exact_and_saturates() {
    assert_eq!(v(1_000_000).neg(), v(-1_000_000));
    assert_eq!(v(-100_000).neg(), v(100_000));
    assert_eq!(v(0).neg(), v(0));
    assert_eq!(v(i64::MIN).neg(), v(i64::MAX));
}

#[test]
fn mul_rounds_toward_zero_and_saturates() {
    assert_eq!(v(1_500_000).mul(v(2_000_000)), v(3_000_000));
    assert_eq!(v(333_333).mul(v(333_333)), v(111_110));
    assert_eq!(v(-1).mul(v(500_000)), v(0));
    assert_eq!(v(-3_000_000).mul(v(500_000)), v(-1_500_000));
    assert_eq!(v(i64::MAX).mul(v(i64::MAX)), v(i64::MAX));
    assert_eq!(v(i64::MIN).mul(v(i64::MAX)), v(i64::MIN));
}

#[test]
fn div_count_rounds_toward_zero() {
    assert_eq!(v(10).div_count(3), v(3));
    assert_eq!(v(-10).div_count(3), v(-3));
    assert_eq!(v(3_000_000).div_count(4), v(750_000));
    assert_eq!(v(5).div_count(usize::MAX), v(0));
}

#[test]
fn ratio_rounds_down_and_saturates() {
    assert_eq!(Value::ratio(1, 3), v(333_333));
    assert_eq!(Value::ratio(2, 2), v(1_000_000));
    assert_eq!(Value::ratio(0, 5), v(0));
    assert_eq!(Value::ratio(7, 2), v(3_500_000));
    assert_eq!(Value::ratio(usize::MAX, 1), v(i64::MAX));
}

#[test]
fn sqrt_count_rounds_down() {
    assert_eq!(Value::sqrt_count(0), v(0));
    assert_eq!(Value::sqrt_count(1), v(1_000_000));
    assert_eq!(Value::sqrt_count(2), v(1_414_213));
    assert_eq!(Value::sqrt_count(4), v(2_000_000));
    assert_eq!(Value::sqrt_count(10), v(3_162_277));
    let root = Value::sqrt_count(usize::MAX).micros() as i128;
    let square = (usize::MAX as i128) * 1_000_000_000_000;
    assert!(root * root <= square);
    assert!((root + 1) * (root + 1) > square);
}

#[test]
fn gcd_is_the_greatest_common_divisor() {
    assert_eq!(gcd(12, 18), 6);
    assert_eq!(gcd(18, 12), 6);
    assert_eq!(gcd(10, 1000), 10);
    assert_eq!(gcd(7, 13), 1);
    assert_eq!(gcd(5, 0), 5);
    assert_eq!(gcd(0, 5), 5);
    assert_eq!(gcd(0, 0), 0);
    assert_eq!(gcd(u32::MAX, u32::MAX), u32::MAX);
}
