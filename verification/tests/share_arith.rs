use search_rl::share::{rounded_quotient, share_of, share_mul, share_pow, share_root, FINE};

const HALF: u128 = FINE / 2;

#[test]
fn fine_scale_is_two_to_the_62() {
    assert_eq!(FINE, 1u128 << 62);
}

#[test]
fn share_of_rounds_down() {
    assert_eq!(share_of(1, 1), FINE);
    assert_eq!(share_of(0, 7), 0);
    assert_eq!(share_of(1, 2), HALF);
    assert_eq!(share_of(1, 8), FINE / 8);
    assert_eq!(share_of(1, 3), (FINE - 1) / 3);
    assert_eq!(share_of(usize::MAX, usize::MAX), FINE);
    assert_eq!(share_of(usize::MAX - 1, usize::MAX), FINE - 1);
}

#[test]
fn share_mul_rounds_down() {
    assert_eq!(share_mul(FINE, FINE), FINE);
    assert_eq!(share_mul(HALF, HALF), FINE / 4);
    assert_eq!(share_mul(FINE, 12_345), 12_345);
    assert_eq!(share_mul(0, FINE), 0);
    assert_eq!(share_mul(1, HALF), 0);
    assert_eq!(share_mul(3, HALF), 1);
}

#[test]
fn share_pow_multiplies_repeatedly() {
    assert_eq!(share_pow(HALF, 0), FINE);
    assert_eq!(share_pow(0, 0), FINE);
    assert_eq!(share_pow(0, 3), 0);
    assert_eq!(share_pow(HALF, 1), HALF);
    assert_eq!(share_pow(HALF, 2), FINE / 4);
    assert_eq!(share_pow(HALF, 62), 1);
    assert_eq!(share_pow(HALF, 63), 0);
    assert_eq!(share_pow(FINE, 1_000), FINE);
    assert_eq!(share_pow(FINE / 8, 2), FINE / 64);
}

#[test]
fn share_root_is_the_smallest_share_whose_power_reaches() {
    assert_eq!(share_root(FINE / 4, 2), HALF);
    assert_eq!(share_root(FINE / 8, 3), HALF);
    assert_eq!(share_root(FINE / 64, 3), FINE / 4);
    assert_eq!(share_root(HALF, 1), HALF);
    assert_eq!(share_root(0, 3), 0);
    assert_eq!(share_root(FINE, 7), FINE);
    for x in [1u128, 77, 1 << 40, FINE / 3, FINE - 1] {
        for q in [2u32, 3, 5] {
            let r = share_root(x, q);
            assert!(share_pow(r, q) >= x);
            assert!(share_pow(r - 1, q) < x);
        }
    }
}

#[test]
fn rounded_quotient_rounds_to_the_nearest() {
    assert_eq!(rounded_quotient(0, 5), 0);
    assert_eq!(rounded_quotient(7, 2), 4);
    assert_eq!(rounded_quotient(5, 2), 3);
    assert_eq!(rounded_quotient(4, 3), 1);
    assert_eq!(rounded_quotient(5, 3), 2);
    assert_eq!(rounded_quotient(1_000_000, 4), 250_000);
    assert_eq!(rounded_quotient(1_000_000, 3), 333_333);
    assert_eq!(rounded_quotient(2_000_000, 3), 666_667);
    assert_eq!(rounded_quotient(u128::MAX, 1), u128::MAX);
    assert_eq!(rounded_quotient(u128::MAX, u128::MAX), 1);
    assert_eq!(rounded_quotient(u128::MAX - 1, u128::MAX), 1);
    assert_eq!(rounded_quotient(u128::MAX / 2, u128::MAX), 0);
    assert_eq!(rounded_quotient(u128::MAX / 2 + 1, u128::MAX), 1);
}
