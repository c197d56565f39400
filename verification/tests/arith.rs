use geom_kernel::arith::{div_round_exec, isqrt_exec, magnitude, mul_wide, product_le,
    sum_of_products_is_nonneg};

#[test]
fn isqrt_of_squares_and_neighbours() {
    assert_eq!(isqrt_exec(0), 0);
    assert_eq!(isqrt_exec(1), 1);
    assert_eq!(isqrt_exec(3), 1);
    assert_eq!(isqrt_exec(4), 2);
    assert_eq!(isqrt_exec(24), 4);
    assert_eq!(isqrt_exec(25), 5);
    assert_eq!(isqrt_exec(1_000_000_000_000), 1_000_000);
    assert_eq!(isqrt_exec(999_999_999_999), 999_999);
}

#[test]
fn isqrt_of_the_largest_word() {
    assert_eq!(isqrt_exec(u128::MAX), u64::MAX);
    let r = u64::MAX as u128;
    assert_eq!(isqrt_exec(r * r), u64::MAX);
    assert_eq!(isqrt_exec(r * r - 1), u64::MAX - 1);
}

#[test]
fn div_round_rounds_to_nearest() {
    assert_eq!(div_round_exec(7, 2), 4);
    assert_eq!(div_round_exec(-7, 2), -4);
    assert_eq!(div_round_exec(5, 3), 2);
    assert_eq!(div_round_exec(4, 3), 1);
    assert_eq!(div_round_exec(-4, 3), -1);
    assert_eq!(div_round_exec(-5, 3), -2);
    assert_eq!(div_round_exec(0, 9), 0);
    assert_eq!(div_round_exec(12, 4), 3);
}

#[test]
fn div_round_sends_halves_away_from_zero() {
    assert_eq!(div_round_exec(1, 2), 1);
    assert_eq!(div_round_exec(-1, 2), -1);
    assert_eq!(div_round_exec(3, 2), 2);
    assert_eq!(div_round_exec(-3, 2), -2);
    assert_eq!(div_round_exec(5, 10), 1);
    assert_eq!(div_round_exec(4, 10), 0);
}

#[test]
fn magnitude_drops_the_sign() {
    assert_eq!(magnitude(-5), 5);
    assert_eq!(magnitude(5), 5);
    assert_eq!(magnitude(0), 0);
    assert_eq!(magnitude(i128::MIN + 1), i128::MAX as u128);
}

#[test]
fn mul_wide_small_products_have_no_high_word() {
    assert_eq!(mul_wide(0, 12345), (0, 0));
    assert_eq!(mul_wide(3, 4), (0, 12));
    assert_eq!(mul_wide(1 << 63, 2), (0, 1 << 64));
    assert_eq!(mul_wide(u64::MAX as u128, u64::MAX as u128), (0, 0xffff_ffff_ffff_fffe_0000_0000_0000_0001));
}

#[test]
fn mul_wide_carries_into_the_high_word() {
    assert_eq!(mul_wide(1 << 64, 1 << 64), (1, 0));
    assert_eq!(mul_wide(1 << 127, 2), (1, 0));
    assert_eq!(mul_wide(u128::MAX, 2), (1, u128::MAX - 1));
    assert_eq!(mul_wide(u128::MAX, u128::MAX), (u128::MAX - 1, 1));
    // (2^64 + 3) * (2^64 + 5) = 2^128 + 8 * 2^64 + 15
    assert_eq!(mul_wide((1 << 64) + 3, (1 << 64) + 5), (1, (8 << 64) + 15));
}

#[test]
fn product_le_compares_beyond_a_word() {
    assert!(product_le(2, 3, 6, 1));
    assert!(product_le(2, 3, 7, 1));
    assert!(!product_le(2, 4, 7, 1));
    assert!(product_le(u128::MAX, u128::MAX - 1, u128::MAX - 1, u128::MAX));
    assert!(!product_le(u128::MAX, u128::MAX, u128::MAX - 1, u128::MAX));
    assert!(product_le(u128::MAX - 1, u128::MAX, u128::MAX, u128::MAX));
    assert!(product_le(0, u128::MAX, 0, 0));
}

#[test]
fn sum_of_products_sign() {
    assert!(sum_of_products_is_nonneg(2, 3, 4, 5));
    assert!(!sum_of_products_is_nonneg(-2, 3, 4, -5));
    assert!(sum_of_products_is_nonneg(-2, 3, 2, 3));
    assert!(!sum_of_products_is_nonneg(-2, 3, 5, 1));
    assert!(sum_of_products_is_nonneg(7, 1, -2, 3));
    assert!(sum_of_products_is_nonneg(0, -9, 0, 9));
    let big: i128 = 1 << 100;
    assert!(sum_of_products_is_nonneg(big, big, -big, big));
    assert!(!sum_of_products_is_nonneg(big, big, -big, big + 1));
    assert!(sum_of_products_is_nonneg(big, big + 1, -big, big));
}
