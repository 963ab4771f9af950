//! Tests for the fixed-point scalar helpers.

use nbody_gravity::fixed::{icbrt_u128, isqrt_u128, sat_limit, tdiv_i128, tdiv_i64, LIMIT, SCALE};

#[test]
fn test_isqrt_values() {
    assert_eq!(0, isqrt_u128(0));
    assert_eq!(1, isqrt_u128(1));
    assert_eq!(4, isqrt_u128(24));
    assert_eq!(5, isqrt_u128(25));
    assert_eq!(5_000_000, isqrt_u128(25_000_000_000_000));
    assert_eq!(u64::MAX as u128, isqrt_u128(u128::MAX));
}

#[test]
fn test_icbrt_values() {
    assert_eq!(0, icbrt_u128(0));
    assert_eq!(2, icbrt_u128(26));
    assert_eq!(3, icbrt_u128(27));
    assert_eq!(10_000, icbrt_u128(1_000_000_000_000));
}

#[test]
fn test_tdiv_truncates_toward_zero() {
    assert_eq!(3, tdiv_i128(7, 2));
    assert_eq!(-3, tdiv_i128(-7, 2));
    assert_eq!(0, tdiv_i64(-1, 2));
    assert_eq!(1_000_000, tdiv_i64(SCALE, 1));
}

#[test]
fn test_sat_limit_clamps() {
    assert_eq!(5, sat_limit(5));
    assert_eq!(-5, sat_limit(-5));
    assert_eq!(LIMIT, sat_limit((LIMIT as i128) + 1));
    assert_eq!(-LIMIT, sat_limit(-(LIMIT as i128) - 1));
}
