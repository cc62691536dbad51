use discrete_math::counting::{
    checked_factorial, checked_r_combination, checked_r_permutation,
    checked_r_permutation_replacement, checked_sterling,
};

#[test]
fn checked_factorial_bounds() {
    assert_eq!(checked_factorial(0), Some(1));
    assert_eq!(checked_factorial(5), Some(120));
    assert_eq!(checked_factorial(20), Some(2432902008176640000));
    assert_eq!(checked_factorial(21), None);
    assert_eq!(checked_factorial(u64::MAX), None);
}

#[test]
fn checked_permutation_bounds() {
    assert_eq!(checked_r_permutation(10, 4), Some(5040));
    assert_eq!(checked_r_permutation(3, 5), Some(0));
    assert_eq!(checked_r_permutation(100, 20), None);
}

#[test]
fn checked_combination_bounds() {
    assert_eq!(checked_r_combination(9, 3), Some(84));
    assert_eq!(checked_r_combination(25, 12), Some(5200300));
    assert_eq!(checked_r_combination(3, 5), Some(0));
    assert_eq!(checked_r_combination(62, 31), None);
    assert_eq!(checked_r_combination(u64::MAX, 1), Some(u64::MAX));
}

#[test]
fn checked_power_bounds() {
    assert_eq!(checked_r_permutation_replacement(4, 2), Some(16));
    assert_eq!(checked_r_permutation_replacement(2, 63), Some(1u64 << 63));
    assert_eq!(checked_r_permutation_replacement(2, 64), None);
    assert_eq!(checked_r_permutation_replacement(1, u64::MAX), Some(1));
    assert_eq!(checked_r_permutation_replacement(0, 0), Some(1));
    assert_eq!(checked_r_permutation_replacement(0, 7), Some(0));
}

#[test]
fn checked_stirling_bounds() {
    assert_eq!(checked_sterling(10, 5), Some(42525));
    assert_eq!(checked_sterling(3, 2), Some(3));
    assert_eq!(checked_sterling(1, 25), Some(0));
    assert_eq!(checked_sterling(25, 22), None);
    assert_eq!(checked_sterling(30, 10), None);
}
