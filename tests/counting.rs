use discrete_math::counting::{
    distinct_balls_to_distict_cells, distinct_balls_to_indistict_cells, factorial,
    indistinct_balls_to_distict_cells, r_combination, r_combination_replacement, r_permutation,
    r_permutation_replacement, sterling,
};

#[test]
fn test_counting_rules() {
    assert!(factorial(5) == 120);
    assert!(r_combination(9, 3) == 84);
    assert!(r_combination(9, 6) == 84);
    assert!(r_combination(5, 3) == 10);
    assert!(r_combination(7, 5) == 21);
    assert!(r_permutation(10, 4) == 5040);
    assert!(r_permutation_replacement(4, 2) == 16);
    assert!(sterling(5, 1) == 1);
    assert!(sterling(3, 2) == 3);
}

#[test]
fn factorial_edges_and_largest() {
    assert_eq!(factorial(0), 1);
    assert_eq!(factorial(1), 1);
    assert_eq!(factorial(20), 2432902008176640000);
}

#[test]
fn combination_edges() {
    assert_eq!(r_combination(7, 0), 1);
    assert_eq!(r_combination(7, 7), 1);
    assert_eq!(r_combination(0, 0), 1);
    assert_eq!(r_combination(3, 5), 0);
    assert_eq!(r_combination(25, 12), 5200300);
    assert_eq!(r_combination(29, 14), 77558760);
}

#[test]
fn combination_symmetry_and_pascal() {
    for n in 0..30u64 {
        for r in 0..=n {
            assert_eq!(r_combination(n, r), r_combination(n, n - r));
            if 0 < r && r < n {
                assert_eq!(
                    r_combination(n, r),
                    r_combination(n - 1, r - 1) + r_combination(n - 1, r)
                );
            }
        }
    }
}

#[test]
fn permutation_is_combination_times_factorial() {
    for n in 0..15u64 {
        for r in 0..=n {
            assert_eq!(r_permutation(n, r), r_combination(n, r) * factorial(r));
        }
    }
    assert_eq!(r_permutation(10, 6), 151200);
    assert_eq!(r_permutation(3, 4), 0);
    assert_eq!(r_permutation(5, 0), 1);
}

#[test]
fn replacement_counts() {
    assert_eq!(r_permutation_replacement(0, 0), 1);
    assert_eq!(r_permutation_replacement(0, 3), 0);
    assert_eq!(r_permutation_replacement(1, 1000), 1);
    assert_eq!(r_permutation_replacement(2, 63), 1u64 << 63);
    assert_eq!(r_combination_replacement(3, 2), 6);
    assert_eq!(r_combination_replacement(0, 0), 1);
    assert_eq!(r_combination_replacement(0, 4), 0);
    assert_eq!(r_combination_replacement(5, 0), 1);
}

#[test]
fn stirling_values_and_edges() {
    assert_eq!(sterling(0, 0), 1);
    assert_eq!(sterling(4, 0), 0);
    assert_eq!(sterling(10, 5), 42525);
    assert_eq!(sterling(4, 2), 7);
    for n in 1..12u64 {
        assert_eq!(sterling(n, 1), 1);
        assert_eq!(sterling(n, n), 1);
        assert_eq!(sterling(n, n + 3), 0);
    }
}

#[test]
fn occupancy_distinct_into_distinct() {
    assert_eq!(distinct_balls_to_distict_cells(3, 2, true), 8);
    assert_eq!(distinct_balls_to_distict_cells(3, 2, false), 6);
    assert_eq!(distinct_balls_to_distict_cells(2, 3, false), 0);
    for n in 0..8u64 {
        for k in 0..6u64 {
            assert_eq!(
                distinct_balls_to_distict_cells(n, k, true),
                r_permutation_replacement(k, n)
            );
            assert_eq!(
                distinct_balls_to_distict_cells(n, k, false),
                factorial(k) * sterling(n, k)
            );
        }
    }
}

#[test]
fn occupancy_indistinct_into_distinct() {
    assert_eq!(indistinct_balls_to_distict_cells(5, 3, true), 21);
    assert_eq!(indistinct_balls_to_distict_cells(5, 3, false), 6);
    assert_eq!(indistinct_balls_to_distict_cells(0, 0, false), 1);
    assert_eq!(indistinct_balls_to_distict_cells(0, 2, false), 0);
    assert_eq!(indistinct_balls_to_distict_cells(3, 0, false), 0);
    assert_eq!(indistinct_balls_to_distict_cells(2, 0, true), 0);
}

#[test]
fn occupancy_distinct_into_indistinct() {
    assert_eq!(distinct_balls_to_indistict_cells(4, 2, true), 8);
    assert_eq!(distinct_balls_to_indistict_cells(4, 2, false), 7);
    assert_eq!(distinct_balls_to_indistict_cells(4, 9, true), 15);
    assert_eq!(distinct_balls_to_indistict_cells(3, 0, false), 0);
    assert_eq!(distinct_balls_to_indistict_cells(0, 0, false), 1);
}
