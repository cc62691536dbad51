use discrete_math::mmath::{gcf, inverse_modn, pulverize, GcfFactors, InverseError};

#[test]
fn test_gcf() {
    assert!(gcf(29, 17) == 1);
    assert!(gcf(29, 24) == 1);
    assert!(gcf(24, 72) == 24);
    assert!(gcf(24, 30) == 6);
    assert!(gcf(15, 95) == 5);

    for a in 2..99 {
        for b in 2..99 {
            assert!(gcf(a, b) > 0);
        }
    }
}

#[test]
fn test_pulversize() {
    let a = 29;
    let b = 24;
    let st: GcfFactors = pulverize(a, b);
    assert!(st.s * a + st.t * b == 1);

    let st: GcfFactors = pulverize(b, a);
    assert!(st.s * b + st.t * a == 1);
}

#[test]
fn test_inverse() {
    let primes = [
        13, 17, 19, 23, 29, 31, 37, 41, 43, 47, 53, 59, 61, 67, 71, 73, 79, 83, 89, 97,
    ];

    for a in 2..99 {
        for n in primes {
            if gcf(a, n) != 1 {
                continue;
            }

            let a_inverse = inverse_modn(a, n).unwrap();
            assert!((a_inverse * a) % n == 1 || (a_inverse * a) % n == (1 - n));
        }
    }
}

#[test]
fn gcf_basics() {
    assert_eq!(gcf(0, 0), 0);
    assert_eq!(gcf(7, 0), 7);
    assert_eq!(gcf(0, -7), 7);
    assert_eq!(gcf(-24, 30), 6);
    assert_eq!(gcf(i32::MIN, 6), 2);
    for a in 0..60 {
        for b in 0..60 {
            let g = gcf(a, b);
            assert_eq!(g, gcf(b, a));
            if g != 0 {
                assert_eq!(a % g, 0);
                assert_eq!(b % g, 0);
            }
        }
    }
}

#[test]
fn bezout_matches_gcf() {
    for a in -40..40 {
        for b in -40..40 {
            let st = pulverize(a, b);
            assert_eq!(st.s * a + st.t * b, gcf(a, b));
        }
    }
    let st = pulverize(0, 5);
    assert_eq!(st.t * 5, 5);
    let st = pulverize(-12, 18);
    assert_eq!(st.s * -12 + st.t * 18, 6);
    let big = pulverize(i32::MAX, i32::MAX - 1);
    assert_eq!(
        big.s as i64 * i32::MAX as i64 + big.t as i64 * (i32::MAX - 1) as i64,
        1
    );
}

#[test]
fn inverse_values_and_errors() {
    assert_eq!(inverse_modn(3, 7), Ok(5));
    assert_eq!(inverse_modn(-3, 7), Ok(2));
    assert_eq!(inverse_modn(10, 7), Ok(5));
    assert_eq!(inverse_modn(i32::MIN, 3), Ok(1));
    assert_eq!(inverse_modn(3, 1), Err(InverseError::Domain));
    assert_eq!(inverse_modn(3, -5), Err(InverseError::Domain));
    assert_eq!(inverse_modn(4, 8), Err(InverseError::NoInverse));
    assert_eq!(inverse_modn(0, 8), Err(InverseError::NoInverse));
    for n in 2..40 {
        for k in 2..n {
            match inverse_modn(k, n) {
                Ok(v) => {
                    assert_eq!(gcf(k, n), 1);
                    assert!(0 <= v && v < n);
                    assert_eq!((v * k) % n, 1);
                }
                Err(e) => {
                    assert_eq!(e, InverseError::NoInverse);
                    assert_ne!(gcf(k, n), 1);
                }
            }
        }
    }
}
