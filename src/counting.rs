//! Counting kernel: selections, occupancy counts and Stirling numbers.
use vstd::prelude::*;
use crate::binomial::{
    binom, fact, falling, lemma_binom_positive, lemma_binom_symmetric, lemma_fact_monotone,
    lemma_fact_positive, lemma_falling_binom, lemma_falling_prefix_bound, lemma_npow_monotone,
    lemma_falling_le_fact, lemma_npow_one, lemma_npow_zero, min_nat, multichoose, npow,
};
use crate::stirling::{
    lemma_alt_sum, lemma_parity_split, lemma_parity_sum_monotone, lemma_stirling_zero_above,
    lemma_stirling_prefix_flat, lemma_stirling_prefix_monotone, parity_sum, stirling2,
    stirling_in_range, stirling_prefix,
};

verus! {

/// Ways to put `n` distinct balls into `k` distinct cells: `k^n`, or
/// `k! S(n, k)` when no cell may stay empty.
pub open spec fn distinct_into_distinct(n: nat, k: nat, allow_empty: bool) -> nat {
    if allow_empty {
        npow(k, n)
    } else {
        fact(k) * stirling2(n, k)
    }
}

/// Ways to put `n` identical balls into `k` distinct cells:
/// `C(n + k - 1, n)`, or `C(n - 1, k - 1)` when no cell may stay empty
/// (1 for no balls and no cells, 0 if only one of them is zero).
pub open spec fn indistinct_into_distinct(n: nat, k: nat, allow_empty: bool) -> nat {
    if allow_empty {
        multichoose(k, n)
    } else if n == 0 && k == 0 {
        1
    } else if n == 0 || k == 0 {
        0
    } else {
        binom((n - 1) as nat, (k - 1) as nat)
    }
}

/// Ways to put `n` distinct balls into `k` identical cells:
/// `S(n, 1) + ... + S(n, k)`, or `S(n, k)` when no cell may stay empty.
pub open spec fn distinct_into_indistinct(n: nat, k: nat, allow_empty: bool) -> nat {
    if allow_empty {
        stirling_prefix(n, k)
    } else {
        stirling2(n, k)
    }
}

/// What `r_combination(n, r)` needs of a `u64`: the product
/// `n (n-1) ... (n-r'+1)`, `r' = min(r, n - r)`, fits.
pub open spec fn binom_in_range(n: nat, r: nat) -> bool {
    r <= n ==> falling(n, min_nat(r, (n - r) as nat)) <= u64::MAX
}


/// `n!`. The result must fit in a `u64` (so `n <= 20`).
pub fn factorial(n: u64) -> (r: u64)
    requires
        fact(n as nat) <= u64::MAX,
    ensures
        r == fact(n as nat),
{
    let mut f: u64 = 1;
    let mut i: u64 = 0;
    while i < n
        invariant
            i <= n,
            f == fact(i as nat),
            fact(n as nat) <= u64::MAX,
        decreases n - i,
    {
        i = i + 1;
        proof {
            lemma_fact_monotone(i as nat, n as nat);
            assert(f * i == fact(i as nat)) by (nonlinear_arith)
                requires
                    fact(i as nat) == i * fact((i - 1) as nat),
                    f == fact((i - 1) as nat),
            ;
        }
        f = f * i;
    }
    f
}

/// `C(n, r)`: the number of `r`-element subsets of an `n`-element set.
/// It is 0 when `n < r`. The product `n (n-1) ... (n-r'+1)` with
/// `r' = min(r, n - r)` is formed on the way and must fit in a `u64`.
pub fn r_combination(n: u64, r: u64) -> (c: u64)
    requires
        binom_in_range(n as nat, r as nat),
    ensures
        c == binom(n as nat, r as nat),
{
    if n < r {
        proof {
            crate::binomial::lemma_binom_zero_above(n as nat, r as nat);
        }
        return 0;
    }
    proof {
        lemma_binom_symmetric(n as nat, r as nat);
    }
    let m: u64 = if r < n - r {
        r
    } else {
        n - r
    };
    let ghost top = falling(n as nat, m as nat);
    let mut num: u64 = 1;
    let mut i: u64 = 0;
    while i < m
        invariant
            m <= n,
            i <= m,
            num == falling((n - m + i) as nat, i as nat),
            top == falling(n as nat, m as nat),
            top <= u64::MAX,
        decreases m - i,
    {
        i = i + 1;
        proof {
            lemma_falling_prefix_bound((n - m + i) as nat, i as nat, (m - i) as nat);
            let prev = falling((n - m + i - 1) as nat, (i - 1) as nat);
            assert(falling((n - m + i) as nat, i as nat) == (n - m + i) * prev);
            assert(num * (n - m + i) == (n - m + i) * num) by (nonlinear_arith);
        }
        num = num * (n - m + i);
    }
    proof {
        lemma_falling_binom(n as nat, m as nat);
        lemma_binom_positive(n as nat, m as nat);
        lemma_fact_positive(m as nat);
        assert(fact(m as nat) <= top) by (nonlinear_arith)
            requires
                top == binom(n as nat, m as nat) * fact(m as nat),
                binom(n as nat, m as nat) >= 1,
        ;
    }
    let den = factorial(m);
    proof {
        vstd::arithmetic::div_mod::lemma_div_multiples_vanish(
            binom(n as nat, m as nat) as int,
            den as int,
        );
        assert(binom(n as nat, m as nat) * fact(m as nat) == fact(m as nat) * binom(
            n as nat,
            m as nat,
        )) by (nonlinear_arith);
    }
    num / den
}

/// `P(n, r) = n (n-1) ... (n-r+1)`: ordered selections of `r` distinct items
/// out of `n`; 0 when `n < r`. The result must fit in a `u64`.
pub fn r_permutation(n: u64, r: u64) -> (p: u64)
    requires
        falling(n as nat, r as nat) <= u64::MAX,
    ensures
        p == falling(n as nat, r as nat),
{
    if n < r {
        proof {
            crate::binomial::lemma_falling_zero_above(n as nat, r as nat);
        }
        return 0;
    }
    let mut p: u64 = 1;
    let mut i: u64 = 0;
    while i < r
        invariant
            r <= n,
            i <= r,
            p == falling((n - r + i) as nat, i as nat),
            falling(n as nat, r as nat) <= u64::MAX,
        decreases r - i,
    {
        i = i + 1;
        proof {
            lemma_falling_prefix_bound((n - r + i) as nat, i as nat, (r - i) as nat);
            let prev = falling((n - r + i - 1) as nat, (i - 1) as nat);
            assert(falling((n - r + i) as nat, i as nat) == (n - r + i) * prev);
            assert(p * (n - r + i) == (n - r + i) * p) by (nonlinear_arith);
        }
        p = p * (n - r + i);
    }
    p
}

/// `n^r`: ordered selections of `r` items out of `n` kinds with repetition,
/// with `0^0 = 1`. The result must fit in a `u64`.
pub fn r_permutation_replacement(n: u64, r: u64) -> (p: u64)
    requires
        npow(n as nat, r as nat) <= u64::MAX,
    ensures
        p == npow(n as nat, r as nat),
{
    if n == 0 {
        if r == 0 {
            return 1;
        }
        proof {
            lemma_npow_zero(r as nat);
        }
        return 0;
    }
    if n == 1 {
        proof {
            lemma_npow_one(r as nat);
        }
        return 1;
    }
    let mut p: u64 = 1;
    let mut i: u64 = 0;
    while i < r
        invariant
            n >= 2,
            i <= r,
            p == npow(n as nat, i as nat),
            npow(n as nat, r as nat) <= u64::MAX,
        decreases r - i,
    {
        i = i + 1;
        proof {
            lemma_npow_monotone(n as nat, i as nat, r as nat);
            assert(p * n == n * p) by (nonlinear_arith);
        }
        p = p * n;
    }
    p
}

/// `S(n, k)`, the Stirling number of the second kind, by inclusion-exclusion:
/// `(sum_{i even} C(k,i) (k-i)^n - sum_{i odd} C(k,i) (k-i)^n) / k!`.
pub fn sterling(n: u64, k: u64) -> (s: u64)
    requires
        stirling_in_range(n as nat, k as nat),
    ensures
        s == stirling2(n as nat, k as nat),
{
    if k > n {
        proof {
            lemma_stirling_zero_above(n as nat, k as nat);
        }
        return 0;
    }
    proof {
        crate::binomial::lemma_fact_bounds_arg(k as nat);
    }
    let mut even: u64 = 0;
    let mut odd: u64 = 0;
    let mut i: u64 = 0;
    while i <= k
        invariant
            k <= n,
            k < u64::MAX,
            i <= k + 1,
            stirling_in_range(n as nat, k as nat),
            even == parity_sum(n as nat, k as nat, i as nat, false),
            odd == parity_sum(n as nat, k as nat, i as nat, true),
        decreases k + 1 - i,
    {
        proof {
            lemma_falling_le_fact(k as nat, min_nat(i as nat, (k - i) as nat));
            lemma_binom_positive(k as nat, i as nat);
            lemma_parity_sum_monotone(n as nat, k as nat, (i + 1) as nat, (k + 1) as nat, false);
            lemma_parity_sum_monotone(n as nat, k as nat, (i + 1) as nat, (k + 1) as nat, true);
            let c = binom(k as nat, i as nat);
            let p = npow((k - i) as nat, n as nat);
            assert(p <= c * p) by (nonlinear_arith)
                requires
                    c >= 1,
            ;
        }
        let c = r_combination(k, i);
        let p = r_permutation_replacement(k - i, n);
        let t = c * p;
        if i % 2 == 0 {
            even = even + t;
        } else {
            odd = odd + t;
        }
        i = i + 1;
    }
    proof {
        lemma_parity_split(n as nat, k as nat, (k + 1) as nat);
        lemma_alt_sum(n as nat, k as nat);
        lemma_fact_positive(k as nat);
    }
    // even - odd = k! S(n, k) >= 0, so the subtraction cannot underflow
    let den = factorial(k);
    proof {
        vstd::arithmetic::div_mod::lemma_div_multiples_vanish(
            stirling2(n as nat, k as nat) as int,
            den as int,
        );
        assert(fact(k as nat) * stirling2(n as nat, k as nat) == den * stirling2(
            n as nat,
            k as nat,
        ));
    }
    (even - odd) / den
}

/// `C(n + r - 1, r)`: selections of `r` items out of `n` kinds with
/// repetition and without order.
pub fn r_combination_replacement(n: u64, r: u64) -> (c: u64)
    requires
        n >= 1 ==> n + r - 1 <= u64::MAX && binom_in_range((n + r - 1) as nat, r as nat),
    ensures
        c == multichoose(n as nat, r as nat),
{
    if n == 0 {
        if r == 0 {
            return 1;
        }
        proof {
            crate::binomial::lemma_binom_zero_above((r - 1) as nat, r as nat);
        }
        return 0;
    }
    r_combination(n - 1 + r, r)
}

/// Ways to place `n_balls` distinct balls into `k_cells` distinct cells,
/// with or without empty cells.
pub fn distinct_balls_to_distict_cells(n_balls: u64, k_cells: u64, allow_empty: bool) -> (w: u64)
    requires
        allow_empty ==> npow(k_cells as nat, n_balls as nat) <= u64::MAX,
        !allow_empty ==> stirling_in_range(n_balls as nat, k_cells as nat) && fact(k_cells as nat)
            * stirling2(n_balls as nat, k_cells as nat) <= u64::MAX,
    ensures
        w == distinct_into_distinct(n_balls as nat, k_cells as nat, allow_empty),
        allow_empty ==> w == npow(k_cells as nat, n_balls as nat),
        !allow_empty ==> w == fact(k_cells as nat) * stirling2(n_balls as nat, k_cells as nat),
{
    if allow_empty {
        r_permutation_replacement(k_cells, n_balls)
    } else {
        let s_nk = sterling(n_balls, k_cells);
        if s_nk == 0 {
            proof {
                assert(fact(k_cells as nat) * 0 == 0) by (nonlinear_arith);
            }
            return 0;
        }
        proof {
            assert(fact(k_cells as nat) <= fact(k_cells as nat) * s_nk) by (nonlinear_arith)
                requires
                    s_nk >= 1,
            ;
        }
        let f = factorial(k_cells);
        proof {
            assert(s_nk * f == f * s_nk) by (nonlinear_arith);
        }
        s_nk * f
    }
}

/// Ways to place `n_balls` identical balls into `k_cells` distinct cells,
/// with or without empty cells.
pub fn indistinct_balls_to_distict_cells(n_balls: u64, k_cells: u64, allow_empty: bool) -> (w: u64)
    requires
        allow_empty ==> k_cells >= 1 ==> k_cells + n_balls - 1 <= u64::MAX && binom_in_range(
            (k_cells + n_balls - 1) as nat,
            n_balls as nat,
        ),
        !allow_empty ==> n_balls >= 1 ==> binom_in_range(
            (n_balls - 1) as nat,
            (k_cells - 1) as nat,
        ),
    ensures
        w == indistinct_into_distinct(n_balls as nat, k_cells as nat, allow_empty),
{
    if allow_empty {
        r_combination_replacement(k_cells, n_balls)
    } else if n_balls == 0 && k_cells == 0 {
        1
    } else if n_balls == 0 || k_cells == 0 {
        0
    } else {
        r_combination(n_balls - 1, k_cells - 1)
    }
}

/// Ways to place `n_balls` distinct balls into `k_cells` identical cells,
/// with or without empty cells.
pub fn distinct_balls_to_indistict_cells(n_balls: u64, k_cells: u64, allow_empty: bool) -> (w: u64)
    requires
        forall|j: nat|
            1 <= j <= k_cells ==> #[trigger] stirling_in_range(n_balls as nat, j),
        allow_empty ==> stirling_prefix(n_balls as nat, k_cells as nat) <= u64::MAX,
    ensures
        w == distinct_into_indistinct(n_balls as nat, k_cells as nat, allow_empty),
{
    if !allow_empty {
        if k_cells == 0 {
            // one way to spread no balls over no cells, none otherwise
            return if n_balls == 0 {
                1
            } else {
                0
            };
        }
        return sterling(n_balls, k_cells);
    }
    let top: u64 = if k_cells < n_balls {
        k_cells
    } else {
        n_balls
    };
    proof {
        if k_cells >= n_balls {
            lemma_stirling_prefix_flat(n_balls as nat, k_cells as nat);
        }
    }
    let mut total: u64 = 0;
    let mut j: u64 = 0;
    while j < top
        invariant
            top <= k_cells,
            j <= top,
            stirling_prefix(n_balls as nat, top as nat) == stirling_prefix(
                n_balls as nat,
                k_cells as nat,
            ),
            stirling_prefix(n_balls as nat, k_cells as nat) <= u64::MAX,
            forall|j: nat| 1 <= j <= k_cells ==> #[trigger] stirling_in_range(n_balls as nat, j),
            total == stirling_prefix(n_balls as nat, j as nat),
        decreases top - j,
    {
        j = j + 1;
        proof {
            lemma_stirling_prefix_monotone(n_balls as nat, j as nat, top as nat);
            assert(stirling_in_range(n_balls as nat, j as nat));
        }
        total = total + sterling(n_balls, j);
    }
    total
}

/// `n!`, or `None` when it does not fit in a `u64`.
pub fn checked_factorial(n: u64) -> (r: Option<u64>)
    ensures
        r == (if fact(n as nat) <= u64::MAX {
            Some(fact(n as nat) as u64)
        } else {
            None
        }),
{
    let mut f: u64 = 1;
    let mut i: u64 = 0;
    while i < n
        invariant
            i <= n,
            f == fact(i as nat),
        decreases n - i,
    {
        i = i + 1;
        proof {
            assert(f * i == fact(i as nat)) by (nonlinear_arith)
                requires
                    fact(i as nat) == i * fact((i - 1) as nat),
                    f == fact((i - 1) as nat),
            ;
        }
        match f.checked_mul(i) {
            Some(g) => {
                f = g;
            },
            None => {
                proof {
                    lemma_fact_monotone(i as nat, n as nat);
                }
                return None;
            },
        }
    }
    Some(f)
}

/// `P(n, r)`, or `None` when it does not fit in a `u64`.
pub fn checked_r_permutation(n: u64, r: u64) -> (p: Option<u64>)
    ensures
        p == (if falling(n as nat, r as nat) <= u64::MAX {
            Some(falling(n as nat, r as nat) as u64)
        } else {
            None
        }),
{
    if n < r {
        proof {
            crate::binomial::lemma_falling_zero_above(n as nat, r as nat);
        }
        return Some(0);
    }
    let mut p: u64 = 1;
    let mut i: u64 = 0;
    while i < r
        invariant
            r <= n,
            i <= r,
            p == falling((n - r + i) as nat, i as nat),
        decreases r - i,
    {
        i = i + 1;
        proof {
            lemma_falling_prefix_bound((n - r + i) as nat, i as nat, (r - i) as nat);
            let prev = falling((n - r + i - 1) as nat, (i - 1) as nat);
            assert(falling((n - r + i) as nat, i as nat) == (n - r + i) * prev);
            assert(p * (n - r + i) == (n - r + i) * p) by (nonlinear_arith);
        }
        match p.checked_mul(n - r + i) {
            Some(q) => {
                p = q;
            },
            None => {
                return None;
            },
        }
    }
    Some(p)
}

/// `C(n, r)`, or `None` when the product `n (n-1) ... (n-r'+1)`,
/// `r' = min(r, n - r)`, that it is formed from does not fit in a `u64`.
pub fn checked_r_combination(n: u64, r: u64) -> (c: Option<u64>)
    ensures
        c == (if binom_in_range(n as nat, r as nat) {
            Some(binom(n as nat, r as nat) as u64)
        } else {
            None
        }),
{
    if n < r {
        return Some(r_combination(n, r));
    }
    let m: u64 = if r < n - r {
        r
    } else {
        n - r
    };
    match checked_r_permutation(n, m) {
        Some(_) => Some(r_combination(n, r)),
        None => None,
    }
}

/// `n^r`, or `None` when it does not fit in a `u64`.
pub fn checked_r_permutation_replacement(n: u64, r: u64) -> (p: Option<u64>)
    ensures
        p == (if npow(n as nat, r as nat) <= u64::MAX {
            Some(npow(n as nat, r as nat) as u64)
        } else {
            None
        }),
{
    if n <= 1 {
        proof {
            if n == 1 {
                lemma_npow_one(r as nat);
            } else if r > 0 {
                lemma_npow_zero(r as nat);
            }
        }
        return Some(r_permutation_replacement(n, r));
    }
    let mut p: u64 = 1;
    let mut i: u64 = 0;
    while i < r
        invariant
            n >= 2,
            i <= r,
            p == npow(n as nat, i as nat),
        decreases r - i,
    {
        i = i + 1;
        proof {
            lemma_npow_monotone(n as nat, i as nat, r as nat);
            assert(p * n == n * p) by (nonlinear_arith);
        }
        match p.checked_mul(n) {
            Some(q) => {
                p = q;
            },
            None => {
                return None;
            },
        }
    }
    Some(p)
}

/// `S(n, k)`, or `None` when `k!` or one of the two partial sums of the
/// inclusion-exclusion evaluation does not fit in a `u64`.
pub fn checked_sterling(n: u64, k: u64) -> (s: Option<u64>)
    ensures
        s == (if stirling_in_range(n as nat, k as nat) {
            Some(stirling2(n as nat, k as nat) as u64)
        } else {
            None
        }),
{
    if k > n {
        return Some(sterling(n, k));
    }
    if checked_factorial(k).is_none() {
        return None;
    }
    proof {
        crate::binomial::lemma_fact_bounds_arg(k as nat);
    }
    let mut i: u64 = 0;
    let mut even: u64 = 0;
    let mut odd: u64 = 0;
    while i <= k
        invariant
            k <= n,
            k < u64::MAX,
            i <= k + 1,
            fact(k as nat) <= u64::MAX,
            even == parity_sum(n as nat, k as nat, i as nat, false),
            odd == parity_sum(n as nat, k as nat, i as nat, true),
        decreases k + 1 - i,
    {
        let ghost par = i % 2 == 1;
        proof {
            lemma_falling_le_fact(k as nat, min_nat(i as nat, (k - i) as nat));
            lemma_binom_positive(k as nat, i as nat);
            lemma_parity_sum_monotone(n as nat, k as nat, (i + 1) as nat, (k + 1) as nat, par);
            let c = binom(k as nat, i as nat);
            let p = npow((k - i) as nat, n as nat);
            assert(p <= c * p) by (nonlinear_arith)
                requires
                    c >= 1,
            ;
        }
        let c = r_combination(k, i);
        let p = match checked_r_permutation_replacement(k - i, n) {
            Some(p) => p,
            None => {
                return None;
            },
        };
        let t = match c.checked_mul(p) {
            Some(t) => t,
            None => {
                return None;
            },
        };
        if i % 2 == 0 {
            match even.checked_add(t) {
                Some(e) => {
                    even = e;
                },
                None => {
                    return None;
                },
            }
        } else {
            match odd.checked_add(t) {
                Some(o) => {
                    odd = o;
                },
                None => {
                    return None;
                },
            }
        }
        i = i + 1;
    }
    proof {
        lemma_parity_split(n as nat, k as nat, (k + 1) as nat);
        lemma_alt_sum(n as nat, k as nat);
        lemma_fact_positive(k as nat);
    }
    // even - odd = k! S(n, k) >= 0, so the subtraction cannot underflow
    let den = factorial(k);
    proof {
        vstd::arithmetic::div_mod::lemma_div_multiples_vanish(
            stirling2(n as nat, k as nat) as int,
            den as int,
        );
        assert(fact(k as nat) * stirling2(n as nat, k as nat) == den * stirling2(
            n as nat,
            k as nat,
        ));
    }
    Some((even - odd) / den)
}

} // verus!
