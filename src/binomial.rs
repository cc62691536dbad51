//! Mathematical model of the counting kernel: factorials, falling
//! factorials, binomial coefficients and powers, with their identities.
use vstd::prelude::*;

verus! {

/// `n!`, with `0! = 1`.
pub open spec fn fact(n: nat) -> nat
    decreases n,
{
    if n == 0 {
        1
    } else {
        n * fact((n - 1) as nat)
    }
}

/// The falling factorial `n (n-1) ... (n-r+1)`: ordered selections of `r`
/// items out of `n`. It is 0 when `r > n`.
pub open spec fn falling(n: nat, r: nat) -> nat
    decreases r,
{
    if r == 0 {
        1
    } else if n == 0 {
        0
    } else {
        n * falling((n - 1) as nat, (r - 1) as nat)
    }
}

/// The binomial coefficient `C(n, r)`, defined by Pascal's rule.
pub open spec fn binom(n: nat, r: nat) -> nat
    decreases n,
{
    if r == 0 {
        1
    } else if n == 0 {
        0
    } else {
        binom((n - 1) as nat, (r - 1) as nat) + binom((n - 1) as nat, r)
    }
}

/// `b^e`, with `0^0 = 1`.
pub open spec fn npow(b: nat, e: nat) -> nat
    decreases e,
{
    if e == 0 {
        1
    } else {
        b * npow(b, (e - 1) as nat)
    }
}

/// `C(n + r - 1, r)`: multisets of size `r` over `n` kinds (1 for `n = r = 0`).
pub open spec fn multichoose(n: nat, r: nat) -> nat {
    if n == 0 {
        if r == 0 {
            1
        } else {
            0
        }
    } else {
        binom((n + r - 1) as nat, r)
    }
}

pub open spec fn min_nat(a: nat, b: nat) -> nat {
    if a < b {
        a
    } else {
        b
    }
}

pub proof fn lemma_fact_positive(n: nat)
    ensures
        fact(n) >= 1,
    decreases n,
{
    if n > 0 {
        lemma_fact_positive((n - 1) as nat);
        assert(n * fact((n - 1) as nat) >= 1) by (nonlinear_arith)
            requires
                n >= 1,
                fact((n - 1) as nat) >= 1,
        ;
    }
}

pub proof fn lemma_fact_monotone(a: nat, b: nat)
    requires
        a <= b,
    ensures
        fact(a) <= fact(b),
    decreases b,
{
    if a < b {
        lemma_fact_monotone(a, (b - 1) as nat);
        lemma_fact_positive((b - 1) as nat);
        assert(fact((b - 1) as nat) <= b * fact((b - 1) as nat)) by (nonlinear_arith)
            requires
                b >= 1,
        ;
    }
}

pub proof fn lemma_falling_zero_above(n: nat, r: nat)
    requires
        r > n,
    ensures
        falling(n, r) == 0,
    decreases r,
{
    if n > 0 {
        lemma_falling_zero_above((n - 1) as nat, (r - 1) as nat);
        assert(falling(n, r) == n * falling((n - 1) as nat, (r - 1) as nat));
        assert(n * 0 == 0) by (nonlinear_arith);
    }
}

/// Peeling the last factor: `falling(m, r) = falling(m, r-1) * (m - r + 1)`.
pub proof fn lemma_falling_last(m: nat, r: nat)
    requires
        r >= 1,
        m + 1 >= r,
    ensures
        falling(m, r) == falling(m, (r - 1) as nat) * (m - r + 1),
    decreases r,
{
    if r == 1 {
        assert(falling(m, 0) == 1);
        if m > 0 {
            assert(falling((m - 1) as nat, 0) == 1);
            assert(falling(m, 1) == m * 1);
        }
        assert(1 * m == m) by (nonlinear_arith);
    } else {
        lemma_falling_last((m - 1) as nat, (r - 1) as nat);
        let a = falling((m - 1) as nat, (r - 2) as nat);
        assert(falling(m, r) == m * falling((m - 1) as nat, (r - 1) as nat));
        assert(falling(m, (r - 1) as nat) == m * a);
        assert(m * (a * (m - r + 1)) == (m * a) * (m - r + 1)) by (nonlinear_arith);
    }
}

/// Dropping leading factors never increases a falling factorial.
pub proof fn lemma_falling_prefix_bound(x: nat, j: nat, d: nat)
    ensures
        falling(x, j) <= falling(x + d, j + d),
    decreases d,
{
    if d > 0 {
        lemma_falling_prefix_bound(x, j, (d - 1) as nat);
        let f = falling((x + d - 1) as nat, (j + d - 1) as nat);
        assert(falling(x + d, j + d) == (x + d) * f);
        assert(f <= (x + d) * f) by (nonlinear_arith)
            requires
                x + d >= 1,
        ;
    }
}

pub proof fn lemma_binom_zero_above(n: nat, r: nat)
    requires
        r > n,
    ensures
        binom(n, r) == 0,
    decreases n,
{
    if n > 0 {
        lemma_binom_zero_above((n - 1) as nat, (r - 1) as nat);
        lemma_binom_zero_above((n - 1) as nat, r);
    }
}

pub proof fn lemma_binom_diag(n: nat)
    ensures
        binom(n, n) == 1,
    decreases n,
{
    if n > 0 {
        lemma_binom_diag((n - 1) as nat);
        lemma_binom_zero_above((n - 1) as nat, n);
    }
}

pub proof fn lemma_binom_positive(n: nat, r: nat)
    requires
        r <= n,
    ensures
        binom(n, r) >= 1,
    decreases n,
{
    if r > 0 && n > 0 {
        if r == n {
            lemma_binom_diag(n);
        } else {
            lemma_binom_positive((n - 1) as nat, r);
        }
    }
}

/// `falling(n, r) = C(n, r) * r!`.
pub proof fn lemma_falling_binom(n: nat, r: nat)
    ensures
        falling(n, r) == binom(n, r) * fact(r),
    decreases n,
{
    if r > 0 && n > 0 {
        let b1 = binom((n - 1) as nat, (r - 1) as nat);
        let b2 = binom((n - 1) as nat, r);
        let fr1 = fact((r - 1) as nat);
        let f1 = falling((n - 1) as nat, (r - 1) as nat);
        let f2 = falling((n - 1) as nat, r);
        lemma_falling_binom((n - 1) as nat, (r - 1) as nat);
        lemma_falling_binom((n - 1) as nat, r);
        assert(fact(r) == r * fr1);
        assert(falling(n, r) == n * f1);
        assert(binom(n, r) == b1 + b2);
        if n >= r {
            lemma_falling_last((n - 1) as nat, r);
            assert(f2 == f1 * (n - r));
        } else {
            lemma_falling_zero_above((n - 1) as nat, (r - 1) as nat);
            lemma_falling_zero_above((n - 1) as nat, r);
        }
        assert((b1 + b2) * (r * fr1) == n * f1) by (nonlinear_arith)
            requires
                f1 == b1 * fr1,
                f2 == b2 * (r * fr1),
                (n >= r && f2 == f1 * (n - r)) || (f1 == 0 && f2 == 0),
        ;
    } else if r == 0 {
        assert(1 * fact(0) == 1) by (nonlinear_arith);
    } else {
        assert(0 * fact(r) == 0) by (nonlinear_arith);
    }
}

/// `C(n, r) = C(n, n - r)` for `r <= n`.
pub proof fn lemma_binom_symmetric(n: nat, r: nat)
    requires
        r <= n,
    ensures
        binom(n, r) == binom(n, (n - r) as nat),
    decreases n,
{
    if r == 0 {
        lemma_binom_diag(n);
    } else if r == n {
        lemma_binom_diag(n);
    } else {
        lemma_binom_symmetric((n - 1) as nat, (r - 1) as nat);
        lemma_binom_symmetric((n - 1) as nat, r);
        assert(binom(n, (n - r) as nat) == binom((n - 1) as nat, (n - r - 1) as nat) + binom(
            (n - 1) as nat,
            (n - r) as nat,
        ));
    }
}

/// Absorption: `(k - i) C(k, i) = k C(k - 1, i)`.
pub proof fn lemma_binom_absorb(k: nat, i: nat)
    requires
        k >= 1,
    ensures
        (k - i) * binom(k, i) == k * binom((k - 1) as nat, i),
    decreases k,
{
    if i > k {
        lemma_binom_zero_above(k, i);
        lemma_binom_zero_above((k - 1) as nat, i);
    } else if i == k {
        lemma_binom_zero_above((k - 1) as nat, i);
    } else if i == 0 {
    } else {
        // here 1 <= i < k, so k >= 2
        lemma_binom_absorb((k - 1) as nat, (i - 1) as nat);
        lemma_binom_absorb((k - 1) as nat, i);
        let c1 = binom((k - 1) as nat, (i - 1) as nat);
        let c2 = binom((k - 1) as nat, i);
        let d1 = binom((k - 2) as nat, (i - 1) as nat);
        let d2 = binom((k - 2) as nat, i);
        assert(binom((k - 1) as nat, i) == d1 + d2);
        assert((k - i) * (c1 + c2) == k * c2) by (nonlinear_arith)
            requires
                (k - i) * c1 == (k - 1) * d1,
                (k - 1 - i) * c2 == (k - 1) * d2,
                c2 == d1 + d2,
        ;
    }
}

pub proof fn lemma_npow_monotone(b: nat, e1: nat, e2: nat)
    requires
        b >= 1,
        e1 <= e2,
    ensures
        1 <= npow(b, e1) <= npow(b, e2),
    decreases e2,
{
    if e2 > 0 {
        if e1 < e2 {
            lemma_npow_monotone(b, e1, (e2 - 1) as nat);
        } else {
            lemma_npow_monotone(b, (e2 - 1) as nat, (e2 - 1) as nat);
        }
        let p = npow(b, (e2 - 1) as nat);
        assert(p <= b * p) by (nonlinear_arith)
            requires
                b >= 1,
                p >= 1,
        ;
    }
}

pub proof fn lemma_npow_one(e: nat)
    ensures
        npow(1, e) == 1,
    decreases e,
{
    if e > 0 {
        lemma_npow_one((e - 1) as nat);
    }
}

pub proof fn lemma_npow_zero(e: nat)
    requires
        e > 0,
    ensures
        npow(0, e) == 0,
{
    assert(0 * npow(0, (e - 1) as nat) == 0) by (nonlinear_arith);
}

/// `falling(k, j) <= k!` for `j <= k`.
pub proof fn lemma_falling_le_fact(k: nat, j: nat)
    requires
        j <= k,
    ensures
        falling(k, j) <= fact(k),
    decreases k - j,
{
    if j < k {
        lemma_falling_le_fact(k, j + 1);
        lemma_falling_last(k, j + 1);
        assert(falling(k, j) <= falling(k, j) * (k - j)) by (nonlinear_arith)
            requires
                k - j >= 1,
        ;
    } else {
        lemma_falling_binom(k, k);
        lemma_binom_diag(k);
        assert(1 * fact(k) == fact(k)) by (nonlinear_arith);
    }
}

/// A factorial that fits in a `u64` has an argument below `u64::MAX`.
pub proof fn lemma_fact_bounds_arg(k: nat)
    requires
        fact(k) <= u64::MAX,
    ensures
        k < u64::MAX,
{
    if k >= u64::MAX {
        lemma_fact_monotone(3, (k - 1) as nat);
        assert(fact(0) == 1);
        assert(fact(1) == 1);
        assert(fact(2) == 2);
        assert(fact(3) == 6);
        assert(k * fact((k - 1) as nat) > u64::MAX) by (nonlinear_arith)
            requires
                k >= u64::MAX,
                fact((k - 1) as nat) >= 6,
        ;
    }
}

/// Pascal's rule: `C(n, r) = C(n-1, r-1) + C(n-1, r)` for `0 < r < n`.
pub proof fn lemma_binom_pascal(n: nat, r: nat)
    requires
        0 < r < n,
    ensures
        binom(n, r) == binom((n - 1) as nat, (r - 1) as nat) + binom((n - 1) as nat, r),
{
}

/// Edges of the triangle: `C(n, 0) = C(n, n) = 1`, and `C(n, r) = 0` when `n < r`.
pub proof fn lemma_binom_edges(n: nat, r: nat)
    ensures
        binom(n, 0) == 1,
        binom(n, n) == 1,
        n < r ==> binom(n, r) == 0,
{
    lemma_binom_diag(n);
    if n < r {
        lemma_binom_zero_above(n, r);
    }
}

} // verus!
