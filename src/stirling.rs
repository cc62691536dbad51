//! Stirling numbers of the second kind and the inclusion-exclusion identity
//! `sum_{i=0..k} (-1)^i C(k, i) (k - i)^n = k! S(n, k)`.
use vstd::prelude::*;
use crate::binomial::{binom, fact, lemma_binom_absorb, lemma_binom_zero_above, lemma_npow_zero, npow};

verus! {

/// `S(n, k)`: partitions of an `n`-element set into `k` non-empty blocks.
pub open spec fn stirling2(n: nat, k: nat) -> nat
    decreases n,
{
    if n == 0 {
        if k == 0 {
            1
        } else {
            0
        }
    } else if k == 0 {
        0
    } else {
        k * stirling2((n - 1) as nat, k) + stirling2((n - 1) as nat, (k - 1) as nat)
    }
}

/// `f(0) + f(1) + ... + f(m - 1)`.
pub open spec fn sum(f: spec_fn(int) -> int, m: nat) -> int
    decreases m,
{
    if m == 0 {
        0
    } else {
        sum(f, (m - 1) as nat) + f(m - 1)
    }
}

/// `(-1)^i`.
pub open spec fn sign(i: int) -> int {
    if i % 2 == 0 {
        1
    } else {
        -1
    }
}

/// `C(k, i)` for any integer `i`, 0 below zero.
pub open spec fn coef(k: nat, i: int) -> int {
    if i < 0 {
        0
    } else {
        binom(k, i as nat) as int
    }
}

/// `j^n` as a weight on integers.
pub open spec fn pow_weight(n: nat) -> spec_fn(int) -> int {
    |j: int| npow(j as nat, n) as int
}

pub open spec fn shifted(w: spec_fn(int) -> int) -> spec_fn(int) -> int {
    |j: int| w(j + 1)
}

/// `i |-> (-1)^i C(k, i) w(k - i)`.
pub open spec fn signed_row(k: nat, w: spec_fn(int) -> int) -> spec_fn(int) -> int {
    |i: int| sign(i) * coef(k, i) * w(k - i)
}

/// `sum_{i=0..k} (-1)^i C(k, i) (k - i)^n`.
pub open spec fn alt_sum(n: nat, k: nat) -> int {
    sum(signed_row(k, pow_weight(n)), k + 1)
}

pub proof fn lemma_sum_ext(f: spec_fn(int) -> int, g: spec_fn(int) -> int, m: nat)
    requires
        forall|i: int| 0 <= i < m ==> #[trigger] f(i) == g(i),
    ensures
        sum(f, m) == sum(g, m),
    decreases m,
{
    if m > 0 {
        lemma_sum_ext(f, g, (m - 1) as nat);
    }
}

pub proof fn lemma_sum_add(
    f: spec_fn(int) -> int,
    g: spec_fn(int) -> int,
    h: spec_fn(int) -> int,
    m: nat,
)
    requires
        forall|i: int| 0 <= i < m ==> #[trigger] h(i) == f(i) + g(i),
    ensures
        sum(h, m) == sum(f, m) + sum(g, m),
    decreases m,
{
    if m > 0 {
        lemma_sum_add(f, g, h, (m - 1) as nat);
    }
}

pub proof fn lemma_sum_scale(f: spec_fn(int) -> int, g: spec_fn(int) -> int, c: int, m: nat)
    requires
        forall|i: int| 0 <= i < m ==> #[trigger] g(i) == c * f(i),
    ensures
        sum(g, m) == c * sum(f, m),
    decreases m,
{
    if m > 0 {
        lemma_sum_scale(f, g, c, (m - 1) as nat);
        vstd::arithmetic::mul::lemma_mul_is_distributive_add(
            c,
            sum(f, (m - 1) as nat),
            f(m - 1),
        );
    }
}

/// Taking off the first term.
pub proof fn lemma_sum_shift(f: spec_fn(int) -> int, m: nat)
    ensures
        sum(f, m + 1) == f(0) + sum(shifted(f), m),
    decreases m,
{
    if m > 0 {
        lemma_sum_shift(f, (m - 1) as nat);
        assert(shifted(f)(m - 1) == f(m as int));
    } else {
        assert(sum(f, 1) == sum(f, 0) + f(0));
    }
}

/// Pascal's rule applied inside an alternating row:
/// `sum_{i<=k} (-1)^i C(k,i) w(k-i)
///   = sum_{i<=k} (-1)^i C(k-1,i) w(k-i) - sum_{i<k} (-1)^i C(k-1,i) w(k-1-i)`.
pub proof fn lemma_row_split(k: nat, w: spec_fn(int) -> int)
    requires
        k >= 1,
    ensures
        sum(signed_row(k, w), k + 1) == sum(signed_row((k - 1) as nat, shifted(w)), k + 1) - sum(
            signed_row((k - 1) as nat, w),
            k,
        ),
{
    let km1 = (k - 1) as nat;
    let row = signed_row(k, w);
    let first = signed_row(km1, shifted(w));
    let g = |i: int| sign(i) * coef(km1, i - 1) * w(k - i);
    let rest = signed_row(km1, w);
    assert forall|i: int| 0 <= i < k + 1 implies #[trigger] row(i) == first(i) + g(i) by {
        assert(coef(k, i) == coef(km1, i - 1) + coef(km1, i));
        assert(shifted(w)(km1 - i) == w(k - i));
        vstd::arithmetic::mul::lemma_mul_is_distributive_add(
            sign(i),
            coef(km1, i - 1),
            coef(km1, i),
        );
        vstd::arithmetic::mul::lemma_mul_is_distributive_add_other_way(
            w(k - i),
            sign(i) * coef(km1, i - 1),
            sign(i) * coef(km1, i),
        );
    }
    lemma_sum_add(first, g, row, k + 1);
    lemma_sum_shift(g, k);
    assert forall|i: int| 0 <= i < k implies #[trigger] shifted(g)(i) == -1 * rest(i) by {
        assert(sign(i + 1) == -sign(i));
        assert(shifted(g)(i) == sign(i + 1) * coef(km1, i) * w(km1 - i));
        assert(sign(i + 1) * coef(km1, i) * w(km1 - i) == -1 * (sign(i) * coef(km1, i) * w(
            km1 - i,
        ))) by (nonlinear_arith)
            requires
                sign(i + 1) == -sign(i),
        ;
    }
    lemma_sum_scale(rest, shifted(g), -1, k);
    assert(coef(km1, -1) == 0);
    assert(sign(0) * 0 * w(k as int) == 0) by (nonlinear_arith);
    assert(g(0) == 0);
}

/// Inclusion-exclusion for surjections:
/// `sum_{i=0..k} (-1)^i C(k, i) (k - i)^n = k! S(n, k)`.
pub proof fn lemma_alt_sum(n: nat, k: nat)
    ensures
        alt_sum(n, k) == fact(k) * stirling2(n, k),
    decreases n,
{
    let wn = pow_weight(n);
    if k == 0 {
        let row0 = signed_row(0, wn);
        assert(sum(row0, 0) == 0);
        assert(sum(row0, 1) == sum(row0, 0) + row0(0));
        assert(alt_sum(n, 0) == sum(row0, 1));
        assert(coef(0, 0) == 1);
        if n > 0 {
            lemma_npow_zero(n);
        }
        assert(signed_row(0, wn)(0) == npow(0, n));
        assert(fact(0) * stirling2(n, 0) == stirling2(n, 0));
    } else if n == 0 {
        let km1 = (k - 1) as nat;
        lemma_row_split(k, wn);
        assert forall|j: int| 0 <= j < k + 1 implies #[trigger] signed_row(km1, shifted(wn))(j)
            == signed_row(km1, wn)(j) by {
            assert(npow((km1 - j + 1) as nat, 0) == 1);
            assert(npow((km1 - j) as nat, 0) == 1);
        }
        lemma_sum_ext(signed_row(km1, shifted(wn)), signed_row(km1, wn), k + 1);
        lemma_binom_zero_above(km1, k);
        assert(coef(km1, k as int) == 0);
        assert(signed_row(km1, wn)(k as int) == 0) by (nonlinear_arith)
            requires
                signed_row(km1, wn)(k as int) == sign(k as int) * coef(km1, k as int) * wn(
                    km1 - k,
                ),
                coef(km1, k as int) == 0,
        ;
        assert(fact(k) * 0 == 0) by (nonlinear_arith);
    } else {
        let km1 = (k - 1) as nat;
        let nm1 = (n - 1) as nat;
        let wm = pow_weight(nm1);
        let top = signed_row(k, wn);
        let mid = signed_row(km1, shifted(wm));
        assert forall|i: int| 0 <= i < k + 1 implies #[trigger] top(i) == k * mid(i) by {
            let p = npow((k - i) as nat, nm1) as int;
            assert(npow((k - i) as nat, n) == (k - i) * npow((k - i) as nat, nm1));
            lemma_binom_absorb(k, i as nat);
            assert(shifted(wm)(km1 - i) == p);
            assert(sign(i) * coef(k, i) * ((k - i) * p) == k * (sign(i) * coef(km1, i) * p))
                by (nonlinear_arith)
                requires
                    (k - i) * coef(k, i) == k * coef(km1, i),
            ;
        }
        lemma_sum_scale(mid, top, k as int, k + 1);
        lemma_row_split(k, wm);
        lemma_alt_sum(nm1, k);
        lemma_alt_sum(nm1, km1);
        let s1 = stirling2(nm1, k);
        let s2 = stirling2(nm1, km1);
        assert(fact(k) == k * fact(km1));
        assert(k * (fact(k) * s1 + fact(km1) * s2) == fact(k) * (k * s1 + s2)) by (nonlinear_arith)
            requires
                fact(k) == k * fact(km1),
        ;
    }
}

/// `S(n, 1) + S(n, 2) + ... + S(n, k)`.
pub open spec fn stirling_prefix(n: nat, k: nat) -> nat
    decreases k,
{
    if k == 0 {
        0
    } else {
        stirling_prefix(n, (k - 1) as nat) + stirling2(n, k)
    }
}

/// Blocks beyond `n` add nothing to the prefix sum.
pub proof fn lemma_stirling_prefix_flat(n: nat, k: nat)
    requires
        k >= n,
    ensures
        stirling_prefix(n, k) == stirling_prefix(n, n),
    decreases k,
{
    if k > n {
        lemma_stirling_prefix_flat(n, (k - 1) as nat);
        lemma_stirling_zero_above(n, k);
    }
}

pub proof fn lemma_stirling_prefix_monotone(n: nat, k1: nat, k2: nat)
    requires
        k1 <= k2,
    ensures
        stirling_prefix(n, k1) <= stirling_prefix(n, k2),
    decreases k2,
{
    if k1 < k2 {
        lemma_stirling_prefix_monotone(n, k1, (k2 - 1) as nat);
    }
}

/// The term `C(k, i) (k - i)^n` of the inclusion-exclusion sum, unsigned.
pub open spec fn surj_term(n: nat, k: nat, i: nat) -> nat {
    binom(k, i) * npow((k - i) as nat, n)
}

/// The sum of `surj_term(n, k, i)` over the indices `i < m` that are odd
/// (`odd`) or even (`!odd`).
pub open spec fn parity_sum(n: nat, k: nat, m: nat, odd: bool) -> nat
    decreases m,
{
    if m == 0 {
        0
    } else {
        parity_sum(n, k, (m - 1) as nat, odd) + if ((m - 1) % 2 == 1) == odd {
            surj_term(n, k, (m - 1) as nat)
        } else {
            0
        }
    }
}

/// What the inclusion-exclusion evaluation of `S(n, k)` needs of a `u64`:
/// when `k <= n`, `k!` and both partial sums fit (for `k > n` there is
/// nothing to evaluate).
pub open spec fn stirling_in_range(n: nat, k: nat) -> bool {
    k <= n ==> {
        &&& fact(k) <= u64::MAX
        &&& parity_sum(n, k, k + 1, false) <= u64::MAX
        &&& parity_sum(n, k, k + 1, true) <= u64::MAX
    }
}

pub proof fn lemma_parity_sum_monotone(n: nat, k: nat, m1: nat, m2: nat, odd: bool)
    requires
        m1 <= m2,
    ensures
        parity_sum(n, k, m1, odd) <= parity_sum(n, k, m2, odd),
    decreases m2,
{
    if m1 < m2 {
        lemma_parity_sum_monotone(n, k, m1, (m2 - 1) as nat, odd);
    }
}

/// Even terms minus odd terms is the alternating sum.
pub proof fn lemma_parity_split(n: nat, k: nat, m: nat)
    requires
        m <= k + 1,
    ensures
        parity_sum(n, k, m, false) - parity_sum(n, k, m, true) == sum(
            signed_row(k, pow_weight(n)),
            m,
        ),
    decreases m,
{
    if m > 0 {
        let i = (m - 1) as nat;
        lemma_parity_split(n, k, i);
        let c = binom(k, i) as int;
        let p = npow((k - i) as nat, n) as int;
        assert(signed_row(k, pow_weight(n))(i as int) == sign(i as int) * c * p);
        assert(sign(i as int) * c * p == if i % 2 == 0 {
            c * p
        } else {
            -(c * p)
        }) by (nonlinear_arith)
            requires
                sign(i as int) == if i % 2 == 0 {
                    1int
                } else {
                    -1int
                },
        ;
    }
}

/// `S(n, k) = 0` when `k > n`.
pub proof fn lemma_stirling_zero_above(n: nat, k: nat)
    requires
        k > n,
    ensures
        stirling2(n, k) == 0,
    decreases n,
{
    if n > 0 {
        lemma_stirling_zero_above((n - 1) as nat, k);
        lemma_stirling_zero_above((n - 1) as nat, (k - 1) as nat);
        assert(k * 0 == 0) by (nonlinear_arith);
    }
}

/// Edges of the Stirling triangle: `S(n, 1) = 1` for `n >= 1`,
/// `S(n, n) = 1`, and `S(n, k) = 0` when `k > n`.
pub proof fn lemma_stirling_edges(n: nat, k: nat)
    ensures
        n >= 1 ==> stirling2(n, 1) == 1,
        stirling2(n, n) == 1,
        k > n ==> stirling2(n, k) == 0,
    decreases n,
{
    if n >= 1 {
        lemma_stirling_edges((n - 1) as nat, k);
        lemma_stirling_zero_above((n - 1) as nat, n);
        assert(n * 0 == 0) by (nonlinear_arith);
        let nm1 = (n - 1) as nat;
        assert(stirling2(n, 1) == 1 * stirling2(nm1, 1) + stirling2(nm1, 0));
        if n == 1 {
            assert(stirling2(0, 1) == 0);
        } else {
            assert(stirling2(nm1, 0) == 0);
        }
    }
    if k > n {
        lemma_stirling_zero_above(n, k);
    }
}

} // verus!
