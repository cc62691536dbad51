//! Number-theory kernel: greatest common factor, Bezout coefficients by
//! the extended Euclidean algorithm ("pulverizer"), and modular inverses.
use vstd::prelude::*;
use vstd::arithmetic::div_mod::{lemma_fundamental_div_mod, lemma_mod_multiples_vanish, lemma_small_mod};

verus! {

/// `|x|`.
pub open spec fn iabs(x: int) -> nat {
    if x < 0 {
        (-x) as nat
    } else {
        x as nat
    }
}

/// `d` divides `x`.
pub open spec fn divides(d: int, x: int) -> bool {
    exists|m: int| x == #[trigger] (m * d)
}

/// Greatest common divisor by Euclid's rule; `gcd(a, 0) = a`.
pub open spec fn gcd(a: nat, b: nat) -> nat
    decreases b,
{
    if b == 0 {
        a
    } else {
        gcd(b, (a % b) as nat)
    }
}

pub proof fn lemma_gcd_step(a: nat, b: nat)
    requires
        b > 0,
    ensures
        gcd(a, b) == gcd(b, (a % b) as nat),
{
}

/// `gcd(a, b)` divides both `a` and `b`.
pub proof fn lemma_gcd_divides(a: nat, b: nat)
    ensures
        divides(gcd(a, b) as int, a as int),
        divides(gcd(a, b) as int, b as int),
    decreases b,
{
    let g = gcd(a, b) as int;
    if b == 0 {
        assert(a == 1 * g);
        assert(0 == 0 * g);
    } else {
        let r = (a % b) as nat;
        lemma_gcd_divides(b, r);
        let m1 = choose|m: int| b == #[trigger] (m * g);
        let m2 = choose|m: int| r == #[trigger] (m * g);
        lemma_fundamental_div_mod(a as int, b as int);
        let q = a as int / b as int;
        assert(a == ((q * m1 + m2) * g)) by (nonlinear_arith)
            requires
                a == b * q + r,
                b == m1 * g,
                r == m2 * g,
        ;
        assert(b == m1 * g);
    }
}

/// Every common divisor of `a` and `b` divides `gcd(a, b)`.
pub proof fn lemma_common_divisor_divides_gcd(a: nat, b: nat, d: int)
    requires
        divides(d, a as int),
        divides(d, b as int),
    ensures
        divides(d, gcd(a, b) as int),
    decreases b,
{
    if b > 0 {
        let r = (a % b) as nat;
        let ma = choose|m: int| a == #[trigger] (m * d);
        let mb = choose|m: int| b == #[trigger] (m * d);
        lemma_fundamental_div_mod(a as int, b as int);
        let q = a as int / b as int;
        assert(r == ((ma - q * mb) * d)) by (nonlinear_arith)
            requires
                a == b * q + r,
                a == ma * d,
                b == mb * d,
        ;
        lemma_common_divisor_divides_gcd(b, r, d);
    }
}

/// `gcd(a, b) = gcd(b, a)`.
pub proof fn lemma_gcd_symmetric(a: nat, b: nat)
    ensures
        gcd(a, b) == gcd(b, a),
{
    if a == b {
    } else if a == 0 {
        assert(gcd(0, b) == gcd(b, (0nat % b) as nat));
    } else if b == 0 {
        assert(gcd(0, a) == gcd(a, (0nat % a) as nat));
    } else if a < b {
        lemma_small_mod(a, b);
        assert(gcd(a, b) == gcd(b, (a % b) as nat));
    } else {
        lemma_small_mod(b, a);
        assert(gcd(b, a) == gcd(a, (b % a) as nat));
    }
}

/// For `b > 0`: `0 < gcd(a, b) <= b`.
pub proof fn lemma_gcd_bounds(a: nat, b: nat)
    requires
        b > 0,
    ensures
        0 < gcd(a, b) <= b,
{
    lemma_gcd_divides(a, b);
    let g = gcd(a, b) as int;
    let m = choose|m: int| b == #[trigger] (m * g);
    assert(0 < g <= b) by (nonlinear_arith)
        requires
            b == m * g,
            b > 0,
            g >= 0,
    ;
}

/// `gcd(a, 0) = a`; `gcd(a, b) = gcd(b, a)`; `gcd(a, b)` divides `a` and `b`;
/// and it is positive when `a` or `b` is.
pub proof fn lemma_gcd_laws(a: nat, b: nat)
    ensures
        gcd(a, 0) == a,
        gcd(a, b) == gcd(b, a),
        divides(gcd(a, b) as int, a as int),
        divides(gcd(a, b) as int, b as int),
        a > 0 || b > 0 ==> gcd(a, b) > 0,
{
    lemma_gcd_symmetric(a, b);
    lemma_gcd_divides(a, b);
    if b > 0 {
        lemma_gcd_bounds(a, b);
    } else if a > 0 {
        lemma_gcd_bounds(b, a);
    }
}

/// `|u - q v| = |u| + q |v|` when `u` and `v` do not share a sign.
pub proof fn lemma_abs_sub_opposite(u: int, v: int, q: int)
    requires
        u * v <= 0,
        q >= 0,
    ensures
        iabs(u - q * v) == iabs(u) + q * iabs(v),
{
    if u > 0 && v > 0 {
        assert(u * v > 0) by (nonlinear_arith)
            requires
                u > 0,
                v > 0,
        ;
    } else if u < 0 && v < 0 {
        assert(u * v > 0) by (nonlinear_arith)
            requires
                u < 0,
                v < 0,
        ;
    }
    if v >= 0 {
        assert(q * v >= 0) by (nonlinear_arith)
            requires
                q >= 0,
                v >= 0,
        ;
    } else {
        assert(q * v <= 0 && q * (-v) == -(q * v)) by (nonlinear_arith)
            requires
                q >= 0,
                v < 0,
        ;
    }
}

/// Greatest common factor of `a` and `b`, taken of their absolute values;
/// `gcf(a, 0) = |a|`, `gcf(0, b) = |b|`. The result must fit in an `i32`
/// (it does not only for `gcf(i32::MIN, i32::MIN)` and `gcf(i32::MIN, 0)`).
pub fn gcf(a: i32, b: i32) -> (g: i32)
    requires
        gcd(iabs(a as int), iabs(b as int)) <= i32::MAX,
    ensures
        g == gcd(iabs(a as int), iabs(b as int)),
        g >= 0,
{
    let mut x: i64 = if a < 0 {
        -(a as i64)
    } else {
        a as i64
    };
    let mut y: i64 = if b < 0 {
        -(b as i64)
    } else {
        b as i64
    };
    while y != 0
        invariant
            x >= 0,
            y >= 0,
            gcd(x as nat, y as nat) == gcd(iabs(a as int), iabs(b as int)),
        decreases y,
    {
        let r = x % y;
        proof {
            lemma_gcd_step(x as nat, y as nat);
        }
        x = y;
        y = r;
    }
    x as i32
}

/// Bezout coefficients: `s * x + t * y = gcf(x, y)`.
#[derive(Clone, Copy, Debug, PartialEq, Eq, Structural)]
pub struct GcfFactors {
    pub s: i32,
    pub t: i32,
}

/// The extended Euclidean algorithm: `(s, t)` with
/// `s * x + t * y = gcf(x, y)`. Inputs may come in either order and with
/// any sign but `i32::MIN`.
pub fn pulverize(x: i32, y: i32) -> (f: GcfFactors)
    requires
        x > i32::MIN,
        y > i32::MIN,
    ensures
        f.s * x + f.t * y == gcd(iabs(x as int), iabs(y as int)),
        gcd(iabs(x as int), iabs(y as int)) == 1 ==> f.s * x + f.t * y == 1,
{
    let xa: i64 = if x < 0 {
        -(x as i64)
    } else {
        x as i64
    };
    let ya: i64 = if y < 0 {
        -(y as i64)
    } else {
        y as i64
    };
    let ghost bound_x: int = if xa > 1 { xa as int } else { 1 };
    let ghost bound_y: int = if ya > 1 { ya as int } else { 1 };
    let mut a: i64 = xa;
    let mut b: i64 = ya;
    let mut x0: i64 = 1;
    let mut y0: i64 = 0;
    let mut x1: i64 = 0;
    let mut y1: i64 = 1;
    while b != 0
        invariant
            0 <= xa < 0x8000_0000,
            0 <= ya < 0x8000_0000,
            bound_x == if xa > 1 { xa as int } else { 1 },
            bound_y == if ya > 1 { ya as int } else { 1 },
            0 <= a < 0x8000_0000,
            0 <= b < 0x8000_0000,
            gcd(a as nat, b as nat) == gcd(xa as nat, ya as nat),
            x0 * xa + y0 * ya == a,
            x1 * xa + y1 * ya == b,
            x0 * x1 <= 0,
            y0 * y1 <= 0,
            iabs(x1 as int) * a + iabs(x0 as int) * b == ya,
            iabs(y1 as int) * a + iabs(y0 as int) * b == xa,
            iabs(x0 as int) <= bound_y,
            iabs(x1 as int) <= bound_y,
            iabs(y0 as int) <= bound_x,
            iabs(y1 as int) <= bound_x,
        decreases b,
    {
        let q = a / b;
        let r = a % b;
        proof {
            lemma_gcd_step(a as nat, b as nat);
            lemma_fundamental_div_mod(a as int, b as int);
            assert(0 <= q <= a) by (nonlinear_arith)
                requires
                    a >= 0,
                    b > 0,
                    q == a / b,
            ;
            assert(iabs(q * x1) <= q * bound_y && iabs(q * y1) <= q * bound_x) by (nonlinear_arith)
                requires
                    q >= 0,
                    iabs(x1 as int) <= bound_y,
                    iabs(y1 as int) <= bound_x,
            ;
            assert(q * bound_y <= 0x8000_0000 * 0x8000_0000 && q * bound_x <= 0x8000_0000 * 0x8000_0000)
                by (nonlinear_arith)
                requires
                    0 <= q < 0x8000_0000,
                    1 <= bound_y < 0x8000_0000,
                    1 <= bound_x < 0x8000_0000,
            ;
        }
        let s = x0 - q * x1;
        let t = y0 - q * y1;
        proof {
            lemma_abs_sub_opposite(x0 as int, x1 as int, q as int);
            lemma_abs_sub_opposite(y0 as int, y1 as int, q as int);
            assert(s * xa + t * ya == r) by (nonlinear_arith)
                requires
                    s == x0 - q * x1,
                    t == y0 - q * y1,
                    x0 * xa + y0 * ya == a,
                    x1 * xa + y1 * ya == b,
                    a == b * q + r,
            ;
            assert(x1 * s <= 0 && y1 * t <= 0) by (nonlinear_arith)
                requires
                    s == x0 - q * x1,
                    t == y0 - q * y1,
                    x0 * x1 <= 0,
                    y0 * y1 <= 0,
                    q >= 0,
            ;
            let ax0 = iabs(x0 as int) as int;
            let ax1 = iabs(x1 as int) as int;
            let ay0 = iabs(y0 as int) as int;
            let ay1 = iabs(y1 as int) as int;
            assert((ax0 + q * ax1) * b + ax1 * r == ya && (ay0 + q * ay1) * b + ay1 * r == xa)
                by (nonlinear_arith)
                requires
                    ax1 * a + ax0 * b == ya,
                    ay1 * a + ay0 * b == xa,
                    a == b * q + r,
            ;
            assert((ax0 + q * ax1) <= bound_y && (ay0 + q * ay1) <= bound_x) by (nonlinear_arith)
                requires
                    (ax0 + q * ax1) * b + ax1 * r == ya,
                    (ay0 + q * ay1) * b + ay1 * r == xa,
                    b >= 1,
                    ax1 >= 0,
                    ay1 >= 0,
                    r >= 0,
                    ax0 + q * ax1 >= 0,
                    ay0 + q * ay1 >= 0,
                    ya <= bound_y,
                    xa <= bound_x,
            ;
        }
        x0 = x1;
        y0 = y1;
        x1 = s;
        y1 = t;
        a = b;
        b = r;
    }
    proof {
        assert(gcd(a as nat, 0) == a);
    }
    let s: i64 = if x < 0 {
        -x0
    } else {
        x0
    };
    let t: i64 = if y < 0 {
        -y0
    } else {
        y0
    };
    proof {
        assert(s * x == x0 * xa) by (nonlinear_arith)
            requires
                s == (if x < 0 { -x0 } else { x0 as int }),
                xa == (if x < 0 { -x } else { x as int }),
        ;
        assert(t * y == y0 * ya) by (nonlinear_arith)
            requires
                t == (if y < 0 { -y0 } else { y0 as int }),
                ya == (if y < 0 { -y } else { y as int }),
        ;
    }
    GcfFactors { s: s as i32, t: t as i32 }
}

/// Why `inverse_modn` has no result.
#[derive(Clone, Copy, Debug, PartialEq, Eq, Structural)]
pub enum InverseError {
    /// The modulus is below 2.
    Domain,
    /// `k` and the modulus share a factor above 1.
    NoInverse,
}

/// The inverse of `k` modulo `n`: the `v` in `[0, n)` with
/// `v * k = 1 (mod n)`. It exists exactly when `n >= 2` and
/// `gcf(k, n) = 1`.
pub fn inverse_modn(k: i32, n: i32) -> (r: Result<i32, InverseError>)
    ensures
        match r {
            Ok(v) => n >= 2 && gcd(iabs(k as int), n as nat) == 1 && 0 <= v < n && (v * k) % (
            n as int) == 1,
            Err(InverseError::Domain) => n < 2,
            Err(InverseError::NoInverse) => n >= 2 && gcd(iabs(k as int), n as nat) != 1,
        },
{
    if n < 2 {
        return Err(InverseError::Domain);
    }
    proof {
        lemma_gcd_bounds(iabs(k as int), n as nat);
    }
    if gcf(k, n) != 1 {
        return Err(InverseError::NoInverse);
    }
    // `k + n` stands for `i32::MIN`, which `pulverize` does not take
    let kk: i32 = if k == i32::MIN {
        k + n
    } else {
        k
    };
    let st = pulverize(kk, n);
    proof {
        let g = gcd(iabs(kk as int), n as nat);
        lemma_gcd_bounds(iabs(kk as int), n as nat);
        lemma_gcd_divides(iabs(kk as int), n as nat);
        if k == i32::MIN {
            let m1 = choose|m: int| iabs(kk as int) == #[trigger] (m * g);
            let m2 = choose|m: int| n == #[trigger] (m * g);
            assert(iabs(k as int) == (m1 + m2) * g) by (nonlinear_arith)
                requires
                    iabs(k as int) == iabs(kk as int) + n,
                    iabs(kk as int) == m1 * g,
                    n == m2 * g,
            ;
        }
        assert(divides(g as int, iabs(k as int) as int));
        lemma_common_divisor_divides_gcd(iabs(k as int), n as nat, g as int);
        let m = choose|m: int| 1 == #[trigger] (m * g);
        assert(g == 1) by (nonlinear_arith)
            requires
                1 == m * g,
                g > 0,
        ;
    }
    let s: i64 = st.s as i64;
    let nn: i64 = n as i64;
    let v: i64 = if s >= 0 {
        s % nn
    } else {
        let m = (-s) % nn;
        if m == 0 {
            0
        } else {
            nn - m
        }
    };
    proof {
        let si = s as int;
        let ni = nn as int;
        let vi = v as int;
        let c: int;
        if si >= 0 {
            lemma_fundamental_div_mod(si, ni);
            c = -(si / ni);
            assert(vi == si + c * ni) by (nonlinear_arith)
                requires
                    si == ni * (si / ni) + vi,
                    c == -(si / ni),
            ;
        } else {
            let ms = -si;
            lemma_fundamental_div_mod(ms, ni);
            let q = ms / ni;
            let rm = ms % ni;
            if rm == 0 {
                c = q;
                assert(vi == si + c * ni) by (nonlinear_arith)
                    requires
                        ms == ni * q + rm,
                        rm == 0,
                        vi == 0,
                        c == q,
                        ms == -si,
                ;
            } else {
                c = q + 1;
                assert(vi == si + c * ni) by (nonlinear_arith)
                    requires
                        ms == ni * q + rm,
                        vi == ni - rm,
                        c == q + 1,
                        ms == -si,
                ;
            }
        }
        let e: int = if k == i32::MIN { -1 } else { 0 };
        let t = st.t as int;
        let w = c * k - t + s * e;
        assert(v * k == nn * w + 1) by (nonlinear_arith)
            requires
                v == s + c * nn,
                s * kk + t * nn == 1,
                kk == k - e * nn,
                w == c * k - t + s * e,
        ;
        lemma_mod_multiples_vanish(w, 1, nn as int);
        lemma_small_mod(1, nn as nat);
    }
    Ok(v as i32)
}

} // verus!
