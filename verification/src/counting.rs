//! Counting functions: falling factorials, factorials, powers and binomial
//! coefficients, with the identities the enumerations rest on.
use vstd::prelude::*;

verus! {

/// `m * (m - 1) * ... * (m - k + 1)`, the product of `k` factors counting down from `m`.
pub open spec fn falling(m: int, k: nat) -> int
    decreases k,
{
    if k == 0 {
        1
    } else {
        falling(m, (k - 1) as nat) * (m - (k - 1))
    }
}

/// `k!`
pub open spec fn factorial(k: nat) -> int
    decreases k,
{
    if k == 0 {
        1
    } else {
        factorial((k - 1) as nat) * k
    }
}

/// `b` raised to the power `e`.
pub open spec fn power(b: int, e: nat) -> int
    decreases e,
{
    if e == 0 {
        1
    } else {
        power(b, (e - 1) as nat) * b
    }
}

/// The binomial coefficient `n choose k`, by Pascal's rule.
pub open spec fn binomial(n: nat, k: nat) -> nat
    decreases n,
{
    if k == 0 {
        1
    } else if n == 0 {
        0
    } else {
        binomial((n - 1) as nat, (k - 1) as nat) + binomial((n - 1) as nat, k)
    }
}

pub proof fn lemma_binomial_above(n: nat, k: nat)
    requires
        k > n,
    ensures
        binomial(n, k) == 0,
    decreases n,
{
    if n > 0 {
        lemma_binomial_above((n - 1) as nat, (k - 1) as nat);
        lemma_binomial_above((n - 1) as nat, k);
    }
}

pub proof fn lemma_binomial_positive(n: nat, k: nat)
    requires
        k <= n,
    ensures
        binomial(n, k) >= 1,
    decreases n,
{
    if k > 0 {
        lemma_binomial_positive((n - 1) as nat, (k - 1) as nat);
    }
}

pub proof fn lemma_binomial_diagonal(k: nat)
    ensures
        binomial(k, k) == 1,
    decreases k,
{
    if k > 0 {
        lemma_binomial_diagonal((k - 1) as nat);
        lemma_binomial_above((k - 1) as nat, k);
    }
}

/// `k * C(m, k) == (m - k + 1) * C(m, k - 1)`.
proof fn lemma_binomial_absorb(m: nat, k: nat)
    requires
        k >= 1,
    ensures
        k * binomial(m, k) == (m - k + 1) * binomial(m, (k - 1) as nat),
    decreases m,
{
    let mi = m as int;
    let ki = k as int;
    if m == 0 {
        assert(binomial(m, k) == 0);
        if k > 1 {
            lemma_binomial_above(0, (k - 1) as nat);
        } else {
            assert(mi - ki + 1 == 0);
        }
        let x = binomial(m, (k - 1) as nat) as int;
        assert(ki * 0 == 0);
        assert((mi - ki + 1) * x == 0) by (nonlinear_arith)
            requires
                mi - ki + 1 == 0 || x == 0,
        ;
    } else if k == 1 {
        lemma_binomial_absorb((m - 1) as nat, 1);
        assert(binomial((m - 1) as nat, 0) == 1);
        assert(binomial(m, 0) == 1);
        assert(binomial(m, 1) == 1 + binomial((m - 1) as nat, 1));
        let x = binomial((m - 1) as nat, 1) as int;
        assert(x == mi - 1) by (nonlinear_arith)
            requires
                1 * x == ((mi - 1) - 1 + 1) * 1,
        ;
        assert(binomial(m, 1) == m);
    } else {
        lemma_binomial_absorb((m - 1) as nat, k);
        lemma_binomial_absorb((m - 1) as nat, (k - 1) as nat);
        let a = binomial((m - 1) as nat, (k - 2) as nat) as int;
        let b = binomial((m - 1) as nat, (k - 1) as nat) as int;
        let c = binomial((m - 1) as nat, k) as int;
        assert(binomial(m, k) == b + c);
        assert(binomial(m, (k - 1) as nat) == a + b);
        assert(ki * c == (mi - ki) * b);
        assert((ki - 1) * b == (mi - ki + 1) * a);
        assert(ki * (b + c) == (mi - ki + 1) * (a + b)) by (nonlinear_arith)
            requires
                ki * c == (mi - ki) * b,
                (ki - 1) * b == (mi - ki + 1) * a,
        ;
    }
}

/// The falling factorial is the binomial coefficient times `k!`.
pub proof fn lemma_falling_binomial(m: nat, k: nat)
    ensures
        falling(m as int, k) == binomial(m, k) * factorial(k),
    decreases k,
{
    if k > 0 {
        lemma_falling_binomial(m, (k - 1) as nat);
        lemma_binomial_absorb(m, k);
        let f = falling(m as int, (k - 1) as nat);
        let bk = binomial(m, k) as int;
        let bk1 = binomial(m, (k - 1) as nat) as int;
        let fk1 = factorial((k - 1) as nat);
        let mi = m as int;
        let ki = k as int;
        assert(f * (mi - (ki - 1)) == bk * (fk1 * ki)) by (nonlinear_arith)
            requires
                f == bk1 * fk1,
                ki * bk == (mi - ki + 1) * bk1,
        ;
    }
}

pub proof fn lemma_factorial_positive(k: nat)
    ensures
        factorial(k) >= 1,
    decreases k,
{
    if k > 0 {
        lemma_factorial_positive((k - 1) as nat);
        let f = factorial((k - 1) as nat);
        let ki = k as int;
        assert(f * ki >= 1) by (nonlinear_arith)
            requires
                f >= 1,
                ki >= 1,
        ;
    }
}

/// Every factor of `falling(m, k)` is at least one when `k <= m`.
pub proof fn lemma_falling_positive(m: int, k: nat)
    requires
        k <= m,
    ensures
        falling(m, k) >= 1,
    decreases k,
{
    if k > 0 {
        lemma_falling_positive(m, (k - 1) as nat);
        let f = falling(m, (k - 1) as nat);
        let d = m - (k - 1);
        assert(f * d >= 1) by (nonlinear_arith)
            requires
                f >= 1,
                d >= 1,
        ;
    }
}

pub proof fn lemma_falling_nonneg(m: int, k: nat)
    requires
        k <= m + 1,
    ensures
        falling(m, k) >= 0,
    decreases k,
{
    if k > 0 {
        lemma_falling_nonneg(m, (k - 1) as nat);
        let f = falling(m, (k - 1) as nat);
        let d = m - (k - 1);
        assert(f * d >= 0) by (nonlinear_arith)
            requires
                f >= 0,
                d >= 0,
        ;
    }
}

/// Taking more factors (each at least one) does not shrink the product.
pub proof fn lemma_falling_grows_in_k(m: int, j: nat, k: nat)
    requires
        j <= k <= m,
    ensures
        falling(m, j) <= falling(m, k),
    decreases k,
{
    if j < k {
        lemma_falling_grows_in_k(m, j, (k - 1) as nat);
        lemma_falling_positive(m, (k - 1) as nat);
        let f = falling(m, (k - 1) as nat);
        let d = m - (k - 1);
        assert(f <= f * d) by (nonlinear_arith)
            requires
                f >= 1,
                d >= 1,
        ;
    }
}

/// A smaller starting factor gives a smaller product.
pub proof fn lemma_falling_grows_in_m(m1: int, m2: int, k: nat)
    requires
        k <= m1 + 1,
        m1 <= m2,
    ensures
        falling(m1, k) <= falling(m2, k),
    decreases k,
{
    if k > 0 {
        lemma_falling_grows_in_m(m1, m2, (k - 1) as nat);
        lemma_falling_nonneg(m1, (k - 1) as nat);
        let f1 = falling(m1, (k - 1) as nat);
        let f2 = falling(m2, (k - 1) as nat);
        let d1 = m1 - (k - 1);
        let d2 = m2 - (k - 1);
        assert(f1 * d1 <= f2 * d2) by (nonlinear_arith)
            requires
                0 <= f1 <= f2,
                0 <= d1 <= d2,
        ;
    }
}

/// `falling(m, k) == m * falling(m - 1, k - 1)`: peeling the first factor.
pub proof fn lemma_falling_head(m: int, k: nat)
    requires
        k >= 1,
    ensures
        falling(m, k) == m * falling(m - 1, (k - 1) as nat),
    decreases k,
{
    if k == 1 {
        assert(falling(m, 0) == 1);
        assert(falling(m - 1, 0) == 1);
        assert(falling(m, 1) == m);
    } else {
        lemma_falling_head(m, (k - 1) as nat);
        let g = falling(m - 1, (k - 2) as nat);
        let d = m - (k - 1);
        assert(falling(m, k) == falling(m, (k - 1) as nat) * d);
        assert(falling(m, (k - 1) as nat) == m * g);
        assert(falling(m - 1, (k - 1) as nat) == g * d);
        assert((m * g) * d == m * (g * d)) by (nonlinear_arith);
    }
}

/// `power(b, e) == b * power(b, e - 1)`: peeling the first factor.
pub proof fn lemma_power_head(b: int, e: nat)
    requires
        e >= 1,
    ensures
        power(b, e) == b * power(b, (e - 1) as nat),
    decreases e,
{
    if e == 1 {
        assert(power(b, 0) == 1);
        assert(power(b, 1) == b);
    } else {
        lemma_power_head(b, (e - 1) as nat);
        let g = power(b, (e - 2) as nat);
        assert(power(b, e) == power(b, (e - 1) as nat) * b);
        assert(power(b, (e - 1) as nat) == b * g);
        assert(power(b, (e - 1) as nat) == g * b) by (nonlinear_arith)
            requires
                power(b, (e - 1) as nat) == b * g,
        ;
        assert((b * g) * b == b * (g * b)) by (nonlinear_arith);
    }
}

pub proof fn lemma_power_positive(b: int, e: nat)
    requires
        b >= 1,
    ensures
        power(b, e) >= 1,
    decreases e,
{
    if e > 0 {
        lemma_power_positive(b, (e - 1) as nat);
        let p = power(b, (e - 1) as nat);
        assert(p * b >= 1) by (nonlinear_arith)
            requires
                p >= 1,
                b >= 1,
        ;
    }
}

pub proof fn lemma_power_nonneg(b: int, e: nat)
    requires
        b >= 0,
    ensures
        power(b, e) >= 0,
    decreases e,
{
    if e > 0 {
        lemma_power_nonneg(b, (e - 1) as nat);
        let p = power(b, (e - 1) as nat);
        assert(p * b >= 0) by (nonlinear_arith)
            requires
                p >= 0,
                b >= 0,
        ;
    }
}

pub proof fn lemma_power_grows(b: int, e1: nat, e2: nat)
    requires
        b >= 1,
        e1 <= e2,
    ensures
        power(b, e1) <= power(b, e2),
    decreases e2,
{
    if e1 < e2 {
        lemma_power_grows(b, e1, (e2 - 1) as nat);
        lemma_power_positive(b, (e2 - 1) as nat);
        let p = power(b, (e2 - 1) as nat);
        assert(p <= p * b) by (nonlinear_arith)
            requires
                p >= 1,
                b >= 1,
        ;
    }
}

} // verus!
