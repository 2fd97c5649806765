use crate::natural::{gcd, pow_mod};
use crate::scheme::square;
use vstd::arithmetic::div_mod::{
    lemma_add_mod_noop, lemma_fundamental_div_mod, lemma_fundamental_div_mod_converse,
    lemma_mod_multiples_vanish, lemma_small_mod,
};
use vstd::arithmetic::power::{
    lemma0_pow, lemma1_pow, lemma_pow0, lemma_pow1, lemma_pow_adds, lemma_pow_mod_noop,
    lemma_pow_multiplies, lemma_pow_positive, pow,
};
use vstd::prelude::*;

verus! {

/// `p` is prime: above one, with no divisor strictly between one and itself.
pub open spec fn is_prime(p: nat) -> bool {
    &&& p > 1
    &&& forall|d: nat| 1 < d < p ==> #[trigger] (p % d) != 0
}

/// Bezout coefficients: `a * x + b * y == gcd(a, b)`.
pub proof fn lemma_bezout(a: nat, b: nat) -> (r: (int, int))
    ensures
        a * r.0 + b * r.1 == gcd(a, b),
    decreases b,
{
    if b == 0 {
        (1, 0)
    } else {
        let (x, y) = lemma_bezout(b, a % b);
        lemma_fundamental_div_mod(a as int, b as int);
        let q = (a / b) as int;
        assert(a * y + b * (x - q * y) == b * x + (a % b) * y) by (nonlinear_arith)
            requires
                a == b * q + a % b,
        ;
        (y, x - q * y)
    }
}

/// The gcd divides both arguments: `a == g * r.0` and `b == g * r.1`.
pub proof fn lemma_gcd_divides(a: nat, b: nat) -> (r: (int, int))
    ensures
        a == gcd(a, b) * r.0,
        b == gcd(a, b) * r.1,
    decreases b,
{
    if b == 0 {
        (1, 0)
    } else {
        let (kb, kr) = lemma_gcd_divides(b, a % b);
        let g = gcd(a, b) as int;
        lemma_fundamental_div_mod(a as int, b as int);
        let q = (a / b) as int;
        assert(a == g * (kb * q + kr)) by (nonlinear_arith)
            requires
                a == b * q + a % b,
                b == g * kb,
                a % b == g * kr,
        ;
        (kb * q + kr, kb)
    }
}

/// A prime that divides none of `a` is coprime to it.
proof fn lemma_prime_coprime(p: nat, a: nat)
    requires
        is_prime(p),
        a % p != 0,
    ensures
        gcd(p, a) == 1,
{
    let g = gcd(p, a);
    let (kp, ka) = lemma_gcd_divides(p, a);
    if g == 0 {
        assert(p == 0 * kp);
    }
    assert(kp >= 1) by (nonlinear_arith)
        requires
            p == g * kp,
            p > 1,
            g >= 0,
    ;
    assert(g <= p) by (nonlinear_arith)
        requires
            p == g * kp,
            kp >= 1,
            g >= 0,
    ;
    if g == p {
        assert(a == p * ka);
        lemma_fundamental_div_mod_converse(a as int, p as int, ka, 0);
    } else if g > 1 {
        assert(p == g * kp);
        lemma_fundamental_div_mod_converse(p as int, g as int, kp, 0);
        assert(p % g != 0);
    }
}

/// Euclid's lemma: a prime that divides `a * b` but not `a` divides `b`.
pub proof fn lemma_euclid(p: nat, a: nat, b: nat)
    requires
        is_prime(p),
        (a * b) % p == 0,
        a % p != 0,
    ensures
        b % p == 0,
{
    lemma_prime_coprime(p, a);
    let (x, y) = lemma_bezout(p, a);
    lemma_fundamental_div_mod((a * b) as int, p as int);
    let k = ((a * b) / p) as int;
    assert(b == p * (b * x + k * y)) by (nonlinear_arith)
        requires
            p * x + a * y == 1,
            a * b == p * k,
    ;
    lemma_fundamental_div_mod_converse(b as int, p as int, b * x + k * y, 0);
}

/// The binomial coefficient, by Pascal's rule.
pub open spec fn binom(n: nat, k: nat) -> nat
    decreases n,
{
    if k == 0 {
        1
    } else if n == 0 {
        0
    } else {
        binom((n - 1) as nat, (k - 1) as nat) + binom((n - 1) as nat, k)
    }
}

/// The first `j` terms of the binomial expansion of `(x + 1)^n`.
pub open spec fn binom_sum(x: int, n: nat, j: nat) -> int
    decreases j,
{
    if j == 0 {
        0
    } else {
        binom_sum(x, n, (j - 1) as nat) + binom(n, (j - 1) as nat) * pow(x, (j - 1) as nat)
    }
}

proof fn lemma_binom_above(n: nat, k: nat)
    requires
        k > n,
    ensures
        binom(n, k) == 0,
    decreases n,
{
    if n > 0 {
        lemma_binom_above((n - 1) as nat, (k - 1) as nat);
        lemma_binom_above((n - 1) as nat, k);
    }
}

proof fn lemma_binom_full(n: nat)
    ensures
        binom(n, n) == 1,
    decreases n,
{
    if n > 0 {
        lemma_binom_full((n - 1) as nat);
        lemma_binom_above((n - 1) as nat, n);
    }
}

proof fn lemma_pow_step(x: int, e: nat)
    ensures
        pow(x, e + 1) == x * pow(x, e),
{
    lemma_pow_adds(x, e, 1);
    lemma_pow1(x);
    assert(pow(x, e) * x == x * pow(x, e)) by (nonlinear_arith);
}

proof fn lemma_pascal_sum(x: int, n: nat, j: nat)
    ensures
        binom_sum(x, n + 1, j + 1) == binom_sum(x, n, j + 1) + x * binom_sum(x, n, j),
    decreases j,
{
    if j == 0 {
        lemma_pow0(x);
        assert(binom_sum(x, n, 0) == 0);
        assert(binom_sum(x, n + 1, 0) == 0);
        assert(binom_sum(x, n + 1, 1) == 1);
        assert(binom_sum(x, n, 1) == 1);
        assert(x * 0 == 0) by (nonlinear_arith);
    } else {
        lemma_pascal_sum(x, n, (j - 1) as nat);
        let j1 = (j - 1) as nat;
        lemma_pow_step(x, j1);
        let a = binom_sum(x, n, j);
        let b = binom_sum(x, n, j1);
        let c0 = binom(n, j1) as int;
        let c1 = binom(n, j) as int;
        let pj = pow(x, j1);
        assert(binom(n + 1, j) == c0 + c1);
        assert(binom_sum(x, n + 1, j + 1) == (a + x * b) + (c0 + c1) * (x * pj));
        assert(binom_sum(x, n, j + 1) == a + c1 * (x * pj));
        assert(a == b + c0 * pj);
        assert((a + x * b) + (c0 + c1) * (x * pj) == (a + c1 * (x * pj)) + x * (b + c0 * pj))
            by (nonlinear_arith);
    }
}

/// The binomial theorem for `(x + 1)^n`.
proof fn lemma_binomial(x: int, n: nat)
    ensures
        pow(x + 1, n) == binom_sum(x, n, n + 1),
    decreases n,
{
    if n == 0 {
        lemma_pow0(x + 1);
        lemma_pow0(x);
        assert(binom_sum(x, 0, 0) == 0);
        assert(binom(0, 0) == 1);
        assert(binom_sum(x, 0, 1) == 1);
    } else {
        let n1 = (n - 1) as nat;
        lemma_binomial(x, n1);
        lemma_pow_step(x + 1, n1);
        lemma_pascal_sum(x, n1, n);
        lemma_binom_above(n1, n);
        assert(binom_sum(x, n1, n + 1) == binom_sum(x, n1, n) + 0 * pow(x, n));
        assert(0 * pow(x, n) == 0);
        assert((x + 1) * binom_sum(x, n1, n) == binom_sum(x, n1, n) + x * binom_sum(x, n1, n))
            by (nonlinear_arith);
    }
}

/// Absorption: `k * C(n, k) == n * C(n - 1, k - 1)`.
proof fn lemma_absorption(n: nat, k: nat)
    requires
        n >= 1,
        k >= 1,
    ensures
        k * binom(n, k) == n * binom((n - 1) as nat, (k - 1) as nat),
    decreases n,
{
    let n1 = (n - 1) as nat;
    let k1 = (k - 1) as nat;
    if n == 1 {
        if k > 1 {
            lemma_binom_above(1, k);
            lemma_binom_above(0, k1);
            assert(k * 0 == 1 * 0) by (nonlinear_arith);
        } else {
            assert(binom(0, 1) == 0);
            assert(binom(1, 1) == 1);
            assert(binom(0, 0) == 1);
        }
    } else {
        lemma_absorption(n1, k);
        assert(binom(n, k) == binom(n1, k1) + binom(n1, k));
        if k == 1 {
            assert(binom(n1, 0) == 1);
            assert(binom((n1 - 1) as nat, 0) == 1);
            assert(1 * binom(n1, 1) == n1 * 1);
            assert(binom(n, 1) == binom(n1, 0) + binom(n1, 1));
            assert(binom(n1, 1) == n1) by (nonlinear_arith)
                requires
                    1 * binom(n1, 1) == n1 * 1,
            ;
            assert(binom(n, 1) == n);
            assert(k * binom(n, k) == n * binom(n1, k1)) by (nonlinear_arith)
                requires
                    k == 1,
                    binom(n, k) == n,
                    binom(n1, k1) == 1,
            ;
        } else {
            lemma_absorption(n1, k1);
            let a = binom((n1 - 1) as nat, (k1 - 1) as nat);
            let b = binom((n1 - 1) as nat, k1);
            assert(binom(n1, k1) == a + b);
            assert(k * (binom(n1, k1) + binom(n1, k)) == n * binom(n1, k1)) by (nonlinear_arith)
                requires
                    k * binom(n1, k) == n1 * b,
                    k1 * binom(n1, k1) == n1 * a,
                    binom(n1, k1) == a + b,
                    k == k1 + 1,
                    n == n1 + 1,
            ;
        }
    }
}

proof fn lemma_prime_divides_binom(p: nat, k: nat)
    requires
        is_prime(p),
        0 < k < p,
    ensures
        binom(p, k) % p == 0,
{
    lemma_absorption(p, k);
    let c = binom((p - 1) as nat, (k - 1) as nat);
    lemma_fundamental_div_mod_converse((k * binom(p, k)) as int, p as int, c as int, 0);
    lemma_small_mod(k, p);
    lemma_euclid(p, k, binom(p, k));
}

proof fn lemma_inner_terms(x: int, p: nat, j: nat)
    requires
        is_prime(p),
        1 <= j <= p,
    ensures
        binom_sum(x, p, j) % (p as int) == 1,
    decreases j,
{
    if j == 1 {
        lemma_pow0(x);
        assert(binom_sum(x, p, 0) == 0);
        lemma_small_mod(1, p);
    } else {
        let j1 = (j - 1) as nat;
        lemma_inner_terms(x, p, j1);
        lemma_prime_divides_binom(p, j1);
        lemma_fundamental_div_mod(binom(p, j1) as int, p as int);
        let c = (binom(p, j1) / p) as int;
        assert(binom(p, j1) == p * c);
        let t = c * pow(x, j1);
        assert(binom(p, j1) * pow(x, j1) == p * t) by (nonlinear_arith)
            requires
                binom(p, j1) == p * c,
                t == c * pow(x, j1),
        ;
        lemma_mod_multiples_vanish(t, binom_sum(x, p, j1), p as int);
    }
}

/// `(x + 1)^p == x^p + 1` modulo a prime `p`.
proof fn lemma_freshman(x: int, p: nat)
    requires
        is_prime(p),
    ensures
        pow(x + 1, p) % (p as int) == (pow(x, p) + 1) % (p as int),
{
    lemma_binomial(x, p);
    lemma_binom_full(p);
    lemma_inner_terms(x, p, p);
    let s = binom_sum(x, p, p);
    lemma_fundamental_div_mod(s, p as int);
    let t = s / (p as int);
    assert(binom_sum(x, p, p + 1) == s + binom(p, p) * pow(x, p));
    assert(s == p * t + 1);
    assert(pow(x + 1, p) == p * t + (pow(x, p) + 1));
    lemma_mod_multiples_vanish(t, pow(x, p) + 1, p as int);
}

proof fn lemma_fermat_all(a: nat, p: nat)
    requires
        is_prime(p),
    ensures
        pow(a as int, p) % (p as int) == (a as int) % (p as int),
    decreases a,
{
    if a == 0 {
        lemma0_pow(p);
    } else {
        let a1 = (a - 1) as nat;
        lemma_fermat_all(a1, p);
        lemma_freshman(a1 as int, p);
        lemma_add_mod_noop(pow(a1 as int, p), 1, p as int);
        lemma_add_mod_noop(a1 as int, 1, p as int);
    }
}

/// Fermat's little theorem: `r^(p-1) == 1` modulo a prime `p` that does not
/// divide `r`.
pub proof fn lemma_fermat(r: nat, p: nat)
    requires
        is_prime(p),
        r % p != 0,
    ensures
        pow(r as int, (p - 1) as nat) % (p as int) == 1,
{
    let pi = p as int;
    let e1 = pow(r as int, (p - 1) as nat);
    if r == 0 {
        lemma_small_mod(0, p);
    }
    lemma_pow_positive(r as int, (p - 1) as nat);
    lemma_pow_step(r as int, (p - 1) as nat);
    lemma_fermat_all(r, p);
    let e = (e1 - 1) as nat;
    lemma_fundamental_div_mod(pow(r as int, p), pi);
    lemma_fundamental_div_mod(r as int, pi);
    let qa = pow(r as int, p) / pi;
    let qb = (r as int) / pi;
    assert(r * e == pi * (qa - qb)) by (nonlinear_arith)
        requires
            pow(r as int, p) == r * e1,
            e == e1 - 1,
            pow(r as int, p) == pi * qa + pow(r as int, p) % pi,
            r == pi * qb + (r as int) % pi,
            pow(r as int, p) % pi == (r as int) % pi,
    ;
    lemma_fundamental_div_mod_converse((r * e) as int, pi, qa - qb, 0);
    lemma_euclid(p, r, e);
    lemma_fundamental_div_mod(e as int, pi);
    lemma_mod_multiples_vanish(e as int / pi, 1, pi);
    lemma_small_mod(1, p);
}

proof fn lemma_lambda_power_mod_prime(r: nat, p: nat, q: nat)
    requires
        is_prime(p),
        r % p != 0,
        q >= 1,
    ensures
        pow(r as int, ((p - 1) * (q - 1)) as nat) % (p as int) == 1,
{
    lemma_fermat(r, p);
    let e = pow(r as int, (p - 1) as nat);
    lemma_pow_multiplies(r as int, (p - 1) as nat, (q - 1) as nat);
    lemma_pow_mod_noop(e, (q - 1) as nat, p as int);
    lemma1_pow((q - 1) as nat);
    lemma_small_mod(1, p);
}

proof fn lemma_coprime_to_factor(r: nat, p: nat, q: nat)
    requires
        is_prime(p),
        gcd(r, p * q) == 1,
    ensures
        r % p != 0,
{
    if r % p == 0 {
        let (x, y) = lemma_bezout(r, p * q);
        lemma_fundamental_div_mod(r as int, p as int);
        let a = (r / p) as int;
        assert(p * (a * x + q * y) == 1) by (nonlinear_arith)
            requires
                r == p * a,
                r * x + (p * q) * y == 1,
        ;
        assert(false) by (nonlinear_arith)
            requires
                p * (a * x + q * y) == 1,
                p > 1,
        ;
    }
}

proof fn lemma_both_primes_divide(x: nat, p: nat, q: nat)
    requires
        is_prime(p),
        is_prime(q),
        p != q,
        x % p == 0,
        x % q == 0,
    ensures
        x % (p * q) == 0,
{
    lemma_fundamental_div_mod(x as int, p as int);
    let k = x / p;
    assert(x == p * k);
    if q < p {
        assert(p % q != 0);
    } else {
        lemma_small_mod(p, q);
    }
    lemma_euclid(q, p, k);
    lemma_fundamental_div_mod(k as int, q as int);
    let j = (k / q) as int;
    assert(x == j * (p * q)) by (nonlinear_arith)
        requires
            x == p * k,
            k == q * j,
    ;
    assert(p * q > 0) by (nonlinear_arith)
        requires
            p > 1,
            q > 1,
    ;
    lemma_fundamental_div_mod_converse(x as int, (p * q) as int, j, 0);
}

proof fn lemma_lift_power(t: int, n: int, k: nat) -> (s: int)
    ensures
        pow(1 + t * n, k) == 1 + k * t * n + n * n * s,
    decreases k,
{
    if k == 0 {
        lemma_pow0(1 + t * n);
        assert(0 * t * n == 0) by (nonlinear_arith);
        assert(n * n * 0 == 0) by (nonlinear_arith);
        0
    } else {
        let k1 = (k - 1) as nat;
        let s1 = lemma_lift_power(t, n, k1);
        lemma_pow_step(1 + t * n, k1);
        let s = k1 * t * t + s1 + n * s1 * t;
        let a = t * n;
        let b = k1 * t * n + n * n * s1;
        assert((1 + a) * (1 + b) == 1 + a + b + a * b) by (nonlinear_arith);
        assert(a * b == n * n * (k1 * t * t + n * s1 * t)) by (nonlinear_arith)
            requires
                a == t * n,
                b == k1 * t * n + n * n * s1,
        ;
        assert(k * t * n == k1 * t * n + t * n) by (nonlinear_arith)
            requires
                k == k1 + 1,
        ;
        assert(n * n * s == n * n * s1 + n * n * (k1 * t * t + n * s1 * t)) by (nonlinear_arith)
            requires
                s == k1 * t * t + s1 + n * s1 * t,
        ;
        s
    }
}

/// For distinct primes `p` and `q`, with `n = p*q` and
/// `lambda = (p-1)(q-1)`, every `r` coprime to `n` has `r^(n*lambda) == 1`
/// modulo `n^2`.
pub proof fn lemma_blinding_vanishes(r: nat, p: nat, q: nat)
    requires
        is_prime(p),
        is_prime(q),
        p != q,
        gcd(r, p * q) == 1,
    ensures
        pow_mod(r, (p * q) * ((p - 1) * (q - 1)) as nat, square(p * q)) == 1,
{
    let n = p * q;
    let lambda = ((p - 1) * (q - 1)) as nat;
    assert(q * p == n) by (nonlinear_arith)
        requires
            n == p * q,
    ;
    assert(n > 1) by (nonlinear_arith)
        requires
            p > 1,
            q > 1,
            n == p * q,
    ;
    lemma_coprime_to_factor(r, p, q);
    lemma_coprime_to_factor(r, q, p);
    lemma_lambda_power_mod_prime(r, p, q);
    lemma_lambda_power_mod_prime(r, q, p);
    assert((q - 1) * (p - 1) == lambda) by (nonlinear_arith)
        requires
            lambda == (p - 1) * (q - 1),
    ;
    if r == 0 {
        lemma_small_mod(0, p);
    }
    lemma_pow_positive(r as int, lambda);
    let e = pow(r as int, lambda);
    let x = (e - 1) as nat;
    lemma_fundamental_div_mod(e, p as int);
    lemma_fundamental_div_mod_converse(x as int, p as int, e / (p as int), 0);
    lemma_fundamental_div_mod(e, q as int);
    lemma_fundamental_div_mod_converse(x as int, q as int, e / (q as int), 0);
    lemma_both_primes_divide(x, p, q);
    lemma_fundamental_div_mod(x as int, n as int);
    let t = (x / n) as int;
    assert(e == 1 + t * n);
    lemma_pow_multiplies(r as int, lambda, n);
    assert(lambda * n == n * lambda) by (nonlinear_arith);
    assert(pow(r as int, n * lambda) == pow(e, n));
    let s = lemma_lift_power(t, n as int, n);
    assert(pow(e, n) == 1 + n * t * n + n * n * s);
    assert(1 + n * t * n + n * n * s == (t + s) * (n * n) + 1) by (nonlinear_arith);
    assert(1 < n * n) by (nonlinear_arith)
        requires
            n > 1,
    ;
    lemma_fundamental_div_mod_converse(
        pow(r as int, n * lambda),
        (n * n) as int,
        t + s,
        1,
    );
}

/// A divisor of a prime is one or the prime itself.
proof fn lemma_prime_divisor(p: nat, d: nat, k: int)
    requires
        is_prime(p),
        p == d * k,
    ensures
        d == 1 || d == p,
{
    if d == 0 {
        assert(p == 0 * k);
    }
    assert(k >= 1) by (nonlinear_arith)
        requires
            p == d * k,
            p > 1,
            d > 0,
    ;
    assert(d <= p) by (nonlinear_arith)
        requires
            p == d * k,
            k >= 1,
            d > 0,
    ;
    if 1 < d < p {
        lemma_fundamental_div_mod_converse(p as int, d as int, k, 0);
        assert(p % d != 0);
    }
}

/// For odd primes `p` and `q` within a factor of two of each other,
/// `p` does not divide `(p-1)(q-1)`.
proof fn lemma_lambda_not_multiple(p: nat, q: nat)
    requires
        is_prime(p),
        is_prime(q),
        p % 2 == 1,
        q % 2 == 1,
        q < 2 * p,
    ensures
        ((p - 1) * (q - 1)) as nat % p != 0,
{
    let a = (q - 1) as nat;
    let b = (p - 1) as nat;
    lemma_fundamental_div_mod(a as int, p as int);
    let k = a / p;
    if a % p == 0 {
        assert(a == p * k);
        assert(k == 1) by (nonlinear_arith)
            requires
                a == p * k,
                0 < a < 2 * p,
        ;
        assert(a == p) by (nonlinear_arith)
            requires
                a == p * k,
                k == 1,
        ;
        assert(false);
    }
    lemma_small_mod(b, p);
    assert(a * b == (p - 1) * (q - 1)) by (nonlinear_arith)
        requires
            a == q - 1,
            b == p - 1,
    ;
    if (a * b) % p == 0 {
        lemma_euclid(p, a, b);
    }
}

/// For distinct odd primes `p` and `q` within a factor of two of each other,
/// `lambda = (p-1)(q-1)` is coprime to `n = p*q`, so it has an inverse modulo `n`.
pub proof fn lemma_lambda_coprime(p: nat, q: nat)
    requires
        is_prime(p),
        is_prime(q),
        p != q,
        p % 2 == 1,
        q % 2 == 1,
        q < 2 * p,
        p < 2 * q,
    ensures
        gcd(((p - 1) * (q - 1)) as nat, p * q) == 1,
{
    let lambda = ((p - 1) * (q - 1)) as nat;
    let n = p * q;
    lemma_lambda_not_multiple(p, q);
    lemma_lambda_not_multiple(q, p);
    assert((q - 1) * (p - 1) == lambda) by (nonlinear_arith)
        requires
            lambda == (p - 1) * (q - 1),
    ;
    let g = gcd(lambda, n);
    let (kl, kn) = lemma_gcd_divides(lambda, n);
    let h = gcd(g, p);
    let (kg, kp) = lemma_gcd_divides(g, p);
    lemma_prime_divisor(p, h, kp);
    if h == p {
        assert(lambda == p * (kg * kl)) by (nonlinear_arith)
            requires
                lambda == g * kl,
                g == h * kg,
                h == p,
        ;
        lemma_fundamental_div_mod_converse(lambda as int, p as int, kg * kl, 0);
    }
    let (x, y) = lemma_bezout(g, p);
    assert(q == g * (q * x + kn * y)) by (nonlinear_arith)
        requires
            g * x + p * y == 1,
            p * q == g * kn,
    ;
    lemma_prime_divisor(q, g, q * x + kn * y);
    if g == q {
        assert(lambda == q * kl);
        lemma_fundamental_div_mod_converse(lambda as int, q as int, kl, 0);
    }
}

} // verus!
