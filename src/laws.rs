use crate::natural::pow_mod;
use crate::number_theory::{is_prime, lemma_blinding_vanishes};
use crate::scheme::{
    combine_value, encrypt_value, valid_blinding, decrypt_value, decryptable, l_function, lifted, square,
};
use vstd::arithmetic::div_mod::{
    lemma_add_mod_noop, lemma_fundamental_div_mod, lemma_fundamental_div_mod_converse,
    lemma_mul_mod_noop, lemma_mul_mod_noop_left, lemma_small_mod,
};
use vstd::arithmetic::power::{
    lemma_pow1, lemma_pow_adds, lemma_pow_distributes, lemma_pow_mod_noop, lemma_pow_multiplies, pow,
};
use vstd::prelude::*;

verus! {

/// `a` combined with `b`, `k` times over: what `k` calls of
/// `add_assign(b)` leave in `a`.
pub open spec fn combine_times(a: nat, b: nat, k: nat, n: nat) -> nat
    decreases k,
{
    if k == 0 {
        a
    } else {
        combine_value(combine_times(a, b, (k - 1) as nat, n), b, n)
    }
}

/// All of `s` combined from left to right, starting from the ciphertext `1`.
pub open spec fn combine_all(s: Seq<nat>, n: nat) -> nat
    decreases s.len(),
{
    if s.len() == 0 {
        1
    } else {
        combine_value(combine_all(s.drop_last(), n), s.last(), n)
    }
}

/// The sum of what each of `s` decrypts to.
pub open spec fn decrypted_sum(s: Seq<nat>, n: nat, lambda: nat, mu: nat) -> nat
    decreases s.len(),
{
    if s.len() == 0 {
        0
    } else {
        decrypted_sum(s.drop_last(), n, lambda, mu) + decrypt_value(s.last(), n, lambda, mu)
    }
}

proof fn lemma_square_bounds(n: nat)
    requires
        n > 1,
    ensures
        square(n) > n,
{
    assert(n * n > n) by (nonlinear_arith)
        requires
            n > 1,
    ;
}

/// The lift of a combination is the product of the lifts.
proof fn lemma_lift_of_combination(a: nat, b: nat, n: nat, lambda: nat)
    requires
        n > 1,
    ensures
        lifted(combine_value(a, b, n), n, lambda) == (lifted(a, n, lambda) * lifted(b, n, lambda))
            % square(n),
{
    lemma_square_bounds(n);
    let nn = square(n) as int;
    lemma_pow_mod_noop((a * b) as int, lambda, nn);
    lemma_pow_distributes(a as int, b as int, lambda);
    lemma_mul_mod_noop(pow(a as int, lambda), pow(b as int, lambda), nn);
}

/// Two numbers below `n^2` that are `1 mod n` multiply, modulo `n^2`, to one
/// that is `1 mod n`, with the L-values added modulo `n`.
proof fn lemma_one_mod_n_product(x: nat, y: nat, n: nat)
    requires
        n > 1,
        x < n * n,
        y < n * n,
        x % n == 1,
        y % n == 1,
    ensures
        ((x * y) % (n * n)) % n == 1,
        l_function((x * y) % (n * n), n) == (l_function(x, n) + l_function(y, n)) % n,
{
    let ni = n as int;
    let u = x / n;
    let v = y / n;
    lemma_fundamental_div_mod(x as int, ni);
    lemma_fundamental_div_mod(y as int, ni);
    assert(x == u * n + 1);
    assert(y == v * n + 1);
    lemma_fundamental_div_mod_converse((x - 1) as int, ni, u as int, 0);
    lemma_fundamental_div_mod_converse((y - 1) as int, ni, v as int, 0);
    assert(u < n) by (nonlinear_arith)
        requires
            x == u * n + 1,
            x < n * n,
            n > 1,
    ;
    let w = (u + v) % n;
    let t = (u + v) / n;
    lemma_fundamental_div_mod((u + v) as int, ni);
    assert(x * y == (t + u * v) * (n * n) + (1 + w * n)) by (nonlinear_arith)
        requires
            x == u * n + 1,
            y == v * n + 1,
            u + v == n * t + w,
    ;
    assert(1 + w * n < n * n) by (nonlinear_arith)
        requires
            w < n,
            n > 1,
    ;
    lemma_fundamental_div_mod_converse(
        (x * y) as int,
        (n * n) as int,
        (t + u * v) as int,
        (1 + w * n) as int,
    );
    lemma_fundamental_div_mod_converse((1 + w * n) as int, ni, w as int, 1);
    lemma_fundamental_div_mod_converse((w * n) as int, ni, w as int, 0);
}

/// Decryption's last step distributes over a sum of L-values.
proof fn lemma_scaled_sum(u: nat, v: nat, n: nat, mu: nat)
    requires
        n > 0,
    ensures
        (((u + v) % n) * mu) % n == ((u * mu) % n + (v * mu) % n) % n,
{
    lemma_mul_mod_noop_left((u + v) as int, mu as int, n as int);
    assert((u + v) * mu == u * mu + v * mu) by (nonlinear_arith);
    lemma_add_mod_noop((u * mu) as int, (v * mu) as int, n as int);
}

/// Homomorphism: combining two ciphertexts that decrypt under a key gives
/// one that decrypts, under that key, to the sum of their plaintexts modulo `n`.
pub proof fn lemma_homomorphism(a: nat, b: nat, n: nat, lambda: nat, mu: nat)
    requires
        n > 1,
        decryptable(a, n, lambda),
        decryptable(b, n, lambda),
    ensures
        decryptable(combine_value(a, b, n), n, lambda),
        decrypt_value(combine_value(a, b, n), n, lambda, mu) == (decrypt_value(a, n, lambda, mu)
            + decrypt_value(b, n, lambda, mu)) % n,
{
    lemma_square_bounds(n);
    lemma_lift_of_combination(a, b, n, lambda);
    let x = lifted(a, n, lambda);
    let y = lifted(b, n, lambda);
    lemma_one_mod_n_product(x, y, n);
    lemma_scaled_sum(l_function(x, n), l_function(y, n), n, mu);
}

/// Combination is commutative.
pub proof fn lemma_combine_commutes(a: nat, b: nat, n: nat)
    requires
        n > 1,
    ensures
        combine_value(a, b, n) == combine_value(b, a, n),
{
    assert(a * b == b * a) by (nonlinear_arith);
}

/// Combination is associative.
pub proof fn lemma_combine_associates(a: nat, b: nat, c: nat, n: nat)
    requires
        n > 1,
    ensures
        combine_value(combine_value(a, b, n), c, n) == combine_value(a, combine_value(b, c, n), n),
{
    lemma_square_bounds(n);
    let nn = square(n) as int;
    lemma_mul_mod_noop_left((a * b) as int, c as int, nn);
    lemma_mul_mod_noop_left((b * c) as int, a as int, nn);
    assert((a * b) * c == (b * c) * a) by (nonlinear_arith);
    assert(a * ((b * c) % square(n)) == ((b * c) % square(n)) * a) by (nonlinear_arith);
}

/// Repeated combination: combining `a` with `b` `k` times decrypts to
/// `dec(a) + k * dec(b)` modulo `n`.
pub proof fn lemma_repeated_combination(a: nat, b: nat, k: nat, n: nat, lambda: nat, mu: nat)
    requires
        n > 1,
        decryptable(a, n, lambda),
        decryptable(b, n, lambda),
    ensures
        decryptable(combine_times(a, b, k, n), n, lambda),
        decrypt_value(combine_times(a, b, k, n), n, lambda, mu) == (decrypt_value(
            a,
            n,
            lambda,
            mu,
        ) + k * decrypt_value(b, n, lambda, mu)) % n,
    decreases k,
{
    let da = decrypt_value(a, n, lambda, mu) as int;
    let db = decrypt_value(b, n, lambda, mu) as int;
    if k == 0 {
        lemma_small_mod(da as nat, n);
        assert(da + k * db == da) by (nonlinear_arith)
            requires
                k == 0,
        ;
    } else {
        let prev = combine_times(a, b, (k - 1) as nat, n);
        lemma_repeated_combination(a, b, (k - 1) as nat, n, lambda, mu);
        lemma_homomorphism(prev, b, n, lambda, mu);
        lemma_small_mod(db as nat, n);
        lemma_add_mod_noop(da + (k - 1) * db, db, n as int);
        assert(da + (k - 1) * db + db == da + k * db) by (nonlinear_arith);
        assert(decrypt_value(prev, n, lambda, mu) == (da + (k - 1) * db) % (n as int));
        assert(decrypt_value(combine_times(a, b, k, n), n, lambda, mu) == (decrypt_value(
            prev,
            n,
            lambda,
            mu,
        ) + db) % (n as int));
    }
}

/// Aggregation: combining a sequence of ciphertexts that decrypt under a key
/// gives one that decrypts to the sum of their plaintexts modulo `n`.
pub proof fn lemma_aggregation(s: Seq<nat>, n: nat, lambda: nat, mu: nat)
    requires
        n > 1,
        forall|i: int| 0 <= i < s.len() ==> decryptable(#[trigger] s[i], n, lambda),
    ensures
        decryptable(combine_all(s, n), n, lambda),
        decrypt_value(combine_all(s, n), n, lambda, mu) == decrypted_sum(s, n, lambda, mu) % n,
    decreases s.len(),
{
    lemma_square_bounds(n);
    if s.len() == 0 {
        lemma_small_mod(1, square(n));
        vstd::arithmetic::power::lemma1_pow(lambda);
        lemma_small_mod(1, n);
        lemma_small_mod(0, n);
        assert(lifted(1, n, lambda) == 1);
        assert(l_function(1, n) == 0) by {
            lemma_fundamental_div_mod_converse(0, n as int, 0, 0);
        }
        assert(0 * mu == 0);
    } else {
        let init = s.drop_last();
        assert(forall|i: int| 0 <= i < init.len() ==> init[i] == s[i]);
        lemma_aggregation(init, n, lambda, mu);
        assert(decryptable(s[s.len() - 1], n, lambda));
        lemma_homomorphism(combine_all(init, n), s.last(), n, lambda, mu);
        let d = decrypt_value(s.last(), n, lambda, mu);
        lemma_small_mod(d, n);
        lemma_add_mod_noop(decrypted_sum(init, n, lambda, mu) as int, d as int, n as int);
        assert(decrypt_value(combine_all(s, n), n, lambda, mu) == (decrypt_value(
            combine_all(init, n),
            n,
            lambda,
            mu,
        ) + d) % n);
    }
}

/// Powers of the base `n + 1` modulo `n^2`: `(n+1)^k == 1 + (k mod n) * n`.
proof fn lemma_base_powers(n: nat, k: nat)
    requires
        n > 1,
    ensures
        pow((n + 1) as int, k) % (square(n) as int) == 1 + (k % n) * n,
    decreases k,
{
    lemma_square_bounds(n);
    let nn = square(n) as int;
    let ni = n as int;
    if k == 0 {
        lemma_small_mod(1, square(n));
        lemma_small_mod(0, n);
        assert(pow((n + 1) as int, 0) == 1) by {
            vstd::arithmetic::power::lemma_pow0((n + 1) as int);
        }
    } else {
        let k1 = (k - 1) as nat;
        lemma_base_powers(n, k1);
        let p = pow((n + 1) as int, k1);
        lemma_pow_adds((n + 1) as int, k1, 1);
        lemma_pow1((n + 1) as int);
        assert(pow((n + 1) as int, k) == p * (n + 1));
        lemma_mul_mod_noop_left(p, (n + 1) as int, nn);
        let j = k1 % n;
        let q = k1 / n;
        lemma_fundamental_div_mod(k1 as int, ni);
        assert(p % nn == 1 + j * n);
        assert(pow((n + 1) as int, k) % nn == (((1 + j * n) * (n + 1)) as int) % nn);
        assert((1 + j * n) * (n + 1) == 1 + (j + 1) * n + j * (n * n)) by (nonlinear_arith);
        if j + 1 < n {
            lemma_fundamental_div_mod_converse(k as int, ni, q as int, (j + 1) as int);
            assert(k % n == j + 1);
            assert(1 + (j + 1) * n < n * n) by (nonlinear_arith)
                requires
                    j + 1 < n,
                    n > 1,
            ;
            lemma_fundamental_div_mod_converse(
                (1 + (j + 1) * n + j * (n * n)) as int,
                nn,
                j as int,
                (1 + (j + 1) * n) as int,
            );
        } else {
            assert(j + 1 == n) by {
                lemma_small_mod(j, n);
            }
            assert(k == (q + 1) * n) by (nonlinear_arith)
                requires
                    k1 == n * q + j,
                    j + 1 == n,
                    k == k1 + 1,
            ;
            lemma_fundamental_div_mod_converse(k as int, ni, (q + 1) as int, 0);
            assert(k % n == 0);
            assert(1 + (j + 1) * n + j * (n * n) == (j + 1) * (n * n) + 1) by (nonlinear_arith)
                requires
                    j + 1 == n,
            ;
            lemma_fundamental_div_mod_converse(
                (1 + (j + 1) * n + j * (n * n)) as int,
                nn,
                (j + 1) as int,
                1,
            );
            assert(0 * n == 0);
        }
    }
}

/// A plaintext `m < n`, encrypted under `(n, n + 1)` with a blinding factor
/// whose `(n * lambda)`-th power is one modulo `n^2`, decrypts back to `m`
/// whenever `mu` is the inverse of `lambda` modulo `n`.
proof fn lemma_round_trip_with_vanishing_blinding(
    m: nat,
    r: nat,
    n: nat,
    lambda: nat,
    mu: nat,
)
    requires
        n > 1,
        m < n,
        (lambda * mu) % n == 1,
        pow_mod(r, n * lambda, square(n)) == 1,
    ensures
        decryptable(encrypt_value(m, r, n, n + 1), n, lambda),
        decrypt_value(encrypt_value(m, r, n, n + 1), n, lambda, mu) == m,
{
    lemma_square_bounds(n);
    let nn = square(n) as int;
    let ni = n as int;
    let g = (n + 1) as int;
    lemma_small_mod(m, n);
    let a = pow(g, m);
    let b = pow(r as int, n);
    lemma_mul_mod_noop(a, b, nn);
    let c = encrypt_value(m, r, n, n + 1);
    assert(c == (a * b) % nn);
    lemma_pow_mod_noop(a * b, lambda, nn);
    lemma_pow_distributes(a, b, lambda);
    lemma_pow_multiplies(g, m, lambda);
    lemma_pow_multiplies(r as int, n, lambda);
    let ga = pow(g, m * lambda);
    let rb = pow(r as int, n * lambda);
    lemma_mul_mod_noop(ga, rb, nn);
    lemma_base_powers(n, m * lambda);
    let w = (m * lambda) % n;
    assert(1 + w * n < n * n) by (nonlinear_arith)
        requires
            w < n,
            n > 1,
    ;
    lemma_small_mod((1 + w * n) as nat, square(n));
    let x = lifted(c, n, lambda);
    assert(x == 1 + w * n);
    lemma_fundamental_div_mod_converse(x as int, ni, w as int, 1);
    lemma_fundamental_div_mod_converse((w * n) as int, ni, w as int, 0);
    assert(l_function(x, n) == w);
    lemma_mul_mod_noop_left((m * lambda) as int, mu as int, ni);
    assert((m * lambda) * mu == ((lambda * mu) * m)) by (nonlinear_arith);
    lemma_mul_mod_noop_left((lambda * mu) as int, m as int, ni);
    assert(1 * m == m);
}

/// Round trip: for distinct primes `p` and `q`, `n = p*q`,
/// `lambda = (p-1)(q-1)` and `mu` its inverse modulo `n`, every plaintext
/// `m < n` encrypted under `(n, n + 1)` with any blinding factor coprime to
/// `n` passes decryption's check and decrypts back to `m`.
pub proof fn lemma_round_trip(m: nat, r: nat, p: nat, q: nat, mu: nat)
    requires
        is_prime(p),
        is_prime(q),
        p != q,
        m < p * q,
        valid_blinding(r, p * q),
        (((p - 1) * (q - 1)) as nat * mu) % (p * q) == 1,
    ensures
        decryptable(encrypt_value(m, r, p * q, p * q + 1), p * q, ((p - 1) * (q - 1)) as nat),
        decrypt_value(encrypt_value(m, r, p * q, p * q + 1), p * q, ((p - 1) * (q - 1)) as nat, mu)
            == m,
{
    lemma_blinding_vanishes(r, p, q);
    assert(p * q > 1) by (nonlinear_arith)
        requires
            p > 1,
            q > 1,
    ;
    lemma_round_trip_with_vanishing_blinding(m, r, p * q, ((p - 1) * (q - 1)) as nat, mu);
}

/// Homomorphism on fresh ciphertexts: under a key made from distinct primes,
/// the combination of encryptions of `m1 < n` and `m2 < n` decrypts to
/// `(m1 + m2) mod n`, whatever coprime blinding factors were drawn.
pub proof fn lemma_encrypted_sum(
    m1: nat,
    m2: nat,
    r1: nat,
    r2: nat,
    p: nat,
    q: nat,
    mu: nat,
)
    requires
        is_prime(p),
        is_prime(q),
        p != q,
        m1 < p * q,
        m2 < p * q,
        valid_blinding(r1, p * q),
        valid_blinding(r2, p * q),
        (((p - 1) * (q - 1)) as nat * mu) % (p * q) == 1,
    ensures
        decrypt_value(
            combine_value(
                encrypt_value(m1, r1, p * q, p * q + 1),
                encrypt_value(m2, r2, p * q, p * q + 1),
                p * q,
            ),
            p * q,
            ((p - 1) * (q - 1)) as nat,
            mu,
        ) == (m1 + m2) % (p * q),
{
    let n = p * q;
    let lambda = ((p - 1) * (q - 1)) as nat;
    lemma_round_trip(m1, r1, p, q, mu);
    lemma_round_trip(m2, r2, p, q, mu);
    assert(n > 1) by (nonlinear_arith)
        requires
            p > 1,
            q > 1,
            n == p * q,
    ;
    lemma_homomorphism(
        encrypt_value(m1, r1, n, n + 1),
        encrypt_value(m2, r2, n, n + 1),
        n,
        lambda,
        mu,
    );
}

/// Repeated combination on fresh ciphertexts: under a key made from distinct
/// primes, an encryption of `m1 < n` combined `k` times with an encryption of
/// `m2 < n` decrypts to `(m1 + k * m2) mod n`.
pub proof fn lemma_encrypted_repetition(
    m1: nat,
    m2: nat,
    r1: nat,
    r2: nat,
    k: nat,
    p: nat,
    q: nat,
    mu: nat,
)
    requires
        is_prime(p),
        is_prime(q),
        p != q,
        m1 < p * q,
        m2 < p * q,
        valid_blinding(r1, p * q),
        valid_blinding(r2, p * q),
        (((p - 1) * (q - 1)) as nat * mu) % (p * q) == 1,
    ensures
        decrypt_value(
            combine_times(
                encrypt_value(m1, r1, p * q, p * q + 1),
                encrypt_value(m2, r2, p * q, p * q + 1),
                k,
                p * q,
            ),
            p * q,
            ((p - 1) * (q - 1)) as nat,
            mu,
        ) == (m1 + k * m2) % (p * q),
{
    let n = p * q;
    lemma_round_trip(m1, r1, p, q, mu);
    lemma_round_trip(m2, r2, p, q, mu);
    assert(n > 1) by (nonlinear_arith)
        requires
            p > 1,
            q > 1,
            n == p * q,
    ;
    lemma_repeated_combination(
        encrypt_value(m1, r1, n, n + 1),
        encrypt_value(m2, r2, n, n + 1),
        k,
        n,
        ((p - 1) * (q - 1)) as nat,
        mu,
    );
}

proof fn lemma_combine_all_bound(s: Seq<nat>, n: nat)
    requires
        n > 1,
    ensures
        combine_all(s, n) < square(n),
    decreases s.len(),
{
    lemma_square_bounds(n);
    if s.len() > 0 {
        lemma_combine_all_bound(s.drop_last(), n);
    }
}

/// Order independence of aggregation: folding `s1 + s2` gives the
/// combination of the fold of `s1` with the fold of `s2`, so any split of a
/// sequence into parts, folded separately and then combined, gives the same
/// ciphertext as folding it from left to right.
pub proof fn lemma_aggregation_splits(s1: Seq<nat>, s2: Seq<nat>, n: nat)
    requires
        n > 1,
    ensures
        combine_all(s1 + s2, n) == combine_value(combine_all(s1, n), combine_all(s2, n), n),
    decreases s2.len(),
{
    lemma_square_bounds(n);
    lemma_combine_all_bound(s1, n);
    if s2.len() == 0 {
        assert(s1 + s2 =~= s1);
        assert(combine_all(s1, n) * 1 == combine_all(s1, n));
        lemma_small_mod(combine_all(s1, n), square(n));
    } else {
        let init = s2.drop_last();
        assert((s1 + s2).drop_last() =~= s1 + init);
        assert((s1 + s2).last() == s2.last());
        lemma_aggregation_splits(s1, init, n);
        lemma_combine_associates(combine_all(s1, n), combine_all(init, n), s2.last(), n);
    }
}

} // verus!
