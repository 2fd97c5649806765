use crate::natural::{gcd, pow_mod};
use vstd::prelude::*;

verus! {

/// Why an operation of the scheme gave no result.
#[derive(Debug, Clone, Copy, PartialEq, Eq, Structural)]
pub enum PaillierError {
    /// `lambda = (p-1)(q-1)` has no inverse modulo `n = p*q`: the two numbers
    /// were not distinct primes.
    NoInverse,
    /// Every redraw of the second prime gave the first one again: the random
    /// source is broken.
    RepeatedPrime,
    /// Every blinding factor drawn shared a factor with `n`: the random source
    /// is broken.
    BlindingExhausted,
    /// `c^lambda mod n^2` is not `1 mod n`: the ciphertext was not made under
    /// this key.
    InvalidCiphertext,
}

/// The public modulus squared: the ciphertext group is `(Z/n^2 Z)*`.
pub open spec fn square(n: nat) -> nat {
    n * n
}

/// The ciphertext of `m` under modulus `n` and base `g`, blinded by `r`:
/// `g^(m mod n) * r^n mod n^2`.
pub open spec fn encrypt_value(m: nat, r: nat, n: nat, g: nat) -> nat
    recommends
        n > 0,
{
    (pow_mod(g, m % n, square(n)) * pow_mod(r, n, square(n))) % square(n)
}

/// A blinding factor is usable when it is invertible modulo `n`.
pub open spec fn valid_blinding(r: nat, n: nat) -> bool {
    gcd(r, n) == 1
}

/// `c^lambda mod n^2`, which is `1 mod n` for a ciphertext made under the key.
pub open spec fn lifted(c: nat, n: nat, lambda: nat) -> nat
    recommends
        n > 0,
{
    pow_mod(c, lambda, square(n))
}

/// Whether `c` passes decryption's check under `(n, lambda)`.
pub open spec fn decryptable(c: nat, n: nat, lambda: nat) -> bool
    recommends
        n > 0,
{
    lifted(c, n, lambda) % n == 1
}

/// The L-function `L(x) = (x - 1) / n`.
pub open spec fn l_function(x: nat, n: nat) -> nat
    recommends
        n > 0,
        x >= 1,
{
    ((x - 1) as nat) / n
}

/// The plaintext recovered from `c`: `L(c^lambda mod n^2) * mu mod n`.
pub open spec fn decrypt_value(c: nat, n: nat, lambda: nat, mu: nat) -> nat
    recommends
        n > 0,
{
    (l_function(lifted(c, n, lambda), n) * mu) % n
}

/// Homomorphic addition: `a * b mod n^2`.
pub open spec fn combine_value(a: nat, b: nat, n: nat) -> nat
    recommends
        n > 0,
{
    (a * b) % square(n)
}

} // verus!
