use crate::natural::{gcd, Natural};
use crate::number_theory::{is_prime, lemma_lambda_coprime};
use crate::scheme::PaillierError;
use crypto_bigint::rand_core::UnwrapErr;
use crypto_bigint::U2048;
use crypto_primes::{random_prime, Flavor};
use num_bigint::BigUint;
use vstd::arithmetic::power::pow;
use vstd::prelude::*;

verus! {

/// Bit length of each of the two primes that `Keypair::new` draws.
pub const PRIME_BITS: u32 = 1024;

/// How many times key generation draws the second prime while it equals the
/// first.
pub const MAX_PRIME_DRAWS: u32 = 64;

/// The public key: the modulus `n` and the base `g = n + 1`.
#[derive(Debug)]
pub struct EncryptionKey {
    pub n: Natural,
    pub g: Natural,
}

/// The private key: `lambda = (p-1)(q-1)` and `mu = lambda^-1 mod n`.
#[derive(Debug)]
pub struct DecryptionKey {
    pub lambda: Natural,
    pub mu: Natural,
}

/// A public key with its matching private key.
#[derive(Debug)]
pub struct Keypair {
    pub ek: EncryptionKey,
    pub dk: DecryptionKey,
}

impl EncryptionKey {
    /// A usable public key: a modulus above one and the base `n + 1`.
    pub open spec fn wf(&self) -> bool {
        &&& self.n@ > 1
        &&& self.g@ == self.n@ + 1
    }
}

impl Keypair {
    /// A usable key pair: a usable public key and `mu` the inverse of
    /// `lambda` modulo `n`.
    pub open spec fn wf(&self) -> bool {
        &&& self.ek.wf()
        &&& self.dk.mu@ < self.ek.n@
        &&& (self.dk.lambda@ * self.dk.mu@) % self.ek.n@ == 1
    }

    /// The key pair is the one of the distinct primes `p` and `q`:
    /// `n = p*q`, `g = n + 1` and `lambda = (p-1)(q-1)`.
    pub open spec fn made_from_primes(&self, p: nat, q: nat) -> bool {
        &&& is_prime(p)
        &&& is_prime(q)
        &&& p != q
        &&& self.ek.n@ == p * q
        &&& self.ek.g@ == p * q + 1
        &&& self.dk.lambda@ == (p - 1) * (q - 1)
    }

    /// The key pair of the primes `p` and `q`: `n = p*q`, `g = n + 1`,
    /// `lambda = (p-1)(q-1)` and `mu = lambda^-1 mod n`. It fails, with
    /// `NoInverse`, exactly when `lambda` has no inverse modulo `n`.
    pub fn from_primes(p: &Natural, q: &Natural) -> (r: Result<Keypair, PaillierError>)
        requires
            p@ >= 2,
            q@ >= 2,
        ensures
            r is Ok <==> gcd(((p@ - 1) * (q@ - 1)) as nat, p@ * q@) == 1,
            r is Err ==> r == Err::<Keypair, PaillierError>(PaillierError::NoInverse),
            r matches Ok(kp) ==> {
                &&& kp.wf()
                &&& kp.ek.n@ == p@ * q@
                &&& kp.ek.g@ == p@ * q@ + 1
                &&& kp.dk.lambda@ == (p@ - 1) * (q@ - 1)
            },
    {
        let one = Natural::from_u32(1);
        let n = p.times(q);
        let g = n.plus(&one);
        let lambda = p.minus(&one).times(&q.minus(&one));
        proof {
            assert(p@ * q@ >= 2 * 2) by (nonlinear_arith)
                requires
                    p@ >= 2,
                    q@ >= 2,
            ;
            vstd::arithmetic::div_mod::lemma_small_mod(1, n@);
        }
        match lambda.mod_inverse(&n) {
            Some(mu) => Ok(Keypair { ek: EncryptionKey { n, g }, dk: DecryptionKey { lambda, mu } }),
            None => Err(PaillierError::NoInverse),
        }
    }

    /// A fresh key pair from two distinct random primes of `bits` bits each.
    /// The second prime is drawn again, up to `MAX_PRIME_DRAWS` times in all,
    /// while it equals the first; only if every draw did is the result
    /// `RepeatedPrime`.
    pub fn with_prime_bits(bits: u32) -> (r: Result<Keypair, PaillierError>)
        requires
            2 <= bits <= 2048,
        ensures
            r is Err ==> r == Err::<Keypair, PaillierError>(PaillierError::RepeatedPrime),
            r matches Ok(kp) ==> {
                &&& kp.wf()
                &&& pow(2, (2 * bits - 2) as nat) <= kp.ek.n@ < pow(2, 2 * bits as nat)
                &&& exists|p: nat, q: nat|
                    {
                        &&& #[trigger] kp.made_from_primes(p, q)
                        &&& pow(2, (bits - 1) as nat) <= p < pow(2, bits as nat)
                        &&& pow(2, (bits - 1) as nat) <= q < pow(2, bits as nat)
                    }
            },
    {
        let p = random_prime_of_bits(bits);
        let mut q = random_prime_of_bits(bits);
        let mut draws: u32 = 1;
        while !p.gcd(&q).is_one() && draws < MAX_PRIME_DRAWS
            invariant
                2 <= bits <= 2048,
                is_prime(p@),
                p@ % 2 == 1,
                pow(2, (bits - 1) as nat) <= p@ < pow(2, bits as nat),
                is_prime(q@),
                q@ % 2 == 1,
                pow(2, (bits - 1) as nat) <= q@ < pow(2, bits as nat),
            decreases MAX_PRIME_DRAWS - draws,
        {
            q = random_prime_of_bits(bits);
            draws = draws + 1;
        }
        if !p.gcd(&q).is_one() {
            return Err(PaillierError::RepeatedPrime);
        }
        proof {
            if p@ == q@ {
                vstd::arithmetic::div_mod::lemma_fundamental_div_mod_converse(
                    p@ as int,
                    p@ as int,
                    1,
                    0,
                );
                reveal_with_fuel(gcd, 2);
                assert(gcd(p@, p@) == p@);
            }
            vstd::arithmetic::power::lemma_pow_adds(2, (bits - 1) as nat, 1);
            vstd::arithmetic::power::lemma_pow1(2);
            assert(((bits - 1) as nat + 1) as nat == bits as nat);
            lemma_lambda_coprime(p@, q@);
            lemma_product_bits(p@, q@, bits as nat);
        }
        let r = Self::from_primes(&p, &q);
        proof {
            assert(r->Ok_0.made_from_primes(p@, q@));
        }
        r
    }

    /// A fresh key pair from two distinct random 1024-bit primes, so a
    /// 2048-bit modulus.
    pub fn new() -> (r: Result<Keypair, PaillierError>)
        ensures
            r is Err ==> r == Err::<Keypair, PaillierError>(PaillierError::RepeatedPrime),
            r matches Ok(kp) ==> {
                &&& kp.wf()
                &&& pow(2, 2046) <= kp.ek.n@ < pow(2, 2048)
                &&& exists|p: nat, q: nat|
                    {
                        &&& #[trigger] kp.made_from_primes(p, q)
                        &&& pow(2, 1023) <= p < pow(2, 1024)
                        &&& pow(2, 1023) <= q < pow(2, 1024)
                    }
            },
    {
        Self::with_prime_bits(PRIME_BITS)
    }
}

proof fn lemma_product_bits(p: nat, q: nat, bits: nat)
    requires
        bits >= 2,
        pow(2, (bits - 1) as nat) <= p < pow(2, bits),
        pow(2, (bits - 1) as nat) <= q < pow(2, bits),
    ensures
        pow(2, (2 * bits - 2) as nat) <= p * q < pow(2, 2 * bits),
{
    let lo = pow(2, (bits - 1) as nat);
    let hi = pow(2, bits);
    vstd::arithmetic::power::lemma_pow_positive(2, (bits - 1) as nat);
    vstd::arithmetic::power::lemma_pow_adds(2, (bits - 1) as nat, (bits - 1) as nat);
    vstd::arithmetic::power::lemma_pow_adds(2, bits, bits);
    assert(lo * lo <= p * q) by (nonlinear_arith)
        requires
            0 <= lo <= p,
            lo <= q,
    ;
    assert(p * q < hi * hi) by (nonlinear_arith)
        requires
            0 <= p < hi,
            0 <= q < hi,
    ;
}

/// Relies on `crypto_primes::random_prime` (drawing from the operating
/// system's generator): a prime of exactly `bits` bits, most significant bit
/// set, found among odd candidates. It panics below the smallest prime's two
/// bits or above `U2048`.
#[verifier::external_body]
fn random_prime_of_bits(bits: u32) -> (r: Natural)
    requires
        2 <= bits <= 2048,
    ensures
        is_prime(r@),
        r@ % 2 == 1,
        pow(2, (bits - 1) as nat) <= r@ < pow(2, bits as nat),
{
    let p: U2048 = random_prime(&mut UnwrapErr(getrandom::SysRng), Flavor::Any, bits);
    let p = BigUint::from_bytes_be(&p.to_be_bytes());
    Natural { digits: p.to_u32_digits() }
}

} // verus!
