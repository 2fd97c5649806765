use num_bigint::{BigUint, RandBigInt};
use num_integer::Integer;
use vstd::arithmetic::power::pow;
use vstd::prelude::*;

verus! {

/// Value of a little-endian sequence of base 2^32 digits.
pub open spec fn digits_value(s: Seq<u32>) -> nat
    decreases s.len(),
{
    if s.len() == 0 {
        0
    } else {
        s[0] as nat + 4294967296 * digits_value(s.drop_first())
    }
}

/// Greatest common divisor, by Euclid's recursion (`gcd(a, 0) == a`).
pub open spec fn gcd(a: nat, b: nat) -> nat
    decreases b,
{
    if b == 0 {
        a
    } else {
        gcd(b, a % b)
    }
}

/// `b^e mod m` over the naturals.
pub open spec fn pow_mod(b: nat, e: nat, m: nat) -> nat
    recommends
        m > 0,
{
    (pow(b as int, e) % (m as int)) as nat
}

/// An arbitrary-precision natural number, held as its base 2^32 digits,
/// least significant first.
#[derive(Debug, Clone, PartialEq, Eq)]
pub struct Natural {
    pub digits: Vec<u32>,
}

impl View for Natural {
    type V = nat;

    open spec fn view(&self) -> nat {
        digits_value(self.digits@)
    }
}

impl Natural {
    /// The number whose base 2^32 digits, least significant first, are `digits`.
    pub fn from_digits(digits: Vec<u32>) -> (r: Natural)
        ensures
            r@ == digits_value(digits@),
    {
        Natural { digits }
    }

    /// The number `v`.
    pub fn from_u32(v: u32) -> (r: Natural)
        ensures
            r@ == v as nat,
    {
        let digits = vec![v];
        proof {
            assert(digits@.drop_first() =~= Seq::<u32>::empty());
            reveal_with_fuel(digits_value, 2);
        }
        Natural { digits }
    }

    /// Relies on `BigUint * BigUint`: the exact product.
    #[verifier::external_body]
    pub(crate) fn times(&self, o: &Natural) -> (r: Natural)
        ensures
            r@ == self@ * o@,
    {
        let r = BigUint::from_slice(&self.digits) * BigUint::from_slice(&o.digits);
        Natural { digits: r.to_u32_digits() }
    }

    /// Relies on `BigUint + BigUint`: the exact sum.
    #[verifier::external_body]
    pub(crate) fn plus(&self, o: &Natural) -> (r: Natural)
        ensures
            r@ == self@ + o@,
    {
        let r = BigUint::from_slice(&self.digits) + BigUint::from_slice(&o.digits);
        Natural { digits: r.to_u32_digits() }
    }

    /// Relies on `BigUint - BigUint`: the exact difference; it panics on underflow.
    #[verifier::external_body]
    pub(crate) fn minus(&self, o: &Natural) -> (r: Natural)
        requires
            self@ >= o@,
        ensures
            r@ == self@ - o@,
    {
        let r = BigUint::from_slice(&self.digits) - BigUint::from_slice(&o.digits);
        Natural { digits: r.to_u32_digits() }
    }

    /// Relies on `BigUint / BigUint`: the floor quotient; it panics on a zero divisor.
    #[verifier::external_body]
    pub(crate) fn quot(&self, d: &Natural) -> (r: Natural)
        requires
            d@ > 0,
        ensures
            r@ == self@ / d@,
    {
        let r = BigUint::from_slice(&self.digits) / BigUint::from_slice(&d.digits);
        Natural { digits: r.to_u32_digits() }
    }

    /// Relies on `BigUint % BigUint`: the remainder; it panics on a zero divisor.
    #[verifier::external_body]
    pub(crate) fn rem(&self, d: &Natural) -> (r: Natural)
        requires
            d@ > 0,
        ensures
            r@ == self@ % d@,
    {
        let r = BigUint::from_slice(&self.digits) % BigUint::from_slice(&d.digits);
        Natural { digits: r.to_u32_digits() }
    }

    /// Relies on `BigUint::modpow`: `self^e mod m`; it panics on a zero modulus.
    #[verifier::external_body]
    pub(crate) fn pow_mod(&self, e: &Natural, m: &Natural) -> (r: Natural)
        requires
            m@ > 0,
        ensures
            r@ == pow_mod(self@, e@, m@),
    {
        let b = BigUint::from_slice(&self.digits);
        let r = b.modpow(&BigUint::from_slice(&e.digits), &BigUint::from_slice(&m.digits));
        Natural { digits: r.to_u32_digits() }
    }

    /// Relies on `num_integer::Integer::gcd` for `BigUint`: the greatest common divisor.
    #[verifier::external_body]
    pub(crate) fn gcd(&self, o: &Natural) -> (r: Natural)
        ensures
            r@ == gcd(self@, o@),
    {
        let r = BigUint::from_slice(&self.digits).gcd(&BigUint::from_slice(&o.digits));
        Natural { digits: r.to_u32_digits() }
    }

    /// Relies on `BigUint::modinv`: the inverse in `[0, m)` of `self` modulo `m`,
    /// which exists exactly when `gcd(self, m) == 1`; it panics on a zero modulus.
    #[verifier::external_body]
    pub(crate) fn mod_inverse(&self, m: &Natural) -> (r: Option<Natural>)
        requires
            m@ > 0,
        ensures
            r is Some <==> gcd(self@, m@) == 1,
            r matches Some(x) ==> x@ < m@ && (self@ * x@) % m@ == 1nat % m@,
    {
        let r = BigUint::from_slice(&self.digits).modinv(&BigUint::from_slice(&m.digits));
        match r {
            Some(x) => Some(Natural { digits: x.to_u32_digits() }),
            None => None,
        }
    }

    /// Relies on `BigUint == BigUint`: whether the value is one.
    #[verifier::external_body]
    pub(crate) fn is_one(&self) -> (r: bool)
        ensures
            r == (self@ == 1),
    {
        BigUint::from_slice(&self.digits) == BigUint::from(1u8)
    }
}

/// Relies on `RandBigInt::gen_biguint_below` on rand's thread-local generator:
/// a draw from `[0, bound)`; it panics on a zero bound.
#[verifier::external_body]
pub(crate) fn random_below(bound: &Natural) -> (r: Natural)
    requires
        bound@ > 0,
    ensures
        r@ < bound@,
{
    let r = rand::thread_rng().gen_biguint_below(&BigUint::from_slice(&bound.digits));
    Natural { digits: r.to_u32_digits() }
}

} // verus!
