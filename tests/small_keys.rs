use num_bigint::BigUint;
use paillier::cipher::{Ciphertext, Message};
use paillier::keys::Keypair;
use paillier::natural::Natural;
use paillier::scheme::PaillierError;

fn num(v: u64) -> Natural {
    Natural::from_digits(BigUint::from(v).to_u32_digits())
}

fn value(v: &Natural) -> BigUint {
    BigUint::from_slice(&v.digits)
}

fn key(p: u64, q: u64) -> Keypair {
    Keypair::from_primes(&num(p), &num(q)).unwrap()
}

#[test]
fn from_primes_derives_every_field() {
    let kp = key(11, 13);
    assert_eq!(value(&kp.ek.n), BigUint::from(143u32));
    assert_eq!(value(&kp.ek.g), BigUint::from(144u32));
    assert_eq!(value(&kp.dk.lambda), BigUint::from(120u32));
    assert_eq!(value(&kp.dk.mu), BigUint::from(87u32));
}

#[test]
fn from_primes_rejects_non_invertible_lambda() {
    let r = Keypair::from_primes(&num(4), &num(6));
    assert_eq!(r.err(), Some(PaillierError::NoInverse));
}

#[test]
fn from_primes_rejects_primes_where_q_minus_one_shares_p() {
    let r = Keypair::from_primes(&num(3), &num(7));
    assert_eq!(r.err(), Some(PaillierError::NoInverse));
}

#[test]
fn blinded_encryption_has_exact_value() {
    let kp = key(3, 5);
    let c = Ciphertext::enc_with_blinding(&Message(num(2)), &kp.ek, &num(2)).unwrap();
    assert_eq!(value(&c.0), BigUint::from(158u32));
    assert_eq!(value(&c.dec(&kp).unwrap().0), BigUint::from(2u32));
}

#[test]
fn blinding_sharing_a_factor_is_refused() {
    let kp = key(3, 5);
    assert!(Ciphertext::enc_with_blinding(&Message(num(2)), &kp.ek, &num(3)).is_none());
    assert!(Ciphertext::enc_with_blinding(&Message(num(2)), &kp.ek, &num(0)).is_none());
}

#[test]
fn decrypting_a_non_ciphertext_fails() {
    let kp = key(11, 13);
    let r = Ciphertext(num(0)).dec(&kp);
    assert_eq!(r.err(), Some(PaillierError::InvalidCiphertext));
}

#[test]
fn round_trip_small_key() {
    let kp = key(1000003, 1000033);
    for m in [0u64, 1, 2, 999, 123456789, 1000003 * 1000033 - 1] {
        let c = Ciphertext::enc(&Message(num(m)), &kp.ek).unwrap();
        assert_eq!(value(&c.dec(&kp).unwrap().0), BigUint::from(m));
    }
}

#[test]
fn homomorphic_sum_small_key() {
    let kp = key(1000003, 1000033);
    let mut a = Ciphertext::enc(&Message(num(7777)), &kp.ek).unwrap();
    let b = Ciphertext::enc(&Message(num(2223)), &kp.ek).unwrap();
    a.add_assign(&b, &kp.ek);
    assert_eq!(value(&a.dec(&kp).unwrap().0), BigUint::from(10000u32));
}

#[test]
fn add_assign_multiplies_modulo_n_squared() {
    let kp = key(3, 5);
    let mut a = Ciphertext(num(158));
    a.add_assign(&Ciphertext(num(100)), &kp.ek);
    assert_eq!(value(&a.0), BigUint::from(158u32 * 100 % 225));
}

#[test]
fn sum_wraps_around_modulus() {
    let kp = Keypair::with_prime_bits(256).unwrap();
    let n = value(&kp.ek.n);
    let top = Natural::from_digits((&n - 1u32).to_u32_digits());
    let mut a = Ciphertext::enc(&Message(top), &kp.ek).unwrap();
    let b = Ciphertext::enc(&Message(num(2)), &kp.ek).unwrap();
    a.add_assign(&b, &kp.ek);
    assert_eq!(value(&a.dec(&kp).unwrap().0), BigUint::from(1u32));
}

#[test]
fn message_above_modulus_is_reduced() {
    let kp = key(1000003, 1000033);
    let m = 1000003u64 * 1000033 + 42;
    let c = Ciphertext::enc(&Message(num(m)), &kp.ek).unwrap();
    assert_eq!(value(&c.dec(&kp).unwrap().0), BigUint::from(42u32));
}

#[test]
fn repeated_encryptions_differ() {
    let kp = Keypair::with_prime_bits(256).unwrap();
    let cts: Vec<BigUint> = (0..10)
        .map(|_| value(&Ciphertext::enc(&Message(num(5)), &kp.ek).unwrap().0))
        .collect();
    for i in 0..cts.len() {
        for j in (i + 1)..cts.len() {
            assert_ne!(cts[i], cts[j]);
        }
    }
}

#[test]
fn folding_orders_agree() {
    let kp = Keypair::with_prime_bits(256).unwrap();
    let m = 123456u64;
    let cts: Vec<Ciphertext> =
        (0..10).map(|_| Ciphertext::enc(&Message(num(m)), &kp.ek).unwrap()).collect();
    let mut left = cts[0].clone();
    for c in &cts[1..] {
        left.add_assign(c, &kp.ek);
    }
    let mut right = cts[9].clone();
    for c in cts[..9].iter().rev() {
        let mut acc = c.clone();
        acc.add_assign(&right, &kp.ek);
        right = acc;
    }
    let mut halves = cts[0].clone();
    for c in &cts[1..5] {
        halves.add_assign(c, &kp.ek);
    }
    let mut second = cts[5].clone();
    for c in &cts[6..] {
        second.add_assign(c, &kp.ek);
    }
    halves.add_assign(&second, &kp.ek);
    let expected = BigUint::from(10 * m);
    assert_eq!(value(&left.dec(&kp).unwrap().0), expected);
    assert_eq!(value(&right.dec(&kp).unwrap().0), expected);
    assert_eq!(value(&halves.dec(&kp).unwrap().0), expected);
    assert_eq!(value(&left.0), value(&right.0));
}

#[test]
fn independent_keys_differ() {
    let a = Keypair::with_prime_bits(256).unwrap();
    let b = Keypair::with_prime_bits(256).unwrap();
    assert_ne!(value(&a.ek.n), value(&b.ek.n));
    let m = num(31337);
    let c = Ciphertext::enc(&Message(m.clone()), &a.ek).unwrap();
    match c.dec(&b) {
        Ok(d) => assert_ne!(value(&d.0), value(&m)),
        Err(e) => assert_eq!(e, PaillierError::InvalidCiphertext),
    }
}

#[test]
fn generated_modulus_has_twice_the_prime_bits() {
    let kp = Keypair::with_prime_bits(128).unwrap();
    let bits = value(&kp.ek.n).bits();
    assert!(bits == 255 || bits == 256);
    assert_eq!(value(&kp.ek.g), value(&kp.ek.n) + 1u32);
}

#[test]
fn natural_from_u32_and_digits() {
    assert_eq!(value(&Natural::from_u32(77)), BigUint::from(77u32));
    let v = BigUint::from(112500000000u64);
    assert_eq!(value(&Natural::from_digits(v.to_u32_digits())), v);
}

#[test]
fn two_bit_primes_always_repeat() {
    let r = Keypair::with_prime_bits(2);
    assert_eq!(r.err(), Some(PaillierError::RepeatedPrime));
}

#[test]
fn generated_key_is_usable_at_small_width() {
    let kp = Keypair::with_prime_bits(8).unwrap();
    let n = value(&kp.ek.n);
    assert!(n >= BigUint::from(1u32 << 14) && n < BigUint::from(1u32 << 16));
    let c = Ciphertext::enc(&Message(num(100)), &kp.ek).unwrap();
    assert_eq!(value(&c.dec(&kp).unwrap().0), BigUint::from(100u32) % &n);
}
