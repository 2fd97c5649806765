use num_bigint::BigUint;
use paillier::cipher::{Ciphertext, Message};
use paillier::keys::Keypair;
use paillier::natural::Natural;

fn natural(v: &BigUint) -> Natural {
    Natural::from_digits(v.to_u32_digits())
}

fn big(v: &Natural) -> BigUint {
    BigUint::from_slice(&v.digits)
}

#[test]
fn basic_flow() {
    let keypair = Keypair::new().unwrap();

    let msg1 = Message(natural(&BigUint::from(1_000u16)));
    let msg2 = Message(natural(&BigUint::from(2_000u16)));

    let mut ct1 = Ciphertext::enc(&msg1, &keypair.ek).unwrap();
    let ct2 = Ciphertext::enc(&msg2, &keypair.ek).unwrap();

    for _ in 0..1_000 {
        ct1.add_assign(&ct2, &keypair.ek);
    }

    assert!(big(&ct2.dec(&keypair).unwrap().0).eq(&big(&msg2.0)));
    assert!(big(&ct1.dec(&keypair).unwrap().0)
        .eq(&(&big(&msg1.0) + BigUint::from(1_000u16) * &big(&msg2.0))));
}

#[test]
fn large_messages_flow() {
    let keypair = Keypair::new().unwrap();

    let msg = Message(natural(&(&big(&keypair.ek.n) / BigUint::from(10u8))));
    let cts = (0..10)
        .into_iter()
        .map(|_| Ciphertext::enc(&msg, &keypair.ek).unwrap())
        .collect::<Vec<_>>();
    let agg_ct = cts
        .into_iter()
        .reduce(|mut a, b| {
            a.add_assign(&b, &keypair.ek);
            a
        })
        .unwrap();
    let dec_msg = agg_ct.dec(&keypair).unwrap();

    assert!(big(&dec_msg.0).eq(&(&big(&msg.0) * BigUint::from(10u8))))
}
