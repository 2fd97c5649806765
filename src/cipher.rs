use crate::keys::{EncryptionKey, Keypair};
use crate::natural::{random_below, Natural};
use crate::scheme::{
    combine_value, decrypt_value, decryptable, encrypt_value, square, valid_blinding,
    PaillierError,
};
use vstd::prelude::*;

verus! {

/// How many blinding factors encryption draws before it gives up on the
/// random source. A draw fails only when it shares a factor with `n`.
pub const MAX_BLINDING_DRAWS: u32 = 65536;

/// A plaintext, read modulo `n` of the key it is encrypted under.
#[derive(Debug, Clone)]
pub struct Message(pub Natural);

/// A ciphertext: an element of `(Z/n^2 Z)*`.
#[derive(Debug, Clone)]
pub struct Ciphertext(pub Natural);

proof fn lemma_square_positive(n: nat)
    requires
        n > 1,
    ensures
        square(n) > 1,
{
    assert(n * n > 1) by (nonlinear_arith)
        requires
            n > 1,
    ;
}

impl Ciphertext {
    /// The ciphertext of `msg` blinded by `r`, or `None` when `r` is not
    /// invertible modulo `n`.
    pub fn enc_with_blinding(msg: &Message, ek: &EncryptionKey, r: &Natural) -> (c: Option<
        Ciphertext,
    >)
        requires
            ek.wf(),
        ensures
            c is Some <==> valid_blinding(r@, ek.n@),
            c matches Some(c) ==> c.0@ == encrypt_value(msg.0@, r@, ek.n@, ek.g@),
    {
        if !r.gcd(&ek.n).is_one() {
            return None;
        }
        let m = msg.0.rem(&ek.n);
        let nn = ek.n.times(&ek.n);
        proof {
            lemma_square_positive(ek.n@);
        }
        let ct = ek.g.pow_mod(&m, &nn).times(&r.pow_mod(&ek.n, &nn)).rem(&nn);
        Some(Ciphertext(ct))
    }

    /// Encrypts `msg` under `ek` with a fresh random blinding factor drawn
    /// from `[0, n)`, drawing again while it shares a factor with `n`. It
    /// fails, with `BlindingExhausted`, only when every one of
    /// `MAX_BLINDING_DRAWS` draws did.
    pub fn enc(msg: &Message, ek: &EncryptionKey) -> (c: Result<Ciphertext, PaillierError>)
        requires
            ek.wf(),
        ensures
            c matches Ok(c) ==> exists|r: nat|
                r < ek.n@ && valid_blinding(r, ek.n@) && c.0@ == encrypt_value(
                    msg.0@,
                    r,
                    ek.n@,
                    ek.g@,
                ),
            c is Err ==> c == Err::<Ciphertext, PaillierError>(PaillierError::BlindingExhausted),
    {
        let mut draws: u32 = 0;
        while draws < MAX_BLINDING_DRAWS
            invariant
                ek.wf(),
            decreases MAX_BLINDING_DRAWS - draws,
        {
            let r = random_below(&ek.n);
            match Self::enc_with_blinding(msg, ek, &r) {
                Some(c) => {
                    return Ok(c);
                },
                None => {},
            }
            draws = draws + 1;
        }
        Err(PaillierError::BlindingExhausted)
    }

    /// Decrypts under `kp`: `L(c^lambda mod n^2) * mu mod n`, where
    /// `L(x) = (x - 1) / n`. It fails, with `InvalidCiphertext`, exactly when
    /// `c^lambda mod n^2` is not `1 mod n`, so that `L` would not divide exactly.
    pub fn dec(&self, kp: &Keypair) -> (r: Result<Message, PaillierError>)
        requires
            kp.ek.wf(),
        ensures
            r is Ok <==> decryptable(self.0@, kp.ek.n@, kp.dk.lambda@),
            r matches Ok(m) ==> m.0@ == decrypt_value(
                self.0@,
                kp.ek.n@,
                kp.dk.lambda@,
                kp.dk.mu@,
            ),
            r is Err ==> r == Err::<Message, PaillierError>(PaillierError::InvalidCiphertext),
    {
        let n = &kp.ek.n;
        let nn = n.times(n);
        proof {
            lemma_square_positive(n@);
        }
        let x = self.0.pow_mod(&kp.dk.lambda, &nn);
        if !x.rem(n).is_one() {
            return Err(PaillierError::InvalidCiphertext);
        }
        let one = Natural::from_u32(1);
        proof {
            if x@ == 0 {
                vstd::arithmetic::div_mod::lemma_small_mod(x@, n@);
            }
        }
        let lx = x.minus(&one).quot(n);
        let m = lx.times(&kp.dk.mu).rem(n);
        Ok(Message(m))
    }

    /// Homomorphic addition in place: `self = self * other mod n^2`, the
    /// ciphertext of the sum of the two plaintexts modulo `n`.
    pub fn add_assign(&mut self, other: &Self, ek: &EncryptionKey)
        requires
            ek.wf(),
        ensures
            final(self).0@ == combine_value(old(self).0@, other.0@, ek.n@),
    {
        let nn = ek.n.times(&ek.n);
        proof {
            lemma_square_positive(ek.n@);
        }
        self.0 = self.0.times(&other.0).rem(&nn);
    }
}

} // verus!
