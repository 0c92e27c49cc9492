//! The two-party somewhat-homomorphic encryption interface and its local
//! reference backend, which works modulo the Mersenne prime 2^127 - 1.

use crate::bignum::{floor_mod, BigNum};
use vstd::prelude::*;

verus! {

/// The modulus of the local backend: 2^127 - 1.
pub open spec fn local_modulus() -> int {
    0x7FFF_FFFF_FFFF_FFFF_FFFF_FFFF_FFFF_FFFF
}

/// Public parameters of the local backend.
#[derive(Debug, Clone, PartialEq, Eq)]
pub struct LocalPublicParams {
    pub k0: usize,
    pub k1: usize,
    pub k2: usize,
    pub modulus: BigNum,
}

/// A secret key of the local backend.
#[derive(Debug, Clone, PartialEq, Eq)]
pub struct LocalSecretKey {
    pub modulus: BigNum,
}

/// A two-party somewhat-homomorphic encryption scheme: server 1 and server 2
/// each hold a secret key; a ciphertext is partially decrypted by server 2
/// and finished by server 1.
pub trait TwoPartyMultiSheEngine {
    type PublicParams;
    type Server1SecretKey;
    type Server2SecretKey;
    type Ciphertext;
    type PartialCiphertext;
    type Plaintext;

    /// Public parameters under which encryption and decryption are defined.
    spec fn params_usable(pp: Self::PublicParams) -> bool;

    fn keygen(k0: usize, k1: usize, k2: usize) -> (keys: (
        Self::PublicParams,
        Self::Server1SecretKey,
        Self::Server2SecretKey,
    ))
        ensures
            Self::params_usable(keys.0),
    ;

    fn encrypt(
        pp: &Self::PublicParams,
        sk1: &Self::Server1SecretKey,
        sk2: &Self::Server2SecretKey,
        msg: &Self::Plaintext,
    ) -> Self::Ciphertext
        requires
            Self::params_usable(*pp),
    ;

    fn decrypt(
        pp: &Self::PublicParams,
        sk1: &Self::Server1SecretKey,
        sk2: &Self::Server2SecretKey,
        ct: &Self::Ciphertext,
    ) -> Self::Plaintext
        requires
            Self::params_usable(*pp),
    ;

    fn partial_decrypt_by_server2(
        sk2: &Self::Server2SecretKey,
        ct: &Self::Ciphertext,
    ) -> Self::PartialCiphertext;

    fn final_decrypt_by_server1(
        sk1: &Self::Server1SecretKey,
        pct: &Self::PartialCiphertext,
    ) -> Self::Plaintext;

    fn add_ct_ct(a: &Self::Ciphertext, b: &Self::Ciphertext) -> Self::Ciphertext;

    fn add_pct_pct(a: &Self::PartialCiphertext, b: &Self::PartialCiphertext) -> Self::PartialCiphertext;

    fn add_ct_plain(a: &Self::Ciphertext, b: &Self::Plaintext) -> Self::Ciphertext;

    fn add_pct_plain(a: &Self::PartialCiphertext, b: &Self::Plaintext) -> Self::PartialCiphertext;

    fn mul_ct_ct(a: &Self::Ciphertext, b: &Self::Ciphertext) -> Self::Ciphertext;

    fn mul_pct_pct(a: &Self::PartialCiphertext, b: &Self::PartialCiphertext) -> Self::PartialCiphertext;

    fn mul_ct_plain(a: &Self::Ciphertext, b: &Self::Plaintext) -> Self::Ciphertext;

    fn mul_pct_plain(a: &Self::PartialCiphertext, b: &Self::Plaintext) -> Self::PartialCiphertext;

    fn generate_from_zero_encryptions(
        msg: &Self::Plaintext,
        e0_1: &Self::Ciphertext,
        e0_2: &Self::Ciphertext,
        r1: &Self::Plaintext,
        r2: &Self::Plaintext,
    ) -> Self::Ciphertext;
}

/// 2^127 - 1 as a big integer.
fn default_modulus() -> (m: BigNum)
    ensures
        m@ == local_modulus(),
        m.canonical(),
{
    let mut magnitude: Vec<u32> = Vec::new();
    magnitude.push(0xFFFF_FFFF);
    magnitude.push(0xFFFF_FFFF);
    magnitude.push(0xFFFF_FFFF);
    magnitude.push(0x7FFF_FFFF);
    proof {
        let d = magnitude@;
        assert(d.skip(1).skip(1).skip(1).skip(1) =~= Seq::<u32>::empty());
        assert(d.skip(1).skip(1).skip(1) =~= seq![0x7FFF_FFFFu32]);
        assert(d.skip(1).skip(1) =~= seq![0xFFFF_FFFFu32, 0x7FFF_FFFFu32]);
        assert(d.skip(1) =~= seq![0xFFFF_FFFFu32, 0xFFFF_FFFFu32, 0x7FFF_FFFFu32]);
        reveal_with_fuel(crate::bignum::digits_value, 5);
    }
    BigNum { negative: false, magnitude }
}

/// The floored remainder of `value` by `modulus`.
fn normalize_mod(value: &BigNum, modulus: &BigNum) -> (r: BigNum)
    requires
        modulus@ != 0,
    ensures
        r@ == floor_mod(value@, modulus@),
        r.canonical(),
{
    value.mod_floor(modulus)
}

/// The local reference backend: a ciphertext is the plaintext reduced
/// modulo 2^127 - 1 and every homomorphic operation is exact integer
/// arithmetic.
pub struct LocalMultiSheBackend;

impl TwoPartyMultiSheEngine for LocalMultiSheBackend {
    type PublicParams = LocalPublicParams;
    type Server1SecretKey = LocalSecretKey;
    type Server2SecretKey = LocalSecretKey;
    type Ciphertext = BigNum;
    type PartialCiphertext = BigNum;
    type Plaintext = BigNum;

    open spec fn params_usable(pp: LocalPublicParams) -> bool {
        pp.modulus@ != 0
    }

    fn keygen(k0: usize, k1: usize, k2: usize) -> (keys: (LocalPublicParams, LocalSecretKey, LocalSecretKey))
        ensures
            keys.0.k0 == k0,
            keys.0.k1 == k1,
            keys.0.k2 == k2,
            keys.0.modulus@ == local_modulus(),
            keys.1.modulus@ == local_modulus(),
            keys.2.modulus@ == local_modulus(),
            keys.0.modulus.canonical(),
            keys.1.modulus.magnitude@ == keys.0.modulus.magnitude@,
            keys.2.modulus.magnitude@ == keys.0.modulus.magnitude@,
    {
        let modulus = default_modulus();
        let pp = LocalPublicParams { k0, k1, k2, modulus: modulus.copy() };
        let sk = LocalSecretKey { modulus };
        let sk1 = LocalSecretKey { modulus: sk.modulus.copy() };
        (pp, sk1, sk)
    }

    fn encrypt(
        pp: &LocalPublicParams,
        sk1: &LocalSecretKey,
        sk2: &LocalSecretKey,
        msg: &BigNum,
    ) -> (ct: BigNum)
        ensures
            ct@ == floor_mod(msg@, pp.modulus@),
            ct.canonical(),
    {
        normalize_mod(msg, &pp.modulus)
    }

    fn decrypt(
        pp: &LocalPublicParams,
        sk1: &LocalSecretKey,
        sk2: &LocalSecretKey,
        ct: &BigNum,
    ) -> (msg: BigNum)
        ensures
            msg@ == floor_mod(ct@, pp.modulus@),
            msg.canonical(),
    {
        normalize_mod(ct, &pp.modulus)
    }

    fn partial_decrypt_by_server2(sk2: &LocalSecretKey, ct: &BigNum) -> (pct: BigNum)
        ensures
            pct@ == ct@,
            pct.magnitude@ == ct.magnitude@,
            pct.negative == ct.negative,
    {
        ct.copy()
    }

    fn final_decrypt_by_server1(sk1: &LocalSecretKey, pct: &BigNum) -> (msg: BigNum)
        ensures
            msg@ == pct@,
            msg.magnitude@ == pct.magnitude@,
            msg.negative == pct.negative,
    {
        pct.copy()
    }

    fn add_ct_ct(a: &BigNum, b: &BigNum) -> (r: BigNum)
        ensures
            r@ == a@ + b@,
            r.canonical(),
    {
        a.plus(b)
    }

    fn add_pct_pct(a: &BigNum, b: &BigNum) -> (r: BigNum)
        ensures
            r@ == a@ + b@,
            r.canonical(),
    {
        a.plus(b)
    }

    fn add_ct_plain(a: &BigNum, b: &BigNum) -> (r: BigNum)
        ensures
            r@ == a@ + b@,
            r.canonical(),
    {
        a.plus(b)
    }

    fn add_pct_plain(a: &BigNum, b: &BigNum) -> (r: BigNum)
        ensures
            r@ == a@ + b@,
            r.canonical(),
    {
        a.plus(b)
    }

    fn mul_ct_ct(a: &BigNum, b: &BigNum) -> (r: BigNum)
        ensures
            r@ == a@ * b@,
            r.canonical(),
    {
        a.times(b)
    }

    fn mul_pct_pct(a: &BigNum, b: &BigNum) -> (r: BigNum)
        ensures
            r@ == a@ * b@,
            r.canonical(),
    {
        a.times(b)
    }

    fn mul_ct_plain(a: &BigNum, b: &BigNum) -> (r: BigNum)
        ensures
            r@ == a@ * b@,
            r.canonical(),
    {
        a.times(b)
    }

    fn mul_pct_plain(a: &BigNum, b: &BigNum) -> (r: BigNum)
        ensures
            r@ == a@ * b@,
            r.canonical(),
    {
        a.times(b)
    }

    fn generate_from_zero_encryptions(
        msg: &BigNum,
        e0_1: &BigNum,
        e0_2: &BigNum,
        r1: &BigNum,
        r2: &BigNum,
    ) -> (ct: BigNum)
        ensures
            ct@ == msg@ + e0_1@ + e0_2@ + r1@ + r2@,
            ct.canonical(),
    {
        msg.plus(e0_1).plus(e0_2).plus(r1).plus(r2)
    }
}

/// A ciphertext reduced modulo the public modulus (panics, as `mod_floor`
/// does, on a zero modulus: hence the precondition).
pub fn normalize_ciphertext(pp: &LocalPublicParams, ct: &BigNum) -> (r: BigNum)
    requires
        pp.modulus@ != 0,
    ensures
        r@ == floor_mod(ct@, pp.modulus@),
        r.canonical(),
{
    normalize_mod(ct, &pp.modulus)
}

/// A partial ciphertext reduced modulo the public modulus.
pub fn normalize_partial_ciphertext(pp: &LocalPublicParams, ct: &BigNum) -> (r: BigNum)
    requires
        pp.modulus@ != 0,
    ensures
        r@ == floor_mod(ct@, pp.modulus@),
        r.canonical(),
{
    normalize_mod(ct, &pp.modulus)
}

/// For a positive modulus (keygen gives 2^127 - 1), reducing twice is
/// reducing once, and a residue is its own reduction: decrypting a local
/// encryption of a residue gives it back.
pub proof fn lemma_local_decrypt_after_encrypt(msg: int, modulus: int)
    requires
        modulus > 0,
    ensures
        floor_mod(floor_mod(msg, modulus), modulus) == floor_mod(msg, modulus),
        0 <= msg < modulus ==> floor_mod(msg, modulus) == msg,
{
    vstd::arithmetic::div_mod::lemma_mod_twice(msg, modulus);
    if 0 <= msg < modulus {
        vstd::arithmetic::div_mod::lemma_small_mod(msg as nat, modulus as nat);
    }
}

} // verus!
