//! The AES benchmark: AES-256 in counter mode with a fixed key and nonce,
//! encrypting a message and decrypting it again.

use vstd::prelude::*;
use aes::Aes256;
use ctr::cipher::{KeyIvInit, StreamCipher};
use crate::entropy::random_bytes;

verus! {

/// The keystream of AES-256 in CTR mode with a 128-bit big-endian counter
/// (`ctr::Ctr128BE<aes::Aes256>`), made from `key` and `iv`, applied to
/// `data` from its start.
pub uninterp spec fn aes256_ctr128be(key: Seq<u8>, iv: Seq<u8>, data: Seq<u8>) -> Seq<u8>;

/// `KeyIvInit::new` then `StreamCipher::apply_keystream` on a fresh
/// `ctr::Ctr128BE<aes::Aes256>`: XORs `data` with the keystream of `key` and
/// `iv`, in place. The result is named `aes256_ctr128be`; what is stated
/// besides is what CTR mode is: the length is kept, and applying the same
/// keystream again gives the data back. A fresh 128-bit counter never runs
/// out of keystream, so the call does not panic.
#[verifier::external_body]
fn aes256_ctr_apply(key: &[u8; 32], iv: &[u8; 16], data: &mut Vec<u8>)
    ensures
        final(data)@ == aes256_ctr128be(key@, iv@, old(data)@),
        final(data)@.len() == old(data)@.len(),
        aes256_ctr128be(key@, iv@, final(data)@) == old(data)@,
{
    let mut cipher = ctr::Ctr128BE::<Aes256>::new(key.into(), iv.into());
    cipher.apply_keystream(data);
}

/// The benchmark's key: the ASCII text `This is a key123This is a key123`.
pub open spec fn bench_key() -> Seq<u8> {
    seq![
        84u8, 104, 105, 115, 32, 105, 115, 32, 97, 32, 107, 101, 121, 49, 50, 51,
        84, 104, 105, 115, 32, 105, 115, 32, 97, 32, 107, 101, 121, 49, 50, 51,
    ]
}

/// The benchmark's nonce: the ASCII text `This is an IV456`.
pub open spec fn bench_iv() -> Seq<u8> {
    seq![84u8, 104, 105, 115, 32, 105, 115, 32, 97, 110, 32, 73, 86, 52, 53, 54]
}

fn key_bytes() -> (k: [u8; 32])
    ensures
        k@ == bench_key(),
{
    let k: [u8; 32] = [
        84, 104, 105, 115, 32, 105, 115, 32, 97, 32, 107, 101, 121, 49, 50, 51,
        84, 104, 105, 115, 32, 105, 115, 32, 97, 32, 107, 101, 121, 49, 50, 51,
    ];
    assert(k@ =~= bench_key());
    k
}

fn iv_bytes() -> (v: [u8; 16])
    ensures
        v@ == bench_iv(),
{
    let v: [u8; 16] = [84, 104, 105, 115, 32, 105, 115, 32, 97, 110, 32, 73, 86, 52, 53, 54];
    assert(v@ =~= bench_iv());
    v
}

fn copy_bytes(v: &Vec<u8>) -> (r: Vec<u8>)
    ensures
        r@ == v@,
{
    let mut r: Vec<u8> = Vec::new();
    for i in 0..v.len()
        invariant
            r@ == v@.take(i as int),
    {
        r.push(v[i]);
        assert(r@ =~= v@.take(i + 1));
    }
    assert(v@.take(v.len() as int) =~= v@);
    r
}

fn same_bytes(a: &Vec<u8>, b: &Vec<u8>) -> (r: bool)
    ensures
        r == (a@ == b@),
{
    if a.len() != b.len() {
        return false;
    }
    for i in 0..a.len()
        invariant
            a.len() == b.len(),
            forall|k: int| 0 <= k < i ==> a@[k] == b@[k],
    {
        if a[i] != b[i] {
            return false;
        }
    }
    assert(a@ =~= b@);
    true
}

/// Encrypts `message` with the benchmark's key and nonce.
pub fn encrypt(message: &Vec<u8>) -> (c: Vec<u8>)
    ensures
        c@ == aes256_ctr128be(bench_key(), bench_iv(), message@),
        c.len() == message.len(),
{
    let key = key_bytes();
    let iv = iv_bytes();
    let mut c = copy_bytes(message);
    aes256_ctr_apply(&key, &iv, &mut c);
    c
}

/// Encrypts `message` and decrypts the ciphertext with a fresh cipher of the
/// same key and nonce; the result is the message.
pub fn encrypt_then_decrypt(message: &Vec<u8>) -> (d: Vec<u8>)
    ensures
        d@ == message@,
{
    let key = key_bytes();
    let iv = iv_bytes();
    let mut data = copy_bytes(message);
    aes256_ctr_apply(&key, &iv, &mut data);
    aes256_ctr_apply(&key, &iv, &mut data);
    data
}

/// Runs the AES benchmark on a random message of `message_length` bytes:
/// `num_iterations` rounds of encryption and decryption, each checked against
/// the message. Every round gives the message back, so the run succeeds
/// whenever random bytes can be had.
pub fn aes_roundtrips(message_length: usize, num_iterations: u32) -> (r: Result<bool, getrandom::Error>)
    ensures
        r matches Ok(success) ==> success,
{
    let message = match random_bytes(message_length) {
        Ok(m) => m,
        Err(e) => {
            return Err(e);
        },
    };
    for _ in 0..num_iterations {
        let decrypted = encrypt_then_decrypt(&message);
        if !same_bytes(&decrypted, &message) {
            return Ok(false);
        }
    }
    Ok(true)
}

} // verus!
