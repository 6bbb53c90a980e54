//! Random bytes from the operating system.

use vstd::prelude::*;

verus! {

#[verifier::external_type_specification]
#[verifier::external_body]
pub struct ExGetrandomError(getrandom::Error);

/// `getrandom::getrandom`: fills `buf` with bytes from the system's random
/// source. The bytes are chance and nothing is stated of them; the length of
/// the buffer stays as it was, whatever comes back.
#[verifier::external_body]
fn getrandom_fill(buf: &mut Vec<u8>) -> (r: Result<(), getrandom::Error>)
    ensures
        final(buf)@.len() == old(buf)@.len(),
{
    getrandom::getrandom(buf)
}

/// `len` random bytes.
pub fn random_bytes(len: usize) -> (r: Result<Vec<u8>, getrandom::Error>)
    ensures
        r matches Ok(v) ==> v.len() == len,
{
    let mut v: Vec<u8> = vec![0u8; len];
    match getrandom_fill(&mut v) {
        Ok(()) => Ok(v),
        Err(e) => Err(e),
    }
}

} // verus!
