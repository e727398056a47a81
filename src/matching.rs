use vstd::prelude::*;

verus! {

/// The BLAKE3 digest of a byte string.
pub uninterp spec fn blake3_of(b: Seq<u8>) -> Seq<u8>;

/// Relies on `blake3::hash`: a 32-byte digest that depends on the input bytes alone.
#[verifier::external_body]
fn blake3_digest(input: &[u8]) -> (r: [u8; 32])
    ensures
        r@ == blake3_of(input@),
{
    blake3::hash(input).into()
}

/// The matching value of a nonce: BLAKE3 applied twice.
pub open spec fn matching_spec(nonce: Seq<u8>) -> Seq<u8> {
    blake3_of(blake3_of(nonce))
}

/// Derives the matching value of a nonce: the digest of the digest of the nonce.
pub fn compute_matching_function(nonce: &[u8; 4]) -> (r: [u8; 32])
    ensures
        r@ == matching_spec(nonce@),
{
    let first = blake3_digest(nonce.as_slice());
    blake3_digest(first.as_slice())
}

/// The matching function depends on the nonce alone: results computed for equal
/// nonces are equal, and every result is 32 bytes wide.
pub proof fn lemma_matching_deterministic(a: [u8; 4], b: [u8; 4], ra: [u8; 32], rb: [u8; 32])
    requires
        a@ == b@,
        ra@ == matching_spec(a@),
        rb@ == matching_spec(b@),
    ensures
        ra@ == rb@,
        ra@.len() == 32,
{
}

} // verus!
