//! Content hashes: BLAKE3 of the canonical encoding.
use vstd::prelude::*;
use crate::encode::{enc, encode_value};
use crate::value::Value;

verus! {

/// The BLAKE3 digest of a byte string.
pub uninterp spec fn blake3_of(data: Seq<u8>) -> Seq<u8>;

/// Relies on `blake3::hash`: the 32-byte BLAKE3 digest of the input, which
/// depends on the input bytes alone.
#[verifier::external_body]
fn blake3_digest(data: &[u8]) -> (r: [u8; 32])
    ensures
        r@ == blake3_of(data@),
{
    blake3::hash(data).into()
}

/// The 32-byte hash of an encoded value, as stored or sent.
pub fn hash_bytes(data: &[u8]) -> (r: [u8; 32])
    ensures
        r@ == blake3_of(data@),
{
    blake3_digest(data)
}

/// The 32-byte hash of a value: BLAKE3 of its canonical encoding.
pub fn hash_value(value: &Value) -> (r: [u8; 32])
    ensures
        r@ == blake3_of(enc(value@)),
{
    let bytes = encode_value(value);
    hash_bytes(bytes.as_slice())
}

/// Equal values hash equal, and a value hashes as its stored encoding does.
pub proof fn lemma_hash_deterministic(a: Value, b: Value)
    requires
        a@ == b@,
    ensures
        blake3_of(enc(a@)) == blake3_of(enc(b@)),
{
}

} // verus!
