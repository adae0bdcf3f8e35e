use vstd::prelude::*;
use crate::hash256::Hash256;
use parity_scale_codec::Encode;

verus! {

/// The eight bytes of `x`, least significant first.
pub open spec fn u64_le_bytes(x: u64) -> Seq<u8> {
    seq![
        (x & 0xff) as u8,
        ((x >> 8) & 0xff) as u8,
        ((x >> 16) & 0xff) as u8,
        ((x >> 24) & 0xff) as u8,
        ((x >> 32) & 0xff) as u8,
        ((x >> 40) & 0xff) as u8,
        ((x >> 48) & 0xff) as u8,
        ((x >> 56) & 0xff) as u8,
    ]
}

/// The bytes hashed to derive a fresh identifier: the SCALE encoding of the
/// triple `(seed, caller, nonce)`. The seed is a byte vector, so its 32-byte
/// length is encoded first as the single compact byte `32 << 2 == 128`; the
/// two integers follow in little-endian order.
pub open spec fn id_material(seed: Seq<u8>, caller: u64, nonce: u64) -> Seq<u8> {
    seq![128u8] + seed + u64_le_bytes(caller) + u64_le_bytes(nonce)
}

/// The Blake2b-256 digest of `data`: a function of the input bytes alone.
pub uninterp spec fn blake2_of(data: Seq<u8>) -> Seq<u8>;

/// The identifier derived from a randomness seed, the caller's identity and
/// the registry's nonce.
pub open spec fn next_id_spec(seed: Seq<u8>, caller: u64, nonce: u64) -> Seq<u8> {
    blake2_of(id_material(seed, caller, nonce))
}

/// Relies on parity_scale_codec's `Encode`: a tuple encodes as the
/// concatenation of its fields' encodings, a `Vec<u8>` as its compact-encoded
/// length (one byte `len << 2` for lengths under 64) followed by its raw
/// bytes, and a `u64` as its eight little-endian bytes.
#[verifier::external_body]
fn encode_material(seed: &Hash256, caller: u64, nonce: u64) -> (r: Vec<u8>)
    requires
        seed.wf(),
    ensures
        r@ == id_material(seed@, caller, nonce),
{
    (&seed.bytes, caller, nonce).encode()
}

/// Relies on sp_crypto_hashing::blake2_256: a 32-byte Blake2b digest that
/// depends on the input bytes alone.
#[verifier::external_body]
fn blake2_256_of(data: &Vec<u8>) -> (r: Hash256)
    ensures
        r@ == blake2_of(data@),
        r@.len() == 32,
{
    Hash256 { bytes: sp_crypto_hashing::blake2_256(data).to_vec() }
}

/// Derives a fresh 256-bit identifier from an externally supplied randomness
/// seed, the caller's identity and a nonce. Deterministic in its inputs.
pub fn next_id(seed: &Hash256, caller: u64, nonce: u64) -> (r: Hash256)
    requires
        seed.wf(),
    ensures
        r@ == next_id_spec(seed@, caller, nonce),
        r.wf(),
{
    let material = encode_material(seed, caller, nonce);
    blake2_256_of(&material)
}

} // verus!
