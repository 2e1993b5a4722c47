//! Content identity: the cryptographic digest over an image's dimensions
//! and pixel bytes, rendered as lowercase hexadecimal bytes.
//!
//! Two images with identical pixels hash identically regardless of source,
//! so the digest serves as an order-independent content-identity key for
//! dedup and reassembly.

use vstd::prelude::*;
use vstd::bytes::{spec_u64_to_le_bytes, u64_to_le_bytes};
use sha2::Digest;

verus! {

/// The SHA-256 digest of a byte sequence. The digest is a pure function of
/// the input alone, far too long to state here; callers reason through this
/// name.
pub uninterp spec fn sha256_of(data: Seq<u8>) -> Seq<u8>;

/// Relies on sha2::Sha256 through the Digest trait: the digest depends on
/// the input bytes alone and is 32 bytes long.
#[verifier::external_body]
fn sha256(data: &Vec<u8>) -> (r: Vec<u8>)
    ensures
        r@ == sha256_of(data@),
        r@.len() == 32,
{
    sha2::Sha256::digest(data).to_vec()
}

/// The lowercase hexadecimal digit of a nibble, as an ASCII byte.
pub open spec fn hex_digit(n: u8) -> u8
    recommends
        n < 16,
{
    if n < 10 {
        (0x30 + n) as u8
    } else {
        (0x61 + (n - 10)) as u8
    }
}

/// Lowercase hexadecimal rendering: two digits per byte, high nibble first.
pub open spec fn hex_of(s: Seq<u8>) -> Seq<u8>
    decreases s.len(),
{
    if s.len() == 0 {
        Seq::empty()
    } else {
        seq![hex_digit(s[0] / 16), hex_digit(s[0] % 16)] + hex_of(s.drop_first())
    }
}

/// The hexadecimal rendering doubles the length.
pub proof fn lemma_hex_of_len(s: Seq<u8>)
    ensures
        hex_of(s).len() == 2 * s.len(),
    decreases s.len(),
{
    if s.len() > 0 {
        lemma_hex_of_len(s.drop_first());
    }
}

/// Relies on hex::encode: lowercase hexadecimal, two digits per byte, high
/// nibble first.
#[verifier::external_body]
fn hex_encode(data: &Vec<u8>) -> (r: Vec<u8>)
    ensures
        r@ == hex_of(data@),
{
    hex::encode(data).into_bytes()
}

/// The bytes whose digest identifies an image: width, height, then pixels.
pub open spec fn img_hash_input(width: u64, height: u64, bytes: Seq<u8>) -> Seq<u8> {
    spec_u64_to_le_bytes(width) + spec_u64_to_le_bytes(height) + bytes
}

/// An image's content identity: the hex-rendered digest of its hash input.
pub open spec fn img_hash_bytes(width: u64, height: u64, bytes: Seq<u8>) -> Seq<u8> {
    hex_of(sha256_of(img_hash_input(width, height, bytes)))
}

/// Compute an image's content hash from its dimensions and pixel bytes.
pub fn hash_img(width: u64, height: u64, bytes: &Vec<u8>) -> (r: Vec<u8>)
    ensures
        r@ == img_hash_bytes(width, height, bytes@),
        r@.len() == 64,
{
    let mut input = u64_to_le_bytes(width);
    let mut hb = u64_to_le_bytes(height);
    input.append(&mut hb);
    input.extend_from_slice(bytes.as_slice());
    proof {
        assert(input@ =~= img_hash_input(width, height, bytes@));
    }
    let digest = sha256(&input);
    proof {
        lemma_hex_of_len(digest@);
    }
    hex_encode(&digest)
}

/// Hashing is idempotent: two computations over identical width, height
/// and pixel bytes yield identical digests.
pub proof fn lemma_hash_img_deterministic(
    width: u64,
    height: u64,
    bytes: Seq<u8>,
    r1: Seq<u8>,
    r2: Seq<u8>,
)
    requires
        r1 == img_hash_bytes(width, height, bytes),
        r2 == img_hash_bytes(width, height, bytes),
    ensures
        r1 == r2,
{
}

} // verus!
