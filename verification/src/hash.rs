//! 256-bit hashes and the Keccak-256 digest used to identify blocks.

use vstd::prelude::*;

use sha3::Digest;

verus! {

/// A 256-bit hash, split into a low and a high 128-bit half in byte order
/// (the low half holds the first sixteen bytes, least significant first).
#[derive(Clone, Copy, Debug, PartialEq, Eq, Hash, Structural)]
pub struct B256 {
    pub lo: u128,
    pub hi: u128,
}

/// The Keccak-256 digest of a byte string: 32 bytes that depend on the input
/// bytes alone.
pub uninterp spec fn keccak_of(bytes: Seq<u8>) -> Seq<u8>;

/// Relies on `sha3::Keccak256` through `Digest::digest`: a 32-byte digest
/// computed from the input bytes alone.
#[verifier::external_body]
fn keccak256(bytes: &Vec<u8>) -> (r: Vec<u8>)
    ensures
        r@ == keccak_of(bytes@),
        r@.len() == 32,
{
    sha3::Keccak256::digest(bytes.as_slice()).to_vec()
}

/// The 128-bit value read little-endian from sixteen bytes of `s` starting at
/// `off`.
#[verifier::opaque]
pub open spec fn spec_u128_from_bytes(s: Seq<u8>, off: int) -> u128 {
    (s[off] as u128) | (s[off + 1] as u128) << 8 | (s[off + 2] as u128) << 16 | (s[off + 3] as u128)
        << 24 | (s[off + 4] as u128) << 32 | (s[off + 5] as u128) << 40 | (s[off + 6] as u128) << 48
        | (s[off + 7] as u128) << 56 | (s[off + 8] as u128) << 64 | (s[off + 9] as u128) << 72 | (s[
        off + 10] as u128) << 80 | (s[off + 11] as u128) << 88 | (s[off + 12] as u128) << 96 | (s[
        off + 13] as u128) << 104 | (s[off + 14] as u128) << 112 | (s[off + 15] as u128) << 120
}

/// The hash whose 32 bytes are the first 32 entries of `s`.
pub open spec fn spec_b256_from_bytes(s: Seq<u8>) -> B256 {
    B256 { lo: spec_u128_from_bytes(s, 0), hi: spec_u128_from_bytes(s, 16) }
}

/// The hash of a byte string under Keccak-256.
pub open spec fn spec_keccak_hash(bytes: Seq<u8>) -> B256 {
    spec_b256_from_bytes(keccak_of(bytes))
}

impl B256 {
    /// The all-zero hash.
    pub fn zero() -> (r: B256)
        ensures
            r == (B256 { lo: 0, hi: 0 }),
    {
        B256 { lo: 0, hi: 0 }
    }

    /// The hash with the given halves.
    pub fn new(lo: u128, hi: u128) -> (r: B256)
        ensures
            r == (B256 { lo, hi }),
    {
        B256 { lo, hi }
    }
}

fn u128_from_bytes(bytes: &Vec<u8>, off: usize) -> (r: u128)
    requires
        off + 16 <= bytes@.len(),
    ensures
        r == spec_u128_from_bytes(bytes@, off as int),
{
    let len: usize = bytes.len();
    proof {
        reveal(spec_u128_from_bytes);
        assert(off + 16 <= len);
    }
    (bytes[off] as u128) | (bytes[off + 1] as u128) << 8u128 | (bytes[off + 2] as u128) << 16u128 | (
    bytes[off + 3] as u128) << 24u128 | (bytes[off + 4] as u128) << 32u128 | (bytes[off + 5] as u128)
        << 40u128 | (bytes[off + 6] as u128) << 48u128 | (bytes[off + 7] as u128) << 56u128 | (
    bytes[off + 8] as u128) << 64u128 | (bytes[off + 9] as u128) << 72u128 | (bytes[off
        + 10] as u128) << 80u128 | (bytes[off + 11] as u128) << 88u128 | (bytes[off + 12] as u128)
        << 96u128 | (bytes[off + 13] as u128) << 104u128 | (bytes[off + 14] as u128) << 112u128 | (
    bytes[off + 15] as u128) << 120u128
}

/// The hash written by the first 32 bytes of `bytes`.
pub fn b256_from_bytes(bytes: &Vec<u8>) -> (r: B256)
    requires
        bytes@.len() >= 32,
    ensures
        r == spec_b256_from_bytes(bytes@),
{
    B256 { lo: u128_from_bytes(bytes, 0), hi: u128_from_bytes(bytes, 16) }
}

/// The Keccak-256 hash of a byte string, as a `B256`.
pub fn keccak_hash(bytes: &Vec<u8>) -> (r: B256)
    ensures
        r == spec_keccak_hash(bytes@),
{
    let digest = keccak256(bytes);
    b256_from_bytes(&digest)
}

/// The canonical hash of an empty RLP list, the well-known value that stands
/// as the receipts root of a block without receipts.
pub open spec fn spec_empty_list_hash() -> B256 {
    B256 { lo: 0x6ef8c092e64583ffa655cc1b171fe856, hi: 0x21b463e3b52f6201c0ad6c991be0485b }
}

/// The canonical hash of an empty RLP list.
pub fn empty_list_hash() -> (r: B256)
    ensures
        r == spec_empty_list_hash(),
{
    B256 { lo: 0x6ef8c092e64583ffa655cc1b171fe856, hi: 0x21b463e3b52f6201c0ad6c991be0485b }
}

} // verus!
