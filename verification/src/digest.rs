//! Digests and hex rendering for transaction and bundle identifiers.

use vstd::prelude::*;

verus! {

/// The 32-byte SHA-256 digest of the data: a function of the bytes alone.
pub uninterp spec fn sha256_of(data: Seq<u8>) -> Seq<u8>;

/// The lowercase hex character for a value below 16.
pub open spec fn hex_digit(n: u8) -> char {
    if n < 10 {
        ((n + 0x30) as u8) as char
    } else {
        ((n + 0x57) as u8) as char
    }
}

/// Lowercase hex: two digits for each byte, in order.
pub open spec fn hex_of(data: Seq<u8>) -> Seq<char>
    decreases data.len(),
{
    if data.len() == 0 {
        Seq::empty()
    } else {
        seq![hex_digit(data[0] / 16), hex_digit(data[0] % 16)] + hex_of(data.drop_first())
    }
}

/// Relies on sha2's `Sha256::digest`: a 32-byte digest that depends on the
/// input bytes alone.
#[verifier::external_body]
pub(crate) fn sha256(data: &[u8]) -> (r: Vec<u8>)
    ensures
        r@ == sha256_of(data@),
        r@.len() == 32,
{
    <sha2::Sha256 as sha2::Digest>::digest(data).to_vec()
}

/// Relies on `hex::encode`: two lowercase hex digits for each input byte.
#[verifier::external_body]
pub(crate) fn hex_encode(data: &[u8]) -> (r: String)
    ensures
        r@ == hex_of(data@),
{
    hex::encode(data)
}

/// The short transaction hash: lowercase hex of the first 16 bytes of the
/// SHA-256 digest.
pub open spec fn spec_tx_hash(data: Seq<u8>) -> Seq<char> {
    hex_of(sha256_of(data).take(16))
}

/// Hashes an encoded transaction into its short identifier.
pub fn calculate_tx_hash(data: &[u8]) -> (r: String)
    ensures
        r@ == spec_tx_hash(data@),
{
    let mut digest = sha256(data);
    digest.truncate(16);
    proof {
        assert(digest@ =~= sha256_of(data@).take(16));
    }
    hex_encode(digest.as_slice())
}

} // verus!
