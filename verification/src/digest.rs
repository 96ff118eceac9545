//! Content keys for commands: SHA-256 (through `sha2`) rendered as lowercase hex (through `hex`).
use vstd::prelude::*;

verus! {

/// SHA-256 of `data` (`sha2::Sha256::digest`).
pub uninterp spec fn sha256_digest(data: Seq<u8>) -> Seq<u8>;

pub open spec fn hex_digit(k: int) -> char {
    if k < 10 {
        (48 + k) as char
    } else {
        (87 + k) as char
    }
}

/// Lowercase hex: two digits per byte, high nibble first.
pub open spec fn lower_hex(data: Seq<u8>) -> Seq<char>
    decreases data.len(),
{
    if data.len() == 0 {
        seq![]
    } else {
        lower_hex(data.drop_last()) + seq![
            hex_digit(data.last() as int / 16),
            hex_digit(data.last() as int % 16),
        ]
    }
}

/// `sha2::Sha256::digest` of `data`: 32 bytes, named by `sha256_digest`.
#[verifier::external_body]
pub fn sha256(data: &[u8]) -> (r: Vec<u8>)
    ensures
        r@ == sha256_digest(data@),
        r@.len() == 32,
{
    <sha2::Sha256 as sha2::Digest>::digest(data).to_vec()
}

/// `hex::encode`: two lowercase hex digits per byte, as the crate documents.
#[verifier::external_body]
pub fn hex_encode(data: &[u8]) -> (s: String)
    ensures
        s@ == lower_hex(data@),
{
    hex::encode(data)
}

} // verus!
