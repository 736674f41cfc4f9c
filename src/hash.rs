use vstd::prelude::*;
use sha2::Digest;

verus! {

/// The SHA-256 digest of a byte sequence.
pub uninterp spec fn sha256_of(data: Seq<u8>) -> Seq<u8>;

/// The lowercase hexadecimal digit for a value below sixteen.
pub open spec fn hex_digit(n: int) -> char {
    seq!['0', '1', '2', '3', '4', '5', '6', '7', '8', '9', 'a', 'b', 'c', 'd', 'e', 'f'][n]
}

/// Lowercase hexadecimal rendering: two digits per byte, high nibble first.
pub open spec fn hex_of(b: Seq<u8>) -> Seq<char>
    decreases b.len(),
{
    if b.len() == 0 {
        Seq::empty()
    } else {
        seq![hex_digit(b[0] as int / 16), hex_digit(b[0] as int % 16)] + hex_of(b.drop_first())
    }
}

/// The identifier of stored bytes: the hex rendering of their SHA-256 digest.
pub open spec fn hash_of(data: Seq<u8>) -> Seq<char> {
    hex_of(sha256_of(data))
}

pub proof fn lemma_hex_len(b: Seq<u8>)
    ensures
        hex_of(b).len() == 2 * b.len(),
    decreases b.len(),
{
    if b.len() > 0 {
        lemma_hex_len(b.drop_first());
    }
}

/// Relies on sha2::Sha256::digest: the 32-byte SHA-256 digest of `data`.
#[verifier::external_body]
fn sha256_digest(data: &[u8]) -> (r: Vec<u8>)
    ensures
        r@ == sha256_of(data@),
        r@.len() == 32,
{
    sha2::Sha256::digest(data).to_vec()
}

/// Relies on hex::encode: lowercase digits, two per byte, high nibble first.
#[verifier::external_body]
fn hex_encode(b: &[u8]) -> (r: String)
    ensures
        r@ == hex_of(b@),
{
    hex::encode(b)
}

/// The hash that identifies `data` in the object store: 64 lowercase hex digits.
pub fn calculate_hash(data: &[u8]) -> (r: String)
    ensures
        r@ == hash_of(data@),
        r@.len() == 64,
{
    let digest = sha256_digest(data);
    proof {
        lemma_hex_len(digest@);
    }
    hex_encode(digest.as_slice())
}

} // verus!
