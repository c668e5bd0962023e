//! Object digests: SHA-256 over the canonical encoding, rendered as
//! lowercase hexadecimal.

use vstd::prelude::*;
use vstd::string::*;

verus! {

/// The SHA-256 digest of a byte string.
pub uninterp spec fn sha256_of(data: Seq<u8>) -> Seq<u8>;

/// Relies on `sha2::Sha256::digest` (through the `digest::Digest` trait):
/// the 32-byte SHA-256 digest of `data`, a function of `data` alone.
#[verifier::external_body]
fn sha256(data: &[u8]) -> (r: Vec<u8>)
    ensures
        r@ == sha256_of(data@),
        r@.len() == 32,
{
    <sha2::Sha256 as sha2::Digest>::digest(data).to_vec()
}

/// The lowercase hexadecimal digits.
pub open spec fn hex_digits() -> Seq<char> {
    seq!['0', '1', '2', '3', '4', '5', '6', '7', '8', '9', 'a', 'b', 'c', 'd', 'e', 'f']
}

/// A byte as two lowercase hexadecimal digits, high nibble first.
pub open spec fn hex_pair(b: u8) -> Seq<char> {
    seq![hex_digits()[(b / 16) as int], hex_digits()[(b % 16) as int]]
}

/// Bytes as lowercase hexadecimal, two digits per byte.
pub open spec fn hex_of(b: Seq<u8>) -> Seq<char>
    decreases b.len(),
{
    if b.len() == 0 {
        Seq::empty()
    } else {
        hex_of(b.drop_last()) + hex_pair(b.last())
    }
}

/// The digest of an encoded object: its SHA-256 in lowercase hexadecimal.
pub open spec fn digest_spec(encoded: Seq<u8>) -> Seq<char> {
    hex_of(sha256_of(encoded))
}

/// Relies on std's `{:02x}` formatting of a `u8`: two lowercase
/// hexadecimal digits, zero-padded.
#[verifier::external_body]
fn hex_byte(b: u8) -> (r: String)
    ensures
        r@ == hex_pair(b),
{
    format!("{:02x}", b)
}

pub proof fn lemma_hex_len(b: Seq<u8>)
    ensures
        hex_of(b).len() == 2 * b.len(),
    decreases b.len(),
{
    if b.len() > 0 {
        lemma_hex_len(b.drop_last());
    }
}

/// Renders bytes as lowercase hexadecimal.
pub fn to_hex(b: &[u8]) -> (r: String)
    ensures
        r@ == hex_of(b@),
{
    let mut r = String::new();
    let mut i: usize = 0;
    while i < b.len()
        invariant
            i <= b@.len(),
            r@ == hex_of(b@.subrange(0, i as int)),
        decreases b.len() - i,
    {
        let p = hex_byte(b[i]);
        r.append(p.as_str());
        assert(b@.subrange(0, i + 1).drop_last() =~= b@.subrange(0, i as int));
        i = i + 1;
    }
    assert(b@.subrange(0, b@.len() as int) =~= b@);
    r
}

/// The digest of an encoded object.
pub fn digest_of(encoded: &[u8]) -> (r: String)
    ensures
        r@ == digest_spec(encoded@),
        r@.len() == 64,
{
    let h = sha256(encoded);
    proof {
        lemma_hex_len(h@);
    }
    to_hex(h.as_slice())
}

} // verus!
