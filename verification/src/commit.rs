//! The commitment builder: SHA-256 fingerprints of byte strings, rendered as
//! lowercase hexadecimal with a fixed algorithm-name prefix.

use vstd::prelude::*;
use sha2::Digest;
use crate::is_plain;
use crate::journal::wf_text;

verus! {

/// The SHA-256 digest of a byte sequence, named but not described: the
/// digest is a function of the bytes alone.
pub uninterp spec fn sha256_of(b: Seq<u8>) -> Seq<u8>;

/// Relies on `sha2::Sha256::digest`: a 32-byte digest that depends on the
/// input bytes alone.
#[verifier::external_body]
fn sha256(b: &[u8]) -> (r: Vec<u8>)
    ensures
        r@ == sha256_of(b@),
        r@.len() == 32,
{
    sha2::Sha256::digest(b).to_vec()
}

/// The lowercase hexadecimal digit for a value below sixteen.
pub open spec fn hex_digit(n: u8) -> u8 {
    if n < 10 {
        (48 + n) as u8
    } else {
        (87 + n) as u8
    }
}

/// Lowercase hexadecimal rendering: two digits per byte, high nibble first.
pub open spec fn hex_of(b: Seq<u8>) -> Seq<u8>
    decreases b.len(),
{
    if b.len() == 0 {
        Seq::empty()
    } else {
        seq![hex_digit(b[0] / 16), hex_digit(b[0] % 16)] + hex_of(b.drop_first())
    }
}

/// Relies on `hex::encode`: lowercase hexadecimal, two digits per byte, high
/// nibble first.
#[verifier::external_body]
fn hex_bytes(b: &[u8]) -> (r: Vec<u8>)
    ensures
        r@ == hex_of(b@),
{
    hex::encode(b).into_bytes()
}

/// Every byte of a hexadecimal rendering is a plain string byte.
pub proof fn lemma_hex_plain(b: Seq<u8>)
    ensures
        wf_text(hex_of(b)),
    decreases b.len(),
{
    if b.len() > 0 {
        lemma_hex_plain(b.drop_first());
        assert(is_plain(hex_digit(b[0] / 16)));
        assert(is_plain(hex_digit(b[0] % 16)));
    }
}

/// The fixed algorithm-name prefix of every fingerprint.
pub open spec fn hash_prefix() -> Seq<u8> {
    seq![115u8, 104, 97, 50, 53, 54, 58]
}

/// The textual fingerprint of a byte sequence: the algorithm name, a colon,
/// then the lowercase hexadecimal SHA-256 digest.
pub open spec fn fingerprint_of(b: Seq<u8>) -> Seq<u8> {
    hash_prefix() + hex_of(sha256_of(b))
}

/// Computes the textual fingerprint of a byte string.
pub fn fingerprint(b: &[u8]) -> (r: Vec<u8>)
    ensures
        r@ == fingerprint_of(b@),
        wf_text(r@),
{
    let digest = sha256(b);
    let hexed = hex_bytes(digest.as_slice());
    let mut out: Vec<u8> = Vec::new();
    out.push(115);
    out.push(104);
    out.push(97);
    out.push(50);
    out.push(53);
    out.push(54);
    out.push(58);
    proof {
        assert(out@ =~= hash_prefix());
    }
    let mut i: usize = 0;
    while i < hexed.len()
        invariant
            0 <= i <= hexed@.len(),
            out@ == hash_prefix() + hexed@.take(i as int),
        decreases hexed@.len() - i,
    {
        out.push(hexed[i]);
        proof {
            assert(out@ =~= hash_prefix() + hexed@.take(i + 1));
        }
        i = i + 1;
    }
    proof {
        assert(hexed@.take(hexed@.len() as int) =~= hexed@);
        assert(out@ =~= fingerprint_of(b@));
        lemma_hex_plain(sha256_of(b@));
        assert(wf_text(out@)) by {
            assert(forall|k: int| 0 <= k < hash_prefix().len() ==> is_plain(#[trigger] hash_prefix()[k]));
        }
    }
    out
}

/// Hash purity: the fingerprint is a function of the bytes alone, so equal
/// bytes always fingerprint identically; in particular the output commitment
/// depends only on the canonical keyword encoding.
pub proof fn lemma_fingerprint_deterministic(b1: Seq<u8>, b2: Seq<u8>)
    requires
        b1 == b2,
    ensures
        fingerprint_of(b1) == fingerprint_of(b2),
{
}

} // verus!
