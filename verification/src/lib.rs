//! A deterministic text-summarization commitment library.
//!
//! Raw UTF-8 input is tokenized and lowercase-folded, stopwords are removed,
//! the remaining tokens are ranked by frequency with a lexicographic
//! tie-break, and the top keywords are serialized to a canonical byte form.
//! Digests over the raw input and the canonical output are combined with a
//! program identity into a journal record, built in two phases: the guest
//! emits a placeholder program hash, and the host orchestrator patches in the
//! independently computed identity only after external verification succeeds.

use vstd::prelude::*;

pub mod journal;
pub mod normalize;
pub mod rank;
pub mod codec;
pub mod commit;
pub mod guest;
pub mod host;

verus! {

/// Folds an ASCII uppercase letter to lowercase; every other byte is unchanged.
pub open spec fn fold_byte(b: u8) -> u8 {
    if 65 <= b && b <= 90 {
        (b + 32) as u8
    } else {
        b
    }
}

/// True for bytes that are ASCII lowercase letters, the only bytes a token may hold.
pub open spec fn is_letter(b: u8) -> bool {
    97 <= b && b <= 122
}

/// True for bytes that may stand unescaped inside a canonical string:
/// printable ASCII except the double quote and the backslash.
pub open spec fn is_plain(b: u8) -> bool {
    0x20 <= b && b <= 0x7e && b != 0x22 && b != 0x5c
}

/// True for ASCII decimal digit bytes.
pub open spec fn is_digit(b: u8) -> bool {
    48 <= b && b <= 57
}

/// Executable ASCII lowercase fold of one byte.
pub fn fold_byte_exec(b: u8) -> (r: u8)
    ensures
        r == fold_byte(b),
{
    if 65 <= b && b <= 90 {
        b + 32
    } else {
        b
    }
}

/// Byte-wise equality of two byte slices.
pub fn bytes_eq(a: &[u8], b: &[u8]) -> (r: bool)
    ensures
        r == (a@ == b@),
{
    if a.len() != b.len() {
        assert(a@ != b@) by {
            assert(a@.len() != b@.len());
        }
        return false;
    }
    let mut i: usize = 0;
    while i < a.len()
        invariant
            0 <= i <= a@.len(),
            a@.len() == b@.len(),
            forall|k: int| 0 <= k < i ==> a@[k] == b@[k],
        decreases a@.len() - i,
    {
        if a[i] != b[i] {
            return false;
        }
        i = i + 1;
    }
    proof {
        assert(a@ =~= b@);
    }
    true
}

} // verus!
