//! The journal data model: ranked keywords plus the three commitments that
//! bind a run (program identity, input digest, output digest), and the error
//! kinds of the whole pipeline.

use vstd::prelude::*;
use crate::is_letter;
use crate::is_plain;

verus! {

/// One ranked keyword: a token and the number of times it occurred.
pub struct Keyword {
    pub word: Vec<u8>,
    pub count: u64,
}

/// Mathematical model of a `Keyword`.
#[verifier::ext_equal]
pub ghost struct KeywordModel {
    pub word: Seq<u8>,
    pub count: nat,
}

impl View for Keyword {
    type V = KeywordModel;

    open spec fn view(&self) -> KeywordModel {
        KeywordModel { word: self.word@, count: self.count as nat }
    }
}

/// The public record of one run: the program identity, the digest of the raw
/// input, the digest of the canonical keyword encoding, and the ranked
/// keywords themselves.
pub struct Journal {
    pub program_hash: Vec<u8>,
    pub input_hash: Vec<u8>,
    pub output_hash: Vec<u8>,
    pub keywords: Vec<Keyword>,
}

/// Mathematical model of a `Journal`.
#[verifier::ext_equal]
pub ghost struct JournalModel {
    pub program_hash: Seq<u8>,
    pub input_hash: Seq<u8>,
    pub output_hash: Seq<u8>,
    pub keywords: Seq<KeywordModel>,
}

impl View for Journal {
    type V = JournalModel;

    open spec fn view(&self) -> JournalModel {
        JournalModel {
            program_hash: self.program_hash@,
            input_hash: self.input_hash@,
            output_hash: self.output_hash@,
            keywords: self.keywords@.map_values(|k: Keyword| k@),
        }
    }
}

/// The failure kinds of the pipeline.
#[derive(PartialEq, Eq, Structural, Clone, Copy, Debug)]
pub enum Error {
    /// The raw input is not valid UTF-8 text.
    InvalidEncoding,
    /// The external collaborator failed to produce a receipt.
    ProveError,
    /// The receipt did not verify against the expected program image.
    VerifyError,
    /// The committed bytes are not a well-formed canonical journal.
    JournalDecodeError,
    /// An artifact could not be read or written.
    IOError,
    /// A required parameter is missing or invalid.
    ConfigError,
}

/// A token is a non-empty run of ASCII lowercase letters.
pub open spec fn wf_word(w: Seq<u8>) -> bool {
    w.len() >= 1 && forall|i: int| 0 <= i < w.len() ==> is_letter(#[trigger] w[i])
}

/// A canonical string holds only plain bytes, so it never needs escaping.
pub open spec fn wf_text(s: Seq<u8>) -> bool {
    forall|i: int| 0 <= i < s.len() ==> is_plain(#[trigger] s[i])
}

/// A well-formed keyword: a token with a positive count that fits in a `u64`.
pub open spec fn wf_keyword(k: KeywordModel) -> bool {
    wf_word(k.word) && 1 <= k.count <= u64::MAX
}

/// A well-formed keyword list: at most five well-formed entries.
pub open spec fn wf_keywords(ks: Seq<KeywordModel>) -> bool {
    ks.len() <= 5 && forall|i: int| 0 <= i < ks.len() ==> wf_keyword(#[trigger] ks[i])
}

/// A well-formed journal: plain commitment strings and a well-formed
/// keyword list.
pub open spec fn wf_journal(j: JournalModel) -> bool {
    &&& wf_text(j.program_hash)
    &&& wf_text(j.input_hash)
    &&& wf_text(j.output_hash)
    &&& wf_keywords(j.keywords)
}

} // verus!
