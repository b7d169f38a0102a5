//! The guest program: the single deterministic pipeline run inside the
//! verifiable execution environment. It normalizes the input, ranks the
//! keywords, computes both fingerprints, assembles a journal whose program
//! identity is a fixed placeholder, and serializes it canonically. The
//! serialized bytes are the execution's one observable output.

use vstd::prelude::*;
use crate::journal::Journal;
use crate::journal::JournalModel;
use crate::journal::Error;
use crate::normalize::normalize_text;
use crate::normalize::normalize_spec;
use crate::normalize::is_valid_utf8;
use crate::normalize::tokens_of;
use crate::normalize::folded;
use crate::rank::rank;
use crate::rank::rank_spec;
use crate::rank::distinct_words;
use crate::rank::distinct_kws;
use crate::rank::kw_leq;
use crate::rank::kws_model;
use crate::rank::lemma_kw_total_ordering;
use crate::commit::fingerprint;
use crate::commit::fingerprint_of;
use crate::codec::encode_keywords;
use crate::codec::encode_journal;
use crate::codec::enc_keywords;
use crate::codec::enc_journal;

verus! {

/// The sentinel the guest writes in place of the program identity; only the
/// host may replace it, after verification.
pub open spec fn placeholder() -> Seq<u8> {
    seq![60u8, 70, 73, 76, 76, 69, 68, 95, 66, 89, 95, 72, 79, 83, 84, 62]
}

/// Builds the placeholder bytes.
pub fn placeholder_bytes() -> (r: Vec<u8>)
    ensures
        r@ == placeholder(),
{
    let mut v: Vec<u8> = Vec::new();
    v.push(60);
    v.push(70);
    v.push(73);
    v.push(76);
    v.push(76);
    v.push(69);
    v.push(68);
    v.push(95);
    v.push(66);
    v.push(89);
    v.push(95);
    v.push(72);
    v.push(79);
    v.push(83);
    v.push(84);
    v.push(62);
    proof {
        assert(v@ =~= placeholder());
    }
    v
}

/// The journal the guest commits for a valid input: ranked keywords, both
/// fingerprints, and the placeholder program identity.
pub open spec fn guest_journal_spec(input: Seq<u8>) -> JournalModel {
    let ks = rank_spec(normalize_spec(input));
    JournalModel {
        program_hash: placeholder(),
        input_hash: fingerprint_of(input),
        output_hash: fingerprint_of(enc_keywords(ks)),
        keywords: ks,
    }
}

/// What the guest hands back: the assembled journal and its canonical
/// bytes, the execution's committed output.
pub struct GuestOutput {
    pub journal: Journal,
    pub commit: Vec<u8>,
}

/// Runs the guest pipeline. Fails exactly on input that is not valid UTF-8,
/// and then commits nothing.
pub fn guest_run(input: &[u8]) -> (r: Result<GuestOutput, Error>)
    ensures
        match r {
            Ok(out) => is_valid_utf8(input@) && out.journal@ == guest_journal_spec(input@)
                && out.commit@ == enc_journal(guest_journal_spec(input@)),
            Err(e) => e == Error::InvalidEncoding && !is_valid_utf8(input@),
        },
{
    let toks = match normalize_text(input) {
        Ok(t) => t,
        Err(e) => {
            return Err(e);
        },
    };
    let kws = rank(&toks);
    let input_hash = fingerprint(input);
    let kw_bytes = encode_keywords(&kws);
    let output_hash = fingerprint(kw_bytes.as_slice());
    let journal = Journal {
        program_hash: placeholder_bytes(),
        input_hash,
        output_hash,
        keywords: kws,
    };
    proof {
        assert(journal@.keywords =~= kws_model(journal.keywords@));
        assert(journal@ =~= guest_journal_spec(input@));
    }
    let commit = encode_journal(&journal);
    Ok(GuestOutput { journal, commit })
}

/// Empty input is not an error: it normalizes to no tokens and the guest's
/// journal carries an empty keyword list.
pub proof fn lemma_empty_input(input: Seq<u8>)
    requires
        input.len() == 0,
    ensures
        is_valid_utf8(input),
        normalize_spec(input) =~= Seq::<Seq<u8>>::empty(),
        guest_journal_spec(input).keywords =~= Seq::<crate::journal::KeywordModel>::empty(),
{
    broadcast use vstd::seq_lib::group_to_multiset_ensures;

    reveal(Seq::filter);
    assert(folded(input) =~= Seq::<u8>::empty());
    assert(tokens_of(folded(input)) =~= Seq::<Seq<u8>>::empty());
    assert(normalize_spec(input) =~= Seq::<Seq<u8>>::empty());
    let toks = normalize_spec(input);
    assert(distinct_words(toks) =~= Seq::<Seq<u8>>::empty());
    assert(distinct_kws(toks).len() == 0);
    lemma_kw_total_ordering();
    distinct_kws(toks).lemma_sort_by_ensures(kw_leq());
    let sorted = distinct_kws(toks).sort_by(kw_leq());
    assert(sorted.to_multiset().len() == sorted.len());
    assert(distinct_kws(toks).to_multiset().len() == 0);
    assert(rank_spec(toks).len() == 0);
}

/// The output commitment is a function of the keyword list alone: it
/// changes only if the ranked keywords change.
pub proof fn lemma_output_hash_function(
    ks1: Seq<crate::journal::KeywordModel>,
    ks2: Seq<crate::journal::KeywordModel>,
)
    requires
        ks1 == ks2,
    ensures
        fingerprint_of(enc_keywords(ks1)) == fingerprint_of(enc_keywords(ks2)),
{
}

/// Determinism of the whole guest pipeline: the committed bytes are a
/// function of the input bytes alone, so two runs on the same input commit
/// identical journals.
pub proof fn lemma_guest_deterministic(i1: Seq<u8>, i2: Seq<u8>)
    requires
        i1 == i2,
    ensures
        guest_journal_spec(i1) == guest_journal_spec(i2),
        enc_journal(guest_journal_spec(i1)) == enc_journal(guest_journal_spec(i2)),
{
}

} // verus!
