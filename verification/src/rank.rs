//! The frequency ranker: counts each distinct token, orders the distinct
//! tokens by count descending with an ascending lexicographic tie-break, and
//! keeps the first five.

use vstd::prelude::*;
use vstd::relations::sorted_by;
use vstd::relations::total_ordering;
use vstd::seq_lib::lemma_sorted_unique;
use vstd::math::min;
use vstd::multiset::Multiset;
use crate::bytes_eq;
use crate::journal::Keyword;
use crate::journal::KeywordModel;
use crate::normalize::toks_model;

verus! {

broadcast use {vstd::seq_lib::group_to_multiset_ensures, vstd::multiset::group_multiset_axioms};

/// Number of occurrences of `w` in `toks`.
pub open spec fn count_of(toks: Seq<Seq<u8>>, w: Seq<u8>) -> nat {
    toks.to_multiset().count(w)
}

/// Strict lexicographic order on byte sequences.
pub open spec fn lex_lt(a: Seq<u8>, b: Seq<u8>) -> bool
    decreases a.len(),
{
    if b.len() == 0 {
        false
    } else if a.len() == 0 {
        true
    } else if a[0] < b[0] {
        true
    } else if a[0] > b[0] {
        false
    } else {
        lex_lt(a.drop_first(), b.drop_first())
    }
}

/// The ranking order: count descending first, then word ascending.
pub open spec fn kw_lt(a: KeywordModel, b: KeywordModel) -> bool {
    a.count > b.count || (a.count == b.count && lex_lt(a.word, b.word))
}

/// The reflexive closure of `kw_lt`, used for sorting.
pub open spec fn kw_le(a: KeywordModel, b: KeywordModel) -> bool {
    a == b || kw_lt(a, b)
}

/// `kw_le` as a first-class relation.
pub open spec fn kw_leq() -> spec_fn(KeywordModel, KeywordModel) -> bool {
    |a: KeywordModel, b: KeywordModel| kw_le(a, b)
}

pub proof fn lemma_lex_asymmetric(a: Seq<u8>, b: Seq<u8>)
    requires
        lex_lt(a, b),
    ensures
        !lex_lt(b, a),
    decreases a.len(),
{
    if b.len() > 0 && a.len() > 0 && a[0] == b[0] {
        lemma_lex_asymmetric(a.drop_first(), b.drop_first());
    }
}

pub proof fn lemma_lex_connected(a: Seq<u8>, b: Seq<u8>)
    requires
        a != b,
    ensures
        lex_lt(a, b) || lex_lt(b, a),
    decreases a.len(),
{
    if a.len() > 0 && b.len() > 0 && a[0] == b[0] {
        assert(a.drop_first() != b.drop_first()) by {
            if a.drop_first() == b.drop_first() {
                assert(a =~= b) by {
                    assert(a.drop_first().len() == a.len() - 1);
                    assert(b.drop_first().len() == b.len() - 1);
                    assert(a.len() == b.len());
                    assert forall|i: int| 0 <= i < a.len() implies a[i] == b[i] by {
                        if i > 0 {
                            assert(a[i] == a.drop_first()[i - 1]);
                            assert(b[i] == b.drop_first()[i - 1]);
                        }
                    }
                }
            }
        }
        lemma_lex_connected(a.drop_first(), b.drop_first());
    } else if a.len() == 0 && b.len() == 0 {
        assert(a =~= b);
    }
}

pub proof fn lemma_lex_transitive(a: Seq<u8>, b: Seq<u8>, c: Seq<u8>)
    requires
        lex_lt(a, b),
        lex_lt(b, c),
    ensures
        lex_lt(a, c),
    decreases a.len(),
{
    if a.len() > 0 && b.len() > 0 && c.len() > 0 && a[0] == b[0] && b[0] == c[0] {
        lemma_lex_transitive(a.drop_first(), b.drop_first(), c.drop_first());
    }
}

pub proof fn lemma_kw_lt_asymmetric(a: KeywordModel, b: KeywordModel)
    requires
        kw_lt(a, b),
    ensures
        !kw_lt(b, a),
{
    if a.count == b.count && lex_lt(a.word, b.word) {
        lemma_lex_asymmetric(a.word, b.word);
    }
}

pub proof fn lemma_kw_lt_connected(a: KeywordModel, b: KeywordModel)
    requires
        a != b,
    ensures
        kw_lt(a, b) || kw_lt(b, a),
{
    if a.count == b.count {
        assert(a.word != b.word);
        lemma_lex_connected(a.word, b.word);
    }
}

pub proof fn lemma_kw_lt_transitive(a: KeywordModel, b: KeywordModel, c: KeywordModel)
    requires
        kw_lt(a, b),
        kw_lt(b, c),
    ensures
        kw_lt(a, c),
{
    if a.count == b.count && b.count == c.count {
        lemma_lex_transitive(a.word, b.word, c.word);
    }
}

/// The ranking order is a total ordering, so sorting under it has a unique
/// result.
pub proof fn lemma_kw_total_ordering()
    ensures
        total_ordering(kw_leq()),
{
    let leq = kw_leq();
    assert forall|x: KeywordModel, y: KeywordModel| #[trigger] leq(x, y) && #[trigger] leq(
        y,
        x,
    ) implies x == y by {
        if x != y {
            lemma_kw_lt_asymmetric(x, y);
        }
    }
    assert forall|x: KeywordModel, y: KeywordModel, z: KeywordModel| #[trigger] leq(x, y)
        && #[trigger] leq(y, z) implies leq(x, z) by {
        if x != y && y != z {
            lemma_kw_lt_transitive(x, y, z);
        }
    }
    assert forall|x: KeywordModel, y: KeywordModel| #[trigger] leq(x, y) || #[trigger] leq(
        y,
        x,
    ) by {
        if x != y {
            lemma_kw_lt_connected(x, y);
        }
    }
}

/// The distinct values of a token sequence, in first-appearance order.
pub open spec fn distinct_words(toks: Seq<Seq<u8>>) -> Seq<Seq<u8>>
    decreases toks.len(),
{
    if toks.len() == 0 {
        Seq::empty()
    } else {
        let pre = distinct_words(toks.drop_last());
        if pre.contains(toks.last()) {
            pre
        } else {
            pre.push(toks.last())
        }
    }
}

pub proof fn lemma_distinct_words_contains(toks: Seq<Seq<u8>>, w: Seq<u8>)
    ensures
        distinct_words(toks).contains(w) <==> toks.contains(w),
    decreases toks.len(),
{
    if toks.len() > 0 {
        let pre = distinct_words(toks.drop_last());
        lemma_distinct_words_contains(toks.drop_last(), w);
        lemma_distinct_words_contains(toks.drop_last(), toks.last());
        assert(toks.contains(w) <==> toks.drop_last().contains(w) || toks.last() == w) by {
            if toks.contains(w) {
                let i = choose|i: int| 0 <= i < toks.len() && toks[i] == w;
                if i < toks.len() - 1 {
                    assert(toks.drop_last()[i] == w);
                }
            }
            if toks.drop_last().contains(w) {
                let i = choose|i: int| 0 <= i < toks.drop_last().len() && toks.drop_last()[i] == w;
                assert(toks[i] == w);
            }
        }
        if !pre.contains(toks.last()) {
            assert(pre.push(toks.last()).contains(w) <==> pre.contains(w) || toks.last() == w)
                by {
                if pre.contains(w) {
                    let i = choose|i: int| 0 <= i < pre.len() && pre[i] == w;
                    assert(pre.push(toks.last())[i] == w);
                }
                assert(pre.push(toks.last())[pre.len() as int] == toks.last());
                if pre.push(toks.last()).contains(w) {
                    let i = choose|i: int|
                        0 <= i < pre.push(toks.last()).len() && pre.push(toks.last())[i] == w;
                    if i < pre.len() {
                        assert(pre[i] == w);
                    }
                }
            }
        }
    }
}

pub proof fn lemma_distinct_words_no_duplicates(toks: Seq<Seq<u8>>)
    ensures
        distinct_words(toks).no_duplicates(),
    decreases toks.len(),
{
    if toks.len() > 0 {
        lemma_distinct_words_no_duplicates(toks.drop_last());
    }
}

/// The distinct tokens have exactly as many values as the token set.
pub proof fn lemma_distinct_words_len(toks: Seq<Seq<u8>>)
    ensures
        distinct_words(toks).len() == toks.to_set().len(),
{
    lemma_distinct_words_no_duplicates(toks);
    distinct_words(toks).unique_seq_to_set();
    assert(distinct_words(toks).to_set() =~= toks.to_set()) by {
        assert forall|w: Seq<u8>| #[trigger] distinct_words(toks).to_set().contains(w)
            <==> toks.to_set().contains(w) by {
            lemma_distinct_words_contains(toks, w);
        }
    }
}

/// One keyword per distinct token, each carrying its total count, in
/// first-appearance order.
pub open spec fn distinct_kws(toks: Seq<Seq<u8>>) -> Seq<KeywordModel> {
    distinct_words(toks).map_values(
        |w: Seq<u8>| KeywordModel { word: w, count: count_of(toks, w) },
    )
}

/// The ranked keyword list of a token sequence: the distinct tokens sorted
/// by count descending with the lexicographic tie-break, cut to five.
pub open spec fn rank_spec(toks: Seq<Seq<u8>>) -> Seq<KeywordModel> {
    let sorted = distinct_kws(toks).sort_by(kw_leq());
    sorted.take(min(5, sorted.len() as int))
}

/// The models of a vector of keywords.
pub open spec fn kws_model(ks: Seq<Keyword>) -> Seq<KeywordModel> {
    ks.map_values(|k: Keyword| k@)
}

/// The words of a keyword list, in order.
pub open spec fn words_of(ks: Seq<KeywordModel>) -> Seq<Seq<u8>> {
    ks.map_values(|k: KeywordModel| k.word)
}

/// Strict lexicographic comparison of two byte strings.
pub fn lex_lt_exec(a: &[u8], b: &[u8]) -> (r: bool)
    ensures
        r == lex_lt(a@, b@),
{
    let mut i: usize = 0;
    proof {
        assert(a@.skip(0) =~= a@);
        assert(b@.skip(0) =~= b@);
    }
    while i < a.len() && i < b.len()
        invariant
            0 <= i <= a@.len(),
            0 <= i <= b@.len(),
            lex_lt(a@, b@) == lex_lt(a@.skip(i as int), b@.skip(i as int)),
        decreases a@.len() - i,
    {
        proof {
            assert(a@.skip(i as int)[0] == a@[i as int]);
            assert(b@.skip(i as int)[0] == b@[i as int]);
            assert(a@.skip(i as int).drop_first() =~= a@.skip(i + 1));
            assert(b@.skip(i as int).drop_first() =~= b@.skip(i + 1));
        }
        if a[i] < b[i] {
            return true;
        }
        if a[i] > b[i] {
            return false;
        }
        i = i + 1;
    }
    proof {
        if i >= a@.len() {
            assert(a@.skip(i as int) =~= Seq::<u8>::empty());
        }
        if i >= b@.len() {
            assert(b@.skip(i as int) =~= Seq::<u8>::empty());
        }
    }
    a.len() < b.len()
}

/// Executable ranking comparison.
pub fn kw_lt_exec(a: &Keyword, b: &Keyword) -> (r: bool)
    ensures
        r == kw_lt(a@, b@),
{
    if a.count > b.count {
        true
    } else if a.count == b.count {
        lex_lt_exec(a.word.as_slice(), b.word.as_slice())
    } else {
        false
    }
}

/// Copies a byte vector.
pub fn clone_bytes(v: &Vec<u8>) -> (r: Vec<u8>)
    ensures
        r@ == v@,
{
    let r = v.clone();
    proof {
        assert(r@ =~= v@);
    }
    r
}

/// Counts every distinct token, in first-appearance order.
fn count_tokens(toks: &Vec<Vec<u8>>) -> (r: Vec<Keyword>)
    ensures
        kws_model(r@) == distinct_kws(toks_model(toks@)),
{
    let ghost toksm = toks_model(toks@);
    let mut r: Vec<Keyword> = Vec::new();
    let mut i: usize = 0;
    proof {
        assert(toksm.take(0) =~= Seq::<Seq<u8>>::empty());
        assert(words_of(kws_model(r@)) =~= distinct_words(toksm.take(0)));
    }
    while i < toks.len()
        invariant
            0 <= i <= toks@.len(),
            toksm == toks_model(toks@),
            words_of(kws_model(r@)) == distinct_words(toksm.take(i as int)),
            forall|p: int|
                0 <= p < r@.len() ==> #[trigger] kws_model(r@)[p].count == count_of(
                    toksm.take(i as int),
                    kws_model(r@)[p].word,
                ),
        decreases toks@.len() - i,
    {
        proof {
            assert(toksm.take(i + 1).drop_last() =~= toksm.take(i as int));
            assert(toksm.take(i + 1).last() == toksm[i as int]);
            assert(toksm.take(i + 1) =~= toksm.take(i as int).push(toksm[i as int]));
            assert(toksm[i as int] == toks@[i as int]@);
            lemma_distinct_words_no_duplicates(toksm.take(i as int));
        }
        let ghost words_old = words_of(kws_model(r@));
        let w = &toks[i];
        let mut j: usize = 0;
        let mut found: bool = false;
        while j < r.len() && !found
            invariant
                0 <= j <= r@.len(),
                toksm == toks_model(toks@),
                0 <= i < toks@.len(),
                w@ == toksm[i as int],
                words_old == words_of(kws_model(r@)),
                words_old.len() == r@.len(),
                !found ==> forall|k: int|
                    0 <= k < j ==> #[trigger] words_old[k] != toksm[i as int],
                found ==> j < r@.len() && words_old[j as int] == toksm[i as int],
            decreases r@.len() - j + (if found {
                0int
            } else {
                1int
            }),
        {
            proof {
                assert(words_old[j as int] == kws_model(r@)[j as int].word) by {
                    assert(words_old == words_of(kws_model(r@)));
                }
                assert(kws_model(r@)[j as int].word == r@[j as int].word@);
                assert(toksm[i as int] == toks@[i as int]@);
            }
            if bytes_eq(r[j].word.as_slice(), w.as_slice()) {
                found = true;
            } else {
                j = j + 1;
            }
        }
        proof {
            assert(found || forall|k: int|
                0 <= k < words_old.len() ==> #[trigger] words_old[k] != toksm[i as int]);
        }
        if found {
            proof {
                assert(toksm.take(i as int).to_multiset().len() == toksm.take(i as int).len());
                assert(count_of(toksm.take(i as int), kws_model(r@)[j as int].word) <= toksm.take(
                    i as int,
                ).len()) by {
                    vstd::multiset::axiom_count_le_len(
                        toksm.take(i as int).to_multiset(),
                        kws_model(r@)[j as int].word,
                    );
                }
                assert(kws_model(r@)[j as int].count <= i);
                assert(r@[j as int].count < u64::MAX);
            }
            let ghost old_model = kws_model(r@);
            let wc = clone_bytes(&r[j].word);
            let c = r[j].count;
            let kw = Keyword { word: wc, count: c + 1 };
            r.set(j, kw);
            proof {
                assert(kws_model(r@) =~= old_model.update(j as int, kw@));
                assert(kw@.word == old_model[j as int].word);
                assert(words_old.contains(toksm[i as int])) by {
                    assert(words_old[j as int] == toksm[i as int]);
                }
                assert(distinct_words(toksm.take(i + 1)) == words_old);
                assert(words_of(kws_model(r@)) =~= words_old) by {
                    assert forall|p: int| 0 <= p < kws_model(r@).len() implies words_of(
                        kws_model(r@),
                    )[p] == words_old[p] by {
                        if p != j {
                            assert(kws_model(r@)[p] == old_model[p]);
                        }
                    }
                }
                assert forall|p: int| 0 <= p < r@.len() implies #[trigger] kws_model(
                    r@,
                )[p].count == count_of(toksm.take(i + 1), kws_model(r@)[p].word) by {
                    let wp = kws_model(r@)[p].word;
                    assert(toksm.take(i + 1).to_multiset() =~= toksm.take(
                        i as int,
                    ).to_multiset().insert(toksm[i as int]));
                    if p == j {
                        assert(wp == toksm[i as int]);
                    } else {
                        assert(wp == old_model[p].word);
                        assert(words_old[p] == wp && words_old[j as int] == toksm[i as int]);
                        assert(wp != toksm[i as int]) by {
                            lemma_distinct_words_no_duplicates(toksm.take(i as int));
                        }
                    }
                }
            }
        } else {
            let ghost old_model = kws_model(r@);
            let wc = clone_bytes(w);
            let kw = Keyword { word: wc, count: 1 };
            r.push(kw);
            proof {
                assert(kws_model(r@) =~= old_model.push(kw@));
                assert(!words_old.contains(toksm[i as int])) by {
                    if words_old.contains(toksm[i as int]) {
                        let k = choose|k: int|
                            0 <= k < words_old.len() && words_old[k] == toksm[i as int];
                        assert(kws_model(r@)[k].word == toksm[i as int]);
                    }
                }
                assert(count_of(toksm.take(i as int), toksm[i as int]) == 0) by {
                    lemma_distinct_words_contains(toksm.take(i as int), toksm[i as int]);
                    assert(!toksm.take(i as int).contains(toksm[i as int]));
                }
                assert(words_of(kws_model(r@)) =~= words_old.push(toksm[i as int]));
                assert(distinct_words(toksm.take(i + 1)) == words_old.push(toksm[i as int]));
                assert forall|p: int| 0 <= p < r@.len() implies #[trigger] kws_model(
                    r@,
                )[p].count == count_of(toksm.take(i + 1), kws_model(r@)[p].word) by {
                    let wp = kws_model(r@)[p].word;
                    assert(toksm.take(i + 1).to_multiset() =~= toksm.take(
                        i as int,
                    ).to_multiset().insert(toksm[i as int]));
                    if p < old_model.len() {
                        assert(wp == old_model[p].word);
                        assert(words_old[p] == wp);
                        assert(wp != toksm[i as int]);
                    } else {
                        assert(wp == toksm[i as int]);
                        assert(kws_model(r@)[p].count == 1);
                    }
                }
            }
        }
        i = i + 1;
    }
    proof {
        assert(toksm.take(toksm.len() as int) =~= toksm);
        assert(kws_model(r@) =~= distinct_kws(toksm)) by {
            assert(words_of(kws_model(r@)) == distinct_words(toksm));
            assert(kws_model(r@).len() == distinct_words(toksm).len());
            assert forall|p: int| 0 <= p < kws_model(r@).len() implies kws_model(r@)[p]
                == distinct_kws(toksm)[p] by {
                assert(words_of(kws_model(r@))[p] == kws_model(r@)[p].word);
                assert(kws_model(r@)[p] =~= distinct_kws(toksm)[p]);
            }
        }
    }
    r
}

/// Selection sort of keywords under the ranking order.
fn sort_keywords(ks: Vec<Keyword>) -> (r: Vec<Keyword>)
    ensures
        kws_model(r@).to_multiset() == kws_model(ks@).to_multiset(),
        sorted_by(kws_model(r@), kw_leq()),
{
    let mut rem = ks;
    let mut out: Vec<Keyword> = Vec::new();
    while rem.len() > 0
        invariant
            kws_model(out@).to_multiset().add(kws_model(rem@).to_multiset()) == kws_model(
                ks@,
            ).to_multiset(),
            sorted_by(kws_model(out@), kw_leq()),
            forall|p: int, q: int|
                0 <= p < out@.len() && 0 <= q < rem@.len() ==> kw_le(
                    #[trigger] kws_model(out@)[p],
                    #[trigger] kws_model(rem@)[q],
                ),
        decreases rem@.len(),
    {
        let mut m: usize = 0;
        let mut j: usize = 1;
        while j < rem.len()
            invariant
                0 <= m < j <= rem@.len(),
                rem@.len() > 0,
                forall|k: int|
                    0 <= k < j ==> kw_le(kws_model(rem@)[m as int], #[trigger] kws_model(rem@)[k]),
            decreases rem@.len() - j,
        {
            if kw_lt_exec(&rem[j], &rem[m]) {
                proof {
                    assert forall|k: int| 0 <= k < j + 1 implies kw_le(
                        kws_model(rem@)[j as int],
                        #[trigger] kws_model(rem@)[k],
                    ) by {
                        if k < j {
                            if kws_model(rem@)[j as int] != kws_model(rem@)[k] {
                                if kws_model(rem@)[m as int] == kws_model(rem@)[k] {
                                } else {
                                    lemma_kw_lt_transitive(
                                        kws_model(rem@)[j as int],
                                        kws_model(rem@)[m as int],
                                        kws_model(rem@)[k],
                                    );
                                }
                            }
                        }
                    }
                }
                m = j;
            } else {
                proof {
                    if kws_model(rem@)[m as int] != kws_model(rem@)[j as int] {
                        lemma_kw_lt_connected(kws_model(rem@)[m as int], kws_model(rem@)[j as int]);
                    }
                }
            }
            j = j + 1;
        }
        let ghost old_out = kws_model(out@);
        let ghost old_rem = kws_model(rem@);
        let x = rem.remove(m);
        out.push(x);
        proof {
            assert(kws_model(out@) =~= old_out.push(x@));
            assert(kws_model(rem@) =~= old_rem.remove(m as int));
            assert(old_rem[m as int] == x@);
            assert(kws_model(out@).to_multiset() =~= old_out.to_multiset().insert(x@));
            assert(kws_model(rem@).to_multiset() =~= old_rem.to_multiset().remove(x@));
            assert(old_rem.contains(x@)) by {
                assert(old_rem[m as int] == x@);
            }
            assert(old_rem.to_multiset().count(x@) >= 1);
            assert(kws_model(out@).to_multiset().add(kws_model(rem@).to_multiset()) =~= kws_model(
                ks@,
            ).to_multiset());
            assert forall|p: int, q: int|
                0 <= p < kws_model(out@).len() && 0 <= q < kws_model(rem@).len() implies kw_le(
                #[trigger] kws_model(out@)[p],
                #[trigger] kws_model(rem@)[q],
            ) by {
                let rq = kws_model(rem@)[q];
                assert(rq == old_rem[q] || rq == old_rem[q + 1]);
                assert(kw_le(x@, rq));
                if p < old_out.len() {
                    assert(kw_le(old_out[p], rq));
                }
            }
            assert forall|p: int, q: int|
                0 <= p < q < kws_model(out@).len() implies kw_leq()(
                #[trigger] kws_model(out@)[p],
                #[trigger] kws_model(out@)[q],
            ) by {
                if q < old_out.len() {
                } else {
                    assert(kws_model(out@)[q] == x@);
                }
            }
        }
    }
    proof {
        assert(kws_model(rem@).to_multiset() =~= Multiset::<KeywordModel>::empty()) by {
            assert(kws_model(rem@) =~= Seq::<KeywordModel>::empty());
        }
        assert(kws_model(out@).to_multiset() =~= kws_model(ks@).to_multiset());
    }
    out
}

/// Ranks a token sequence: counts distinct tokens, sorts by count descending
/// with the ascending lexicographic tie-break, and keeps the first five.
pub fn rank(toks: &Vec<Vec<u8>>) -> (r: Vec<Keyword>)
    ensures
        kws_model(r@) == rank_spec(toks_model(toks@)),
{
    let ghost toksm = toks_model(toks@);
    let counted = count_tokens(toks);
    let mut sorted = sort_keywords(counted);
    proof {
        lemma_kw_total_ordering();
        distinct_kws(toksm).lemma_sort_by_ensures(kw_leq());
        lemma_sorted_unique(kws_model(sorted@), distinct_kws(toksm).sort_by(kw_leq()), kw_leq());
    }
    let ghost full = kws_model(sorted@);
    sorted.truncate(5);
    proof {
        assert(kws_model(sorted@) =~= full.take(min(5, full.len() as int)));
    }
    sorted
}

/// Determinism of the ranking: the ranked list is a function of the token
/// sequence alone, so equal inputs always rank identically.
pub proof fn lemma_rank_deterministic(t1: Seq<Seq<u8>>, t2: Seq<Seq<u8>>)
    requires
        t1 == t2,
    ensures
        rank_spec(t1) == rank_spec(t2),
{
}

/// The top-K bound: the ranked list has exactly min(5, distinct tokens)
/// entries.
pub proof fn lemma_rank_len(toks: Seq<Seq<u8>>)
    ensures
        rank_spec(toks).len() == min(5, toks.to_set().len() as int),
{
    lemma_kw_total_ordering();
    distinct_kws(toks).lemma_sort_by_ensures(kw_leq());
    assert(distinct_kws(toks).sort_by(kw_leq()).len() == distinct_kws(toks).len()) by {
        let sorted = distinct_kws(toks).sort_by(kw_leq());
        assert(sorted.to_multiset().len() == sorted.len());
        assert(distinct_kws(toks).to_multiset().len() == distinct_kws(toks).len());
    }
    lemma_distinct_words_len(toks);
}

/// The tie-break: within the ranked list, counts never increase, and equal
/// counts are ordered by ascending lexicographic word order.
pub proof fn lemma_rank_tie_break(toks: Seq<Seq<u8>>, i: int, j: int)
    requires
        0 <= i < j < rank_spec(toks).len(),
    ensures
        rank_spec(toks)[i].count >= rank_spec(toks)[j].count,
        rank_spec(toks)[i].count == rank_spec(toks)[j].count ==> lex_lt(
            rank_spec(toks)[i].word,
            rank_spec(toks)[j].word,
        ),
{
    lemma_kw_total_ordering();
    distinct_kws(toks).lemma_sort_by_ensures(kw_leq());
    let sorted = distinct_kws(toks).sort_by(kw_leq());
    assert(kw_leq()(sorted[i], sorted[j]));
    if sorted[i] == sorted[j] {
        lemma_sort_by_distinct(toks, i, j);
    }
}

/// Entries of the sorted distinct keyword list are pairwise distinct.
proof fn lemma_sort_by_distinct(toks: Seq<Seq<u8>>, i: int, j: int)
    requires
        0 <= i < j < distinct_kws(toks).sort_by(kw_leq()).len(),
    ensures
        distinct_kws(toks).sort_by(kw_leq())[i] != distinct_kws(toks).sort_by(kw_leq())[j],
{
    lemma_kw_total_ordering();
    let base = distinct_kws(toks);
    let sorted = base.sort_by(kw_leq());
    base.lemma_sort_by_ensures(kw_leq());
    lemma_distinct_words_no_duplicates(toks);
    assert(base.no_duplicates()) by {
        assert forall|p: int, q: int|
            0 <= p < base.len() && 0 <= q < base.len() && p != q implies base[p] != base[q] by {
            assert(distinct_words(toks)[p] != distinct_words(toks)[q]);
        }
    }
    if sorted[i] == sorted[j] {
        base.lemma_multiset_has_no_duplicates();
        assert(sorted.to_multiset().count(sorted[i]) <= 1);
        assert(sorted.remove(j).to_multiset().count(sorted[i]) == 0);
        assert(sorted.remove(j).to_multiset().contains(sorted[i])) by {
            assert(sorted.remove(j)[i] == sorted[i]);
        }
    }
}

} // verus!
