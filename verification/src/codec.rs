//! The canonical codec: a byte-exact serialization of keyword lists and
//! journals, and its inverse. The format is a fixed-field-order subset of
//! JSON with no insignificant whitespace, strings of plain bytes that never
//! need escaping, and counts as plain decimal with no sign and no leading
//! zeros. Identical values always serialize to identical bytes.

use vstd::prelude::*;
use crate::is_plain;
use crate::is_digit;
use crate::journal::Keyword;
use crate::journal::KeywordModel;
use crate::journal::Journal;
use crate::journal::JournalModel;
use crate::journal::Error;
use crate::journal::wf_word;
use crate::journal::wf_text;
use crate::journal::wf_keyword;
use crate::journal::wf_journal;
use crate::journal::wf_keywords;
use crate::rank::kws_model;
use crate::bytes_eq;

verus! {

/// The canonical bytes of `{\"word\":\"`.
pub open spec fn lit_kw_open() -> Seq<u8> {
    seq![123u8, 34, 119, 111, 114, 100, 34, 58, 34]
}
/// The canonical bytes of `\",\"count\":`.
pub open spec fn lit_kw_mid() -> Seq<u8> {
    seq![34u8, 44, 34, 99, 111, 117, 110, 116, 34, 58]
}
/// The canonical bytes of `{\"programHash\":\"`.
pub open spec fn lit_j_open() -> Seq<u8> {
    seq![123u8, 34, 112, 114, 111, 103, 114, 97, 109, 72, 97, 115, 104, 34, 58, 34]
}
/// The canonical bytes of `\",\"inputHash\":\"`.
pub open spec fn lit_j_input() -> Seq<u8> {
    seq![34u8, 44, 34, 105, 110, 112, 117, 116, 72, 97, 115, 104, 34, 58, 34]
}
/// The canonical bytes of `\",\"outputHash\":\"`.
pub open spec fn lit_j_output() -> Seq<u8> {
    seq![34u8, 44, 34, 111, 117, 116, 112, 117, 116, 72, 97, 115, 104, 34, 58, 34]
}
/// The canonical bytes of `\",\"keywords\":`.
pub open spec fn lit_j_kws() -> Seq<u8> {
    seq![34u8, 44, 34, 107, 101, 121, 119, 111, 114, 100, 115, 34, 58]
}
/// Decimal rendering of a count: no sign, no leading zeros.
pub open spec fn enc_nat(n: nat) -> Seq<u8>
    decreases n,
{
    if n < 10 {
        seq![(48 + n) as u8]
    } else {
        enc_nat(n / 10).push((48 + n % 10) as u8)
    }
}

/// The canonical encoding of one keyword.
pub open spec fn enc_keyword(k: KeywordModel) -> Seq<u8> {
    lit_kw_open() + k.word + lit_kw_mid() + enc_nat(k.count) + seq![125u8]
}

/// The canonical encoding of the keywords after the first: a comma-led
/// entry each, then the closing bracket.
pub open spec fn enc_kws_tail(ks: Seq<KeywordModel>) -> Seq<u8>
    decreases ks.len(),
{
    if ks.len() == 0 {
        seq![93u8]
    } else {
        seq![44u8] + enc_keyword(ks.first()) + enc_kws_tail(ks.drop_first())
    }
}

/// The canonical encoding of a keyword list.
pub open spec fn enc_keywords(ks: Seq<KeywordModel>) -> Seq<u8> {
    if ks.len() == 0 {
        seq![91u8, 93u8]
    } else {
        seq![91u8] + enc_keyword(ks.first()) + enc_kws_tail(ks.drop_first())
    }
}

/// The canonical encoding of a journal.
pub open spec fn enc_journal(j: JournalModel) -> Seq<u8> {
    lit_j_open() + j.program_hash + lit_j_input() + j.input_hash + lit_j_output() + j.output_hash
        + lit_j_kws() + enc_keywords(j.keywords) + seq![125u8]
}

/// Appends a byte slice.
fn push_bytes(out: &mut Vec<u8>, s: &[u8])
    ensures
        final(out)@ == old(out)@ + s@,
{
    let mut i: usize = 0;
    proof {
        assert(out@ =~= old(out)@ + s@.take(0));
    }
    while i < s.len()
        invariant
            0 <= i <= s@.len(),
            out@ == old(out)@ + s@.take(i as int),
        decreases s@.len() - i,
    {
        out.push(s[i]);
        proof {
            assert(out@ =~= old(out)@ + s@.take(i + 1));
        }
        i = i + 1;
    }
    proof {
        assert(s@.take(s@.len() as int) =~= s@);
    }
}

/// Appends the decimal rendering of a count.
fn push_nat(out: &mut Vec<u8>, n: u64)
    ensures
        final(out)@ == old(out)@ + enc_nat(n as nat),
    decreases n,
{
    if n < 10 {
        out.push(48 + (n as u8));
        proof {
            assert(out@ =~= old(out)@ + enc_nat(n as nat));
        }
    } else {
        push_nat(out, n / 10);
        out.push(48 + ((n % 10) as u8));
        proof {
            assert(out@ =~= old(out)@ + enc_nat(n as nat));
        }
    }
}

/// Appends the canonical encoding of one keyword.
fn push_keyword(out: &mut Vec<u8>, k: &Keyword)
    ensures
        final(out)@ == old(out)@ + enc_keyword(k@),
{
    let lit = lit_kw_open_vec();
    push_bytes(out, lit.as_slice());
    push_bytes(out, k.word.as_slice());
    let lit = lit_kw_mid_vec();
    push_bytes(out, lit.as_slice());
    push_nat(out, k.count);
    out.push(125);
    proof {
        assert(out@ =~= old(out)@ + enc_keyword(k@));
    }
}

/// Serializes a keyword list to its canonical bytes.
pub fn encode_keywords(ks: &Vec<Keyword>) -> (r: Vec<u8>)
    ensures
        r@ == enc_keywords(kws_model(ks@)),
{
    let ghost m = kws_model(ks@);
    let mut out: Vec<u8> = Vec::new();
    out.push(91);
    if ks.len() == 0 {
        out.push(93);
        proof {
            assert(out@ =~= enc_keywords(m));
        }
        return out;
    }
    push_keyword(&mut out, &ks[0]);
    proof {
        assert(m.skip(1) =~= m.drop_first());
        assert(out@ + enc_kws_tail(m.skip(1)) =~= enc_keywords(m));
    }
    let mut i: usize = 1;
    while i < ks.len()
        invariant
            1 <= i <= ks@.len(),
            m == kws_model(ks@),
            out@ + enc_kws_tail(m.skip(i as int)) == enc_keywords(m),
        decreases ks@.len() - i,
    {
        let ghost tail = m.skip(i as int);
        proof {
            assert(tail.len() > 0);
            assert(tail.first() == m[i as int]);
            assert(tail.drop_first() =~= m.skip(i + 1));
            assert(enc_kws_tail(tail) == seq![44u8] + enc_keyword(m[i as int]) + enc_kws_tail(
                m.skip(i + 1),
            ));
        }
        let ghost before = out@;
        out.push(44);
        push_keyword(&mut out, &ks[i]);
        proof {
            assert(out@ =~= before + (seq![44u8] + enc_keyword(m[i as int])));
            assert(out@ + enc_kws_tail(m.skip(i + 1)) =~= before + enc_kws_tail(tail));
        }
        i = i + 1;
    }
    proof {
        assert(m.skip(m.len() as int) =~= Seq::<KeywordModel>::empty());
        assert(enc_kws_tail(Seq::<KeywordModel>::empty()) == seq![93u8]);
    }
    out.push(93);
    proof {
        assert(out@ =~= enc_keywords(m));
    }
    out
}

/// Serializes a journal to its canonical bytes.
pub fn encode_journal(j: &Journal) -> (r: Vec<u8>)
    ensures
        r@ == enc_journal(j@),
{
    let mut out: Vec<u8> = Vec::new();
    let lit = lit_j_open_vec();
    push_bytes(&mut out, lit.as_slice());
    push_bytes(&mut out, j.program_hash.as_slice());
    let lit = lit_j_input_vec();
    push_bytes(&mut out, lit.as_slice());
    push_bytes(&mut out, j.input_hash.as_slice());
    let lit = lit_j_output_vec();
    push_bytes(&mut out, lit.as_slice());
    push_bytes(&mut out, j.output_hash.as_slice());
    let lit = lit_j_kws_vec();
    push_bytes(&mut out, lit.as_slice());
    let kws = encode_keywords(&j.keywords);
    push_bytes(&mut out, kws.as_slice());
    out.push(125);
    proof {
        assert(out@ =~= enc_journal(j@));
    }
    out
}

fn lit_kw_open_vec() -> (r: Vec<u8>)
    ensures
        r@ == lit_kw_open(),
{
    let mut v: Vec<u8> = Vec::new();
    v.push(123);
    v.push(34);
    v.push(119);
    v.push(111);
    v.push(114);
    v.push(100);
    v.push(34);
    v.push(58);
    v.push(34);
    proof {
        assert(v@ =~= lit_kw_open());
    }
    v
}
fn lit_kw_mid_vec() -> (r: Vec<u8>)
    ensures
        r@ == lit_kw_mid(),
{
    let mut v: Vec<u8> = Vec::new();
    v.push(34);
    v.push(44);
    v.push(34);
    v.push(99);
    v.push(111);
    v.push(117);
    v.push(110);
    v.push(116);
    v.push(34);
    v.push(58);
    proof {
        assert(v@ =~= lit_kw_mid());
    }
    v
}
fn lit_j_open_vec() -> (r: Vec<u8>)
    ensures
        r@ == lit_j_open(),
{
    let mut v: Vec<u8> = Vec::new();
    v.push(123);
    v.push(34);
    v.push(112);
    v.push(114);
    v.push(111);
    v.push(103);
    v.push(114);
    v.push(97);
    v.push(109);
    v.push(72);
    v.push(97);
    v.push(115);
    v.push(104);
    v.push(34);
    v.push(58);
    v.push(34);
    proof {
        assert(v@ =~= lit_j_open());
    }
    v
}
fn lit_j_input_vec() -> (r: Vec<u8>)
    ensures
        r@ == lit_j_input(),
{
    let mut v: Vec<u8> = Vec::new();
    v.push(34);
    v.push(44);
    v.push(34);
    v.push(105);
    v.push(110);
    v.push(112);
    v.push(117);
    v.push(116);
    v.push(72);
    v.push(97);
    v.push(115);
    v.push(104);
    v.push(34);
    v.push(58);
    v.push(34);
    proof {
        assert(v@ =~= lit_j_input());
    }
    v
}
fn lit_j_output_vec() -> (r: Vec<u8>)
    ensures
        r@ == lit_j_output(),
{
    let mut v: Vec<u8> = Vec::new();
    v.push(34);
    v.push(44);
    v.push(34);
    v.push(111);
    v.push(117);
    v.push(116);
    v.push(112);
    v.push(117);
    v.push(116);
    v.push(72);
    v.push(97);
    v.push(115);
    v.push(104);
    v.push(34);
    v.push(58);
    v.push(34);
    proof {
        assert(v@ =~= lit_j_output());
    }
    v
}
fn lit_j_kws_vec() -> (r: Vec<u8>)
    ensures
        r@ == lit_j_kws(),
{
    let mut v: Vec<u8> = Vec::new();
    v.push(34);
    v.push(44);
    v.push(34);
    v.push(107);
    v.push(101);
    v.push(121);
    v.push(119);
    v.push(111);
    v.push(114);
    v.push(100);
    v.push(115);
    v.push(34);
    v.push(58);
    proof {
        assert(v@ =~= lit_j_kws());
    }
    v
}

/// Recognition of an exact literal at a position: the position after it, or
/// nothing.
pub open spec fn dec_lit(b: Seq<u8>, i: int, lit: Seq<u8>) -> Option<int> {
    if 0 <= i && i + lit.len() <= b.len() && b.subrange(i, i + lit.len()) == lit {
        Option::Some(i + lit.len())
    } else {
        Option::None
    }
}

/// The position of the closing quote of a string of plain bytes starting at
/// `i`, or nothing if a non-plain byte or the end of input comes first.
pub open spec fn scan_quote(b: Seq<u8>, i: int) -> Option<int>
    decreases b.len() - i,
    when 0 <= i <= b.len()
{
    if i == b.len() {
        Option::None
    } else if b[i] == 34 {
        Option::Some(i)
    } else if is_plain(b[i]) {
        scan_quote(b, i + 1)
    } else {
        Option::None
    }
}

/// The end of the run of decimal digits starting at `i`.
pub open spec fn scan_digits(b: Seq<u8>, i: int) -> int
    decreases b.len() - i,
    when 0 <= i <= b.len()
{
    if i == b.len() {
        i
    } else if is_digit(b[i]) {
        scan_digits(b, i + 1)
    } else {
        i
    }
}

/// The value of a digit string.
pub open spec fn digits_val(d: Seq<u8>) -> nat
    decreases d.len(),
{
    if d.len() == 0 {
        0
    } else {
        (digits_val(d.drop_last()) * 10 + (d.last() - 48)) as nat
    }
}

/// Parse of a quoted-string body ending at the next quote.
pub open spec fn dec_string(b: Seq<u8>, i: int) -> Option<(Seq<u8>, int)> {
    match scan_quote(b, i) {
        Option::None => Option::None,
        Option::Some(j) => Option::Some((b.subrange(i, j), j)),
    }
}

/// Parse of one keyword record. The word must be a token and the count a
/// positive decimal that fits in a `u64`, written without leading zeros.
pub open spec fn dec_keyword(b: Seq<u8>, i: int) -> Option<(KeywordModel, int)> {
    match dec_lit(b, i, lit_kw_open()) {
        Option::None => Option::None,
        Option::Some(i1) => match scan_quote(b, i1) {
            Option::None => Option::None,
            Option::Some(j) => {
                let w = b.subrange(i1, j);
                if !wf_word(w) {
                    Option::None
                } else {
                    match dec_lit(b, j, lit_kw_mid()) {
                        Option::None => Option::None,
                        Option::Some(i2) => {
                            let k = scan_digits(b, i2);
                            let ds = b.subrange(i2, k);
                            if ds.len() == 0 || (ds.len() > 1 && ds[0] == 48) || digits_val(ds)
                                > u64::MAX || digits_val(ds) == 0 {
                                Option::None
                            } else {
                                match dec_lit(b, k, seq![125u8]) {
                                    Option::None => Option::None,
                                    Option::Some(i3) => Option::Some(
                                        (KeywordModel { word: w, count: digits_val(ds) }, i3),
                                    ),
                                }
                            }
                        },
                    }
                }
            },
        },
    }
}

/// Parse of the keywords after the first: at most `n` more comma-led
/// entries, then the closing bracket.
pub open spec fn dec_kws_tail(b: Seq<u8>, i: int, n: nat) -> Option<(Seq<KeywordModel>, int)>
    decreases n,
{
    match dec_lit(b, i, seq![93u8]) {
        Option::Some(i1) => Option::Some((Seq::empty(), i1)),
        Option::None => if n == 0 {
            Option::None
        } else {
            match dec_lit(b, i, seq![44u8]) {
                Option::None => Option::None,
                Option::Some(i1) => match dec_keyword(b, i1) {
                    Option::None => Option::None,
                    Option::Some((k, i2)) => match dec_kws_tail(b, i2, (n - 1) as nat) {
                        Option::None => Option::None,
                        Option::Some((ks, i3)) => Option::Some((seq![k] + ks, i3)),
                    },
                },
            }
        },
    }
}

/// Parse of a keyword list of at most five entries.
pub open spec fn dec_keywords(b: Seq<u8>, i: int) -> Option<(Seq<KeywordModel>, int)> {
    match dec_lit(b, i, seq![91u8]) {
        Option::None => Option::None,
        Option::Some(i1) => match dec_lit(b, i1, seq![93u8]) {
            Option::Some(i2) => Option::Some((Seq::empty(), i2)),
            Option::None => match dec_keyword(b, i1) {
                Option::None => Option::None,
                Option::Some((k, i2)) => match dec_kws_tail(b, i2, 4) {
                    Option::None => Option::None,
                    Option::Some((ks, i3)) => Option::Some((seq![k] + ks, i3)),
                },
            },
        },
    }
}

/// Parse of a whole canonical journal: the fixed field order, nothing
/// before, between, or after.
pub open spec fn dec_journal(b: Seq<u8>) -> Option<JournalModel> {
    match dec_lit(b, 0, lit_j_open()) {
        Option::None => Option::None,
        Option::Some(i1) => match dec_string(b, i1) {
            Option::None => Option::None,
            Option::Some((ph, j1)) => match dec_lit(b, j1, lit_j_input()) {
                Option::None => Option::None,
                Option::Some(i2) => match dec_string(b, i2) {
                    Option::None => Option::None,
                    Option::Some((ih, j2)) => match dec_lit(b, j2, lit_j_output()) {
                        Option::None => Option::None,
                        Option::Some(i3) => match dec_string(b, i3) {
                            Option::None => Option::None,
                            Option::Some((oh, j3)) => match dec_lit(b, j3, lit_j_kws()) {
                                Option::None => Option::None,
                                Option::Some(i4) => match dec_keywords(b, i4) {
                                    Option::None => Option::None,
                                    Option::Some((ks, i5)) => match dec_lit(b, i5, seq![125u8]) {
                                        Option::None => Option::None,
                                        Option::Some(i6) => if i6 == b.len() {
                                            Option::Some(
                                                JournalModel {
                                                    program_hash: ph,
                                                    input_hash: ih,
                                                    output_hash: oh,
                                                    keywords: ks,
                                                },
                                            )
                                        } else {
                                            Option::None
                                        },
                                    },
                                },
                            },
                        },
                    },
                },
            },
        },
    }
}

/// Copies the byte range `[lo, hi)`.
fn copy_range(b: &[u8], lo: usize, hi: usize) -> (r: Vec<u8>)
    requires
        lo <= hi <= b@.len(),
    ensures
        r@ == b@.subrange(lo as int, hi as int),
{
    let mut r: Vec<u8> = Vec::new();
    let mut m: usize = lo;
    while m < hi
        invariant
            lo <= m <= hi <= b@.len(),
            r@ == b@.subrange(lo as int, m as int),
        decreases hi - m,
    {
        r.push(b[m]);
        proof {
            assert(r@ =~= b@.subrange(lo as int, m + 1));
        }
        m = m + 1;
    }
    r
}

/// Matches an exact literal at a position.
fn match_lit(b: &[u8], i: usize, lit: &[u8]) -> (r: Option<usize>)
    requires
        i <= b@.len(),
    ensures
        match r {
            Some(k) => dec_lit(b@, i as int, lit@) == Option::Some(k as int) && i <= k <= b@.len(),
            None => dec_lit(b@, i as int, lit@) is None,
        },
{
    if b.len() - i < lit.len() {
        return None;
    }
    let seg = copy_range(b, i, i + lit.len());
    if bytes_eq(seg.as_slice(), lit) {
        Some(i + lit.len())
    } else {
        None
    }
}

/// Finds the closing quote of a plain string.
fn scan_quote_exec(b: &[u8], i: usize) -> (r: Option<usize>)
    requires
        i <= b@.len(),
    ensures
        match r {
            Some(j) => scan_quote(b@, i as int) == Option::Some(j as int) && i <= j < b@.len(),
            None => scan_quote(b@, i as int) is None,
        },
{
    let mut j: usize = i;
    while j < b.len()
        invariant
            i <= j <= b@.len(),
            scan_quote(b@, i as int) == scan_quote(b@, j as int),
        decreases b@.len() - j,
    {
        if b[j] == 34 {
            return Some(j);
        }
        if !(0x20 <= b[j] && b[j] <= 0x7e && b[j] != 0x5c) {
            return None;
        }
        j = j + 1;
    }
    None
}

/// Finds the end of a digit run.
fn scan_digits_exec(b: &[u8], i: usize) -> (r: usize)
    requires
        i <= b@.len(),
    ensures
        r as int == scan_digits(b@, i as int),
        i <= r <= b@.len(),
{
    let mut j: usize = i;
    while j < b.len()
        invariant
            i <= j <= b@.len(),
            scan_digits(b@, i as int) == scan_digits(b@, j as int),
        decreases b@.len() - j,
    {
        if !(48 <= b[j] && b[j] <= 57) {
            return j;
        }
        j = j + 1;
    }
    j
}

/// Every byte of a scanned digit run is a digit.
proof fn lemma_scan_digits(b: Seq<u8>, i: int)
    requires
        0 <= i <= b.len(),
    ensures
        i <= scan_digits(b, i) <= b.len(),
        forall|m: int| i <= m < scan_digits(b, i) ==> is_digit(b[m]),
    decreases b.len() - i,
{
    if i < b.len() && is_digit(b[i]) {
        lemma_scan_digits(b, i + 1);
    }
}

/// A digit string's value never shrinks as it grows to the right.
proof fn lemma_digits_val_prefix(d: Seq<u8>, k: int)
    requires
        0 <= k <= d.len(),
        forall|m: int| 0 <= m < d.len() ==> is_digit(d[m]),
    ensures
        digits_val(d.take(k)) <= digits_val(d),
    decreases d.len() - k,
{
    if k < d.len() {
        lemma_digits_val_prefix(d, k + 1);
        assert(d.take(k + 1).drop_last() =~= d.take(k));
        assert(d.take(k + 1).last() == d[k]);
        assert(digits_val(d.take(k)) <= digits_val(d.take(k + 1)));
    } else {
        assert(d.take(k) =~= d);
    }
}

/// Parses the digit run `[i, k)` as a `u64`, or reports that its value is
/// too large.
fn parse_count(b: &[u8], i: usize, k: usize) -> (r: Option<u64>)
    requires
        i <= k <= b@.len(),
        k as int == scan_digits(b@, i as int),
    ensures
        match r {
            Some(v) => v as nat == digits_val(b@.subrange(i as int, k as int)),
            None => digits_val(b@.subrange(i as int, k as int)) > u64::MAX,
        },
{
    proof {
        lemma_scan_digits(b@, i as int);
    }
    let ghost ds = b@.subrange(i as int, k as int);
    let mut v: u64 = 0;
    let mut j: usize = i;
    proof {
        assert(ds.take(0) =~= b@.subrange(i as int, i as int));
        assert(digits_val(ds.take(0)) == 0);
    }
    while j < k
        invariant
            i <= j <= k <= b@.len(),
            k as int == scan_digits(b@, i as int),
            ds == b@.subrange(i as int, k as int),
            v as nat == digits_val(ds.take(j - i)),
        decreases k - j,
    {
        proof {
            lemma_scan_digits(b@, i as int);
            assert(is_digit(b@[j as int]));
            assert(ds.take(j - i + 1).drop_last() =~= ds.take(j - i));
            assert(ds.take(j - i + 1).last() == b@[j as int]);
        }
        let d = b[j] - 48;
        if v > u64::MAX / 10 || (v == u64::MAX / 10 && d as u64 > u64::MAX % 10) {
            proof {
                assert(digits_val(ds.take(j - i + 1)) > u64::MAX);
                assert(forall|m: int| 0 <= m < ds.len() ==> is_digit(#[trigger] ds[m]));
                lemma_digits_val_prefix(ds, j - i + 1);
            }
            return None;
        }
        v = v * 10 + (d as u64);
        j = j + 1;
    }
    proof {
        assert(ds.take(k - i) =~= ds);
    }
    Some(v)
}

/// Checks that a byte string is a token: non-empty, lowercase letters only.
fn is_word(s: &[u8]) -> (r: bool)
    ensures
        r == wf_word(s@),
{
    if s.len() == 0 {
        return false;
    }
    let mut m: usize = 0;
    while m < s.len()
        invariant
            0 <= m <= s@.len(),
            forall|p: int| 0 <= p < m ==> crate::is_letter(#[trigger] s@[p]),
        decreases s@.len() - m,
    {
        if !(97 <= s[m] && s[m] <= 122) {
            return false;
        }
        m = m + 1;
    }
    true
}

/// Parses one keyword record.
fn decode_keyword(b: &[u8], i: usize) -> (r: Option<(Keyword, usize)>)
    requires
        i <= b@.len(),
    ensures
        match r {
            Some(p) => dec_keyword(b@, i as int) == Option::Some((p.0@, p.1 as int)) && i <= p.1
                <= b@.len(),
            None => dec_keyword(b@, i as int) is None,
        },
{
    let lit = lit_kw_open_vec();
    let i1 = match match_lit(b, i, lit.as_slice()) {
        Some(x) => x,
        None => {
            return None;
        },
    };
    let j = match scan_quote_exec(b, i1) {
        Some(x) => x,
        None => {
            return None;
        },
    };
    let w = copy_range(b, i1, j);
    if !is_word(w.as_slice()) {
        return None;
    }
    let lit = lit_kw_mid_vec();
    let i2 = match match_lit(b, j, lit.as_slice()) {
        Some(x) => x,
        None => {
            return None;
        },
    };
    let k = scan_digits_exec(b, i2);
    let ghost ds = b@.subrange(i2 as int, k as int);
    if k == i2 {
        proof {
            assert(ds.len() == 0);
        }
        return None;
    }
    if k > i2 + 1 && b[i2] == 48 {
        proof {
            assert(ds[0] == 48 && ds.len() > 1);
        }
        return None;
    }
    let v = match parse_count(b, i2, k) {
        Some(x) => x,
        None => {
            return None;
        },
    };
    if v == 0 {
        return None;
    }
    proof {
        assert(!(ds.len() == 0 || (ds.len() > 1 && ds[0] == 48) || digits_val(ds) > u64::MAX
            || digits_val(ds) == 0));
    }
    let mut close: Vec<u8> = Vec::new();
    close.push(125);
    proof {
        assert(close@ =~= seq![125u8]);
    }
    let i3 = match match_lit(b, k, close.as_slice()) {
        Some(x) => x,
        None => {
            return None;
        },
    };
    Some((Keyword { word: w, count: v }, i3))
}

/// Parses the keywords after the first, at most `n` more.
fn decode_kws_tail(b: &[u8], i: usize, n: u64) -> (r: Option<(Vec<Keyword>, usize)>)
    requires
        i <= b@.len(),
    ensures
        match r {
            Some(p) => dec_kws_tail(b@, i as int, n as nat) == Option::Some(
                (kws_model(p.0@), p.1 as int),
            ) && i <= p.1 <= b@.len(),
            None => dec_kws_tail(b@, i as int, n as nat) is None,
        },
    decreases n,
{
    let mut bracket: Vec<u8> = Vec::new();
    bracket.push(93);
    proof {
        assert(bracket@ =~= seq![93u8]);
    }
    match match_lit(b, i, bracket.as_slice()) {
        Some(i1) => {
            let empty: Vec<Keyword> = Vec::new();
            proof {
                assert(kws_model(empty@) =~= Seq::<KeywordModel>::empty());
            }
            return Some((empty, i1));
        },
        None => {},
    }
    if n == 0 {
        return None;
    }
    let mut comma: Vec<u8> = Vec::new();
    comma.push(44);
    proof {
        assert(comma@ =~= seq![44u8]);
    }
    let i1 = match match_lit(b, i, comma.as_slice()) {
        Some(x) => x,
        None => {
            return None;
        },
    };
    let (k, i2) = match decode_keyword(b, i1) {
        Some(x) => x,
        None => {
            return None;
        },
    };
    let (mut ks, i3) = match decode_kws_tail(b, i2, n - 1) {
        Some(x) => x,
        None => {
            return None;
        },
    };
    let ghost tail_model = kws_model(ks@);
    ks.insert(0, k);
    proof {
        assert(kws_model(ks@) =~= seq![ks@[0]@] + tail_model);
    }
    Some((ks, i3))
}

/// Parses a keyword list of at most five entries.
fn decode_keywords(b: &[u8], i: usize) -> (r: Option<(Vec<Keyword>, usize)>)
    requires
        i <= b@.len(),
    ensures
        match r {
            Some(p) => dec_keywords(b@, i as int) == Option::Some((kws_model(p.0@), p.1 as int))
                && i <= p.1 <= b@.len(),
            None => dec_keywords(b@, i as int) is None,
        },
{
    let mut bracket: Vec<u8> = Vec::new();
    bracket.push(91);
    proof {
        assert(bracket@ =~= seq![91u8]);
    }
    let i1 = match match_lit(b, i, bracket.as_slice()) {
        Some(x) => x,
        None => {
            return None;
        },
    };
    let mut close: Vec<u8> = Vec::new();
    close.push(93);
    proof {
        assert(close@ =~= seq![93u8]);
    }
    match match_lit(b, i1, close.as_slice()) {
        Some(i2) => {
            let empty: Vec<Keyword> = Vec::new();
            proof {
                assert(kws_model(empty@) =~= Seq::<KeywordModel>::empty());
            }
            return Some((empty, i2));
        },
        None => {},
    }
    let (k, i2) = match decode_keyword(b, i1) {
        Some(x) => x,
        None => {
            return None;
        },
    };
    let (mut ks, i3) = match decode_kws_tail(b, i2, 4) {
        Some(x) => x,
        None => {
            return None;
        },
    };
    let ghost tail_model = kws_model(ks@);
    ks.insert(0, k);
    proof {
        assert(kws_model(ks@) =~= seq![ks@[0]@] + tail_model);
    }
    Some((ks, i3))
}

/// Parses a string body up to the next quote.
fn decode_string(b: &[u8], i: usize) -> (r: Option<(Vec<u8>, usize)>)
    requires
        i <= b@.len(),
    ensures
        match r {
            Some(p) => dec_string(b@, i as int) == Option::Some((p.0@, p.1 as int)) && i <= p.1
                <= b@.len(),
            None => dec_string(b@, i as int) is None,
        },
{
    let j = match scan_quote_exec(b, i) {
        Some(x) => x,
        None => {
            return None;
        },
    };
    let s = copy_range(b, i, j);
    Some((s, j))
}

/// Decodes a canonical journal from bytes: exactly the inverse of
/// `encode_journal` on its canonical image, and `JournalDecodeError` on any
/// other input.
pub fn decode_journal(b: &[u8]) -> (r: Result<Journal, Error>)
    ensures
        match r {
            Ok(j) => dec_journal(b@) == Option::Some(j@),
            Err(e) => e == Error::JournalDecodeError && dec_journal(b@) is None,
        },
{
    let lit = lit_j_open_vec();
    let i1 = match match_lit(b, 0, lit.as_slice()) {
        Some(x) => x,
        None => {
            return Err(Error::JournalDecodeError);
        },
    };
    let (ph, j1) = match decode_string(b, i1) {
        Some(x) => x,
        None => {
            return Err(Error::JournalDecodeError);
        },
    };
    let lit = lit_j_input_vec();
    let i2 = match match_lit(b, j1, lit.as_slice()) {
        Some(x) => x,
        None => {
            return Err(Error::JournalDecodeError);
        },
    };
    let (ih, j2) = match decode_string(b, i2) {
        Some(x) => x,
        None => {
            return Err(Error::JournalDecodeError);
        },
    };
    let lit = lit_j_output_vec();
    let i3 = match match_lit(b, j2, lit.as_slice()) {
        Some(x) => x,
        None => {
            return Err(Error::JournalDecodeError);
        },
    };
    let (oh, j3) = match decode_string(b, i3) {
        Some(x) => x,
        None => {
            return Err(Error::JournalDecodeError);
        },
    };
    let lit = lit_j_kws_vec();
    let i4 = match match_lit(b, j3, lit.as_slice()) {
        Some(x) => x,
        None => {
            return Err(Error::JournalDecodeError);
        },
    };
    let (ks, i5) = match decode_keywords(b, i4) {
        Some(x) => x,
        None => {
            return Err(Error::JournalDecodeError);
        },
    };
    let mut close: Vec<u8> = Vec::new();
    close.push(125);
    proof {
        assert(close@ =~= seq![125u8]);
    }
    let i6 = match match_lit(b, i5, close.as_slice()) {
        Some(x) => x,
        None => {
            return Err(Error::JournalDecodeError);
        },
    };
    if i6 != b.len() {
        return Err(Error::JournalDecodeError);
    }
    Ok(Journal { program_hash: ph, input_hash: ih, output_hash: oh, keywords: ks })
}


/// A literal that stands in the buffer is recognized at its position.
proof fn lemma_dec_lit_at(b: Seq<u8>, x: int, lit: Seq<u8>)
    requires
        0 <= x,
        x + lit.len() <= b.len(),
        b.subrange(x, x + lit.len()) == lit,
    ensures
        dec_lit(b, x, lit) == Option::Some(x + lit.len()),
{
}

/// A middle piece of a concatenation is its own subrange.
proof fn lemma_subrange_mid(x: Seq<u8>, s: Seq<u8>, y: Seq<u8>, a: int, c: int)
    requires
        0 <= a <= c <= s.len(),
    ensures
        (x + s + y).subrange(x.len() + a, x.len() + c) =~= s.subrange(a, c),
{
}

/// The quote scan finds the first quote after a run of plain bytes.
proof fn lemma_scan_quote_at(b: Seq<u8>, i: int, j: int)
    requires
        0 <= i <= j < b.len(),
        forall|m: int| i <= m < j ==> is_plain(#[trigger] b[m]),
        b[j] == 34,
    ensures
        scan_quote(b, i) == Option::Some(j),
    decreases j - i,
{
    if i < j {
        lemma_scan_quote_at(b, i + 1, j);
    }
}

/// The digit scan stops exactly at the first non-digit.
proof fn lemma_scan_digits_at(b: Seq<u8>, i: int, j: int)
    requires
        0 <= i <= j <= b.len(),
        forall|m: int| i <= m < j ==> is_digit(#[trigger] b[m]),
        j == b.len() || !is_digit(b[j]),
    ensures
        scan_digits(b, i) == j,
    decreases j - i,
{
    if i < j {
        lemma_scan_digits_at(b, i + 1, j);
    }
}

/// The decimal rendering of `n` is a canonical digit string worth `n`.
proof fn lemma_enc_nat_props(n: nat)
    ensures
        enc_nat(n).len() >= 1,
        forall|m: int| 0 <= m < enc_nat(n).len() ==> is_digit(#[trigger] enc_nat(n)[m]),
        digits_val(enc_nat(n)) == n,
        enc_nat(n).len() > 1 ==> enc_nat(n)[0] != 48,
        n >= 10 ==> enc_nat(n).len() >= 2,
    decreases n,
{
    if n < 10 {
        let e = enc_nat(n);
        assert(e =~= seq![(48 + n) as u8]);
        assert(e.drop_last() =~= Seq::<u8>::empty());
        assert(digits_val(e.drop_last()) == 0);
        assert(e.last() == (48 + n) as u8);
        assert(digits_val(e) == ((48 + n) as u8 - 48) as nat);
        assert(digits_val(e) == n);
    } else {
        lemma_enc_nat_props(n / 10);
        let d = enc_nat(n);
        assert(d == enc_nat(n / 10).push((48 + n % 10) as u8));
        assert(d.drop_last() =~= enc_nat(n / 10));
        assert(d.last() == (48 + n % 10) as u8);
        assert(digits_val(d) == digits_val(enc_nat(n / 10)) * 10 + (n % 10));
        assert((n / 10) * 10 + n % 10 == n) by {
            vstd::arithmetic::div_mod::lemma_fundamental_div_mod(n as int, 10);
        }
        assert(d[0] == enc_nat(n / 10)[0]);
        assert(d[0] != 48) by {
            vstd::arithmetic::div_mod::lemma_div_is_ordered(10, n as int, 10);
            assert(n / 10 >= 1);
            if enc_nat(n / 10).len() == 1 {
                assert(n / 10 < 10);
                assert(enc_nat(n / 10) == seq![(48 + n / 10) as u8]);
                assert(enc_nat(n / 10)[0] == (48 + n / 10) as u8);
                assert(48 + n / 10 <= 57);
            }
        }
    }
}

/// A keyword that stands canonically encoded in the buffer parses back to
/// itself.
proof fn lemma_dec_keyword_at(pre: Seq<u8>, k: KeywordModel, rest: Seq<u8>)
    requires
        wf_keyword(k),
    ensures
        dec_keyword(pre + enc_keyword(k) + rest, pre.len() as int) == Option::Some(
            (k, pre.len() + enc_keyword(k).len() as int),
        ),
{
    let b = pre + enc_keyword(k) + rest;
    let e = enc_keyword(k);
    let x = pre.len() as int;
    let w = k.word;
    lemma_enc_nat_props(k.count);
    let d = enc_nat(k.count);
    let wl = w.len() as int;
    let dl = d.len() as int;
    // the layout of one encoded keyword
    assert(e.len() == 9 + wl + 10 + dl + 1);
    lemma_subrange_mid(pre, e, rest, 0, 9);
    assert(e.subrange(0, 9) =~= lit_kw_open());
    lemma_dec_lit_at(b, x, lit_kw_open());
    let i1 = x + 9;
    // the word runs to the quote that opens the count literal
    assert forall|m: int| i1 <= m < i1 + wl implies is_plain(#[trigger] b[m]) by {
        assert(b[m] == e[m - x]);
        assert(e[9 + (m - i1)] == w[m - i1]);
        assert(crate::is_letter(w[m - i1]));
    }
    assert(b[i1 + wl] == e[9 + wl]);
    assert(e[9 + wl] == lit_kw_mid()[0]);
    lemma_scan_quote_at(b, i1, i1 + wl);
    let j = i1 + wl;
    lemma_subrange_mid(pre, e, rest, 9, 9 + wl);
    assert(e.subrange(9, 9 + wl) =~= w);
    assert(b.subrange(i1, j) == w);
    lemma_subrange_mid(pre, e, rest, 9 + wl, 9 + wl + 10);
    assert(e.subrange(9 + wl, 9 + wl + 10) =~= lit_kw_mid());
    lemma_dec_lit_at(b, j, lit_kw_mid());
    let i2 = j + 10;
    // the digits run to the closing brace
    assert forall|m: int| i2 <= m < i2 + dl implies is_digit(#[trigger] b[m]) by {
        assert(b[m] == e[m - x]);
        assert(e[(9 + wl + 10) + (m - i2)] == d[m - i2]);
    }
    let k0 = i2 + dl;
    assert(b[k0] == e[9 + wl + 10 + dl]);
    assert(e[9 + wl + 10 + dl] == 125);
    lemma_scan_digits_at(b, i2, k0);
    lemma_subrange_mid(pre, e, rest, 9 + wl + 10, 9 + wl + 10 + dl);
    assert(e.subrange(9 + wl + 10, 9 + wl + 10 + dl) =~= d);
    assert(b.subrange(i2, k0) == d);
    lemma_subrange_mid(pre, e, rest, 9 + wl + 10 + dl, e.len() as int);
    assert(e.subrange(9 + wl + 10 + dl, e.len() as int) =~= seq![125u8]);
    lemma_dec_lit_at(b, k0, seq![125u8]);
    assert(dec_keyword(b, x) == Option::Some((k, k0 + 1)));
}

/// The keywords after the first parse back to themselves.
#[verifier::rlimit(100)]
#[verifier::spinoff_prover]
proof fn lemma_dec_kws_tail_at(pre: Seq<u8>, ks: Seq<KeywordModel>, rest: Seq<u8>, n: nat)
    requires
        ks.len() <= n,
        forall|p: int| 0 <= p < ks.len() ==> wf_keyword(#[trigger] ks[p]),
    ensures
        dec_kws_tail(pre + enc_kws_tail(ks) + rest, pre.len() as int, n) == Option::Some(
            (ks, pre.len() + enc_kws_tail(ks).len() as int),
        ),
    decreases ks.len(),
{
    let b = pre + enc_kws_tail(ks) + rest;
    let x = pre.len() as int;
    if ks.len() == 0 {
        assert(enc_kws_tail(ks) == seq![93u8]);
        lemma_subrange_mid(pre, enc_kws_tail(ks), rest, 0, 1);
        assert(b.subrange(x, x + 1) =~= seq![93u8]);
        lemma_dec_lit_at(b, x, seq![93u8]);
    } else {
        let k = ks.first();
        let e = enc_keyword(k);
        let tail = enc_kws_tail(ks.drop_first());
        assert(enc_kws_tail(ks) == seq![44u8] + e + tail);
        // no closing bracket here: the next byte is the comma
        assert(b[x] == 44) by {
            assert(b[x] == enc_kws_tail(ks)[0]);
        }
        assert(dec_lit(b, x, seq![93u8]) is None) by {
            if dec_lit(b, x, seq![93u8]) is Some {
                assert(b.subrange(x, x + 1)[0] == b[x]);
            }
        }
        assert(dec_lit(b, x, seq![44u8]) == Option::Some(x + 1)) by {
            assert(b.subrange(x, x + 1) =~= seq![44u8]);
        }
        assert(b =~= (pre + seq![44u8]) + e + (tail + rest));
        lemma_dec_keyword_at(pre + seq![44u8], k, tail + rest);
        let i2 = x + 1 + e.len() as int;
        assert(b =~= (pre + seq![44u8] + e) + tail + rest);
        assert((pre + seq![44u8] + e).len() == i2);
        lemma_dec_kws_tail_at(pre + seq![44u8] + e, ks.drop_first(), rest, (n - 1) as nat);
        assert(dec_kws_tail(b, i2, (n - 1) as nat) == Option::Some(
            (ks.drop_first(), i2 + tail.len() as int),
        ));
        assert(seq![k] + ks.drop_first() =~= ks);
        assert(dec_kws_tail(b, x, n) == Option::Some((ks, x + enc_kws_tail(ks).len() as int)));
    }
}

/// A canonically encoded keyword list parses back to itself.
#[verifier::rlimit(100)]
#[verifier::spinoff_prover]
proof fn lemma_dec_keywords_at(pre: Seq<u8>, ks: Seq<KeywordModel>, rest: Seq<u8>)
    requires
        ks.len() <= 5,
        forall|p: int| 0 <= p < ks.len() ==> wf_keyword(#[trigger] ks[p]),
    ensures
        dec_keywords(pre + enc_keywords(ks) + rest, pre.len() as int) == Option::Some(
            (ks, pre.len() + enc_keywords(ks).len() as int),
        ),
{
    let b = pre + enc_keywords(ks) + rest;
    let x = pre.len() as int;
    if ks.len() == 0 {
        assert(enc_keywords(ks) == seq![91u8, 93u8]);
        assert(b.subrange(x, x + 1) =~= seq![91u8]);
        lemma_dec_lit_at(b, x, seq![91u8]);
        assert(b.subrange(x + 1, x + 2) =~= seq![93u8]);
        lemma_dec_lit_at(b, x + 1, seq![93u8]);
    } else {
        let k = ks.first();
        let e = enc_keyword(k);
        let tail = enc_kws_tail(ks.drop_first());
        assert(enc_keywords(ks) == seq![91u8] + e + tail);
        assert(b.subrange(x, x + 1) =~= seq![91u8]);
        lemma_dec_lit_at(b, x, seq![91u8]);
        // not an empty list: the next byte opens a keyword record
        assert(b[x + 1] == 123) by {
            assert(b[x + 1] == enc_keywords(ks)[1]);
            assert(enc_keywords(ks)[1] == e[0]);
            assert(e[0] == lit_kw_open()[0]);
        }
        assert(dec_lit(b, x + 1, seq![93u8]) is None) by {
            if dec_lit(b, x + 1, seq![93u8]) is Some {
                assert(b.subrange(x + 1, x + 2)[0] == b[x + 1]);
            }
        }
        assert(b =~= (pre + seq![91u8]) + e + (tail + rest));
        lemma_dec_keyword_at(pre + seq![91u8], k, tail + rest);
        let i2 = x + 1 + e.len() as int;
        assert(b =~= (pre + seq![91u8] + e) + tail + rest);
        assert((pre + seq![91u8] + e).len() == i2);
        lemma_dec_kws_tail_at(pre + seq![91u8] + e, ks.drop_first(), rest, 4);
        assert(seq![k] + ks.drop_first() =~= ks);
        assert(dec_keywords(b, x) == Option::Some((ks, x + enc_keywords(ks).len() as int)));
    }
}

/// A canonically encoded string parses back to itself when a quote follows.
proof fn lemma_dec_string_at(b: Seq<u8>, i: int, s: Seq<u8>)
    requires
        0 <= i,
        i + s.len() < b.len(),
        b.subrange(i, i + s.len() as int) == s,
        wf_text(s),
        b[i + s.len() as int] == 34,
    ensures
        dec_string(b, i) == Option::Some((s, i + s.len() as int)),
{
    assert forall|m: int| i <= m < i + s.len() as int implies is_plain(#[trigger] b[m]) by {
        assert(b[m] == b.subrange(i, i + s.len() as int)[m - i]);
    }
    lemma_scan_quote_at(b, i, i + s.len() as int);
}

/// The round trip: every well-formed journal's canonical bytes decode back
/// to exactly that journal. Together with `decode_journal`'s contract, the
/// codec loses nothing and accepts nothing but its own images.
#[verifier::rlimit(100)]
#[verifier::spinoff_prover]
pub proof fn lemma_decode_encode(j: JournalModel)
    requires
        wf_journal(j),
    ensures
        dec_journal(enc_journal(j)) == Option::Some(j),
{
    let b = enc_journal(j);
    let ph = j.program_hash;
    let ih = j.input_hash;
    let oh = j.output_hash;
    let ek = enc_keywords(j.keywords);
    let l0 = lit_j_open().len() as int;
    // the layout of the whole record
    assert(b.len() == l0 + ph.len() + lit_j_input().len() + ih.len() + lit_j_output().len()
        + oh.len() + lit_j_kws().len() + ek.len() + 1);
    assert(b.subrange(0, l0) =~= lit_j_open());
    lemma_dec_lit_at(b, 0, lit_j_open());
    let i1 = l0;
    assert(b.subrange(i1, i1 + ph.len() as int) =~= ph);
    assert(b[i1 + ph.len() as int] == lit_j_input()[0]);
    lemma_dec_string_at(b, i1, ph);
    let j1 = i1 + ph.len() as int;
    assert(b.subrange(j1, j1 + lit_j_input().len() as int) =~= lit_j_input());
    lemma_dec_lit_at(b, j1, lit_j_input());
    let i2 = j1 + lit_j_input().len() as int;
    assert(b.subrange(i2, i2 + ih.len() as int) =~= ih);
    assert(b[i2 + ih.len() as int] == lit_j_output()[0]);
    lemma_dec_string_at(b, i2, ih);
    let j2 = i2 + ih.len() as int;
    assert(b.subrange(j2, j2 + lit_j_output().len() as int) =~= lit_j_output());
    lemma_dec_lit_at(b, j2, lit_j_output());
    let i3 = j2 + lit_j_output().len() as int;
    assert(b.subrange(i3, i3 + oh.len() as int) =~= oh);
    assert(b[i3 + oh.len() as int] == lit_j_kws()[0]);
    lemma_dec_string_at(b, i3, oh);
    let j3 = i3 + oh.len() as int;
    assert(b.subrange(j3, j3 + lit_j_kws().len() as int) =~= lit_j_kws());
    lemma_dec_lit_at(b, j3, lit_j_kws());
    let i4 = j3 + lit_j_kws().len() as int;
    let pre = b.subrange(0, i4);
    assert(b =~= pre + ek + seq![125u8]);
    lemma_dec_keywords_at(pre, j.keywords, seq![125u8]);
    let i5 = i4 + ek.len() as int;
    assert(b.subrange(i5, i5 + 1) =~= seq![125u8]);
    lemma_dec_lit_at(b, i5, seq![125u8]);
    assert(dec_journal(b) == Option::Some(j)) by {
        assert(JournalModel {
            program_hash: ph,
            input_hash: ih,
            output_hash: oh,
            keywords: j.keywords,
        } =~= j);
    }
}


/// A successful quote scan covers plain bytes only.
proof fn lemma_scan_quote_plain(b: Seq<u8>, i: int)
    requires
        0 <= i <= b.len(),
    ensures
        match scan_quote(b, i) {
            Option::Some(j) => i <= j < b.len() && wf_text(b.subrange(i, j)),
            Option::None => true,
        },
    decreases b.len() - i,
{
    if i < b.len() && b[i] != 34 && is_plain(b[i]) {
        lemma_scan_quote_plain(b, i + 1);
        match scan_quote(b, i + 1) {
            Option::Some(j) => {
                assert forall|m: int| 0 <= m < j - i implies is_plain(
                    #[trigger] b.subrange(i, j)[m],
                ) by {
                    if m == 0 {
                        assert(b.subrange(i, j)[0] == b[i]);
                    } else {
                        assert(b.subrange(i, j)[m] == b.subrange(i + 1, j)[m - 1]);
                    }
                }
            },
            Option::None => {},
        }
    }
}

/// A parsed keyword is well-formed.
proof fn lemma_dec_keyword_wf(b: Seq<u8>, i: int)
    ensures
        match dec_keyword(b, i) {
            Option::Some(p) => wf_keyword(p.0),
            Option::None => true,
        },
{
    match dec_lit(b, i, lit_kw_open()) {
        Option::None => {},
        Option::Some(i1) => match scan_quote(b, i1) {
            Option::None => {},
            Option::Some(j) => {
                let w = b.subrange(i1, j);
                if wf_word(w) {
                    match dec_lit(b, j, lit_kw_mid()) {
                        Option::None => {},
                        Option::Some(i2) => {
                            let k = scan_digits(b, i2);
                            let ds = b.subrange(i2, k);
                            if !(ds.len() == 0 || (ds.len() > 1 && ds[0] == 48) || digits_val(ds)
                                > u64::MAX || digits_val(ds) == 0) {
                                match dec_lit(b, k, seq![125u8]) {
                                    Option::None => {},
                                    Option::Some(i3) => {
                                        assert(dec_keyword(b, i) == Option::Some(
                                            (KeywordModel { word: w, count: digits_val(ds) }, i3),
                                        ));
                                    },
                                }
                            }
                        },
                    }
                }
            },
        },
    }
}

/// A parsed keyword tail has at most `n` entries, all well-formed.
proof fn lemma_dec_kws_tail_wf(b: Seq<u8>, i: int, n: nat)
    ensures
        match dec_kws_tail(b, i, n) {
            Option::Some(p) => p.0.len() <= n && forall|q: int|
                0 <= q < p.0.len() ==> wf_keyword(#[trigger] p.0[q]),
            Option::None => true,
        },
    decreases n,
{
    match dec_lit(b, i, seq![93u8]) {
        Option::Some(_) => {},
        Option::None => {
            if n > 0 {
                match dec_lit(b, i, seq![44u8]) {
                    Option::None => {},
                    Option::Some(i1) => {
                        lemma_dec_keyword_wf(b, i1);
                        match dec_keyword(b, i1) {
                            Option::None => {},
                            Option::Some((k, i2)) => {
                                lemma_dec_kws_tail_wf(b, i2, (n - 1) as nat);
                            },
                        }
                    },
                }
            }
        },
    }
}

/// A parsed keyword list is well-formed.
proof fn lemma_dec_keywords_wf(b: Seq<u8>, i: int)
    ensures
        match dec_keywords(b, i) {
            Option::Some(p) => wf_keywords(p.0),
            Option::None => true,
        },
{
    match dec_lit(b, i, seq![91u8]) {
        Option::None => {},
        Option::Some(i1) => {
            match dec_lit(b, i1, seq![93u8]) {
                Option::Some(_) => {},
                Option::None => {
                    lemma_dec_keyword_wf(b, i1);
                    match dec_keyword(b, i1) {
                        Option::None => {},
                        Option::Some((k, i2)) => {
                            lemma_dec_kws_tail_wf(b, i2, 4);
                        },
                    }
                },
            }
        },
    }
}

/// Whatever decodes is a well-formed journal: only canonical records are
/// accepted.
pub proof fn lemma_dec_journal_wf(b: Seq<u8>)
    ensures
        match dec_journal(b) {
            Option::Some(j) => wf_journal(j),
            Option::None => true,
        },
{
    match dec_lit(b, 0, lit_j_open()) {
        Option::None => {},
        Option::Some(i1) => {
            lemma_scan_quote_plain(b, i1);
            match dec_string(b, i1) {
                Option::None => {},
                Option::Some((ph, j1)) => match dec_lit(b, j1, lit_j_input()) {
                    Option::None => {},
                    Option::Some(i2) => {
                        lemma_scan_quote_plain(b, i2);
                        match dec_string(b, i2) {
                            Option::None => {},
                            Option::Some((ih, j2)) => match dec_lit(b, j2, lit_j_output()) {
                                Option::None => {},
                                Option::Some(i3) => {
                                    lemma_scan_quote_plain(b, i3);
                                    match dec_string(b, i3) {
                                        Option::None => {},
                                        Option::Some((oh, j3)) => {
                                            lemma_dec_keywords_wf(b, j3 + lit_j_kws().len());
                                        },
                                    }
                                },
                            },
                        }
                    },
                },
            }
        },
    }
}


} // verus!
