//! The normalizer: UTF-8 validation, ASCII lowercase folding, tokenization
//! into maximal runs of letters, and removal of the fixed embedded stopwords.

use vstd::prelude::*;
use crate::fold_byte;
use crate::fold_byte_exec;
use crate::is_letter;
use crate::bytes_eq;
use crate::journal::Error;

verus! {

/// True for UTF-8 continuation bytes.
pub open spec fn is_cont(b: u8) -> bool {
    0x80 <= b && b <= 0xbf
}

/// Validity of a byte sequence as UTF-8 text: every scalar value is encoded
/// in its shortest form, and surrogates and values above U+10FFFF are
/// excluded.
pub open spec fn is_valid_utf8(s: Seq<u8>) -> bool
    decreases s.len(),
{
    if s.len() == 0 {
        true
    } else {
        let b0 = s[0];
        if b0 < 0x80 {
            is_valid_utf8(s.drop_first())
        } else if 0xc2 <= b0 && b0 <= 0xdf {
            s.len() >= 2 && is_cont(s[1]) && is_valid_utf8(s.skip(2))
        } else if b0 == 0xe0 {
            s.len() >= 3 && 0xa0 <= s[1] && s[1] <= 0xbf && is_cont(s[2]) && is_valid_utf8(
                s.skip(3),
            )
        } else if 0xe1 <= b0 && b0 <= 0xec || b0 == 0xee || b0 == 0xef {
            s.len() >= 3 && is_cont(s[1]) && is_cont(s[2]) && is_valid_utf8(s.skip(3))
        } else if b0 == 0xed {
            s.len() >= 3 && 0x80 <= s[1] && s[1] <= 0x9f && is_cont(s[2]) && is_valid_utf8(
                s.skip(3),
            )
        } else if b0 == 0xf0 {
            s.len() >= 4 && 0x90 <= s[1] && s[1] <= 0xbf && is_cont(s[2]) && is_cont(s[3])
                && is_valid_utf8(s.skip(4))
        } else if 0xf1 <= b0 && b0 <= 0xf3 {
            s.len() >= 4 && is_cont(s[1]) && is_cont(s[2]) && is_cont(s[3]) && is_valid_utf8(
                s.skip(4),
            )
        } else if b0 == 0xf4 {
            s.len() >= 4 && 0x80 <= s[1] && s[1] <= 0x8f && is_cont(s[2]) && is_cont(s[3])
                && is_valid_utf8(s.skip(4))
        } else {
            false
        }
    }
}

/// Relies on `str::from_utf8`: it returns `Ok` exactly on the byte sequences
/// that are valid UTF-8.
#[verifier::external_body]
fn utf8_check(b: &[u8]) -> (r: bool)
    ensures
        r == is_valid_utf8(b@),
{
    std::str::from_utf8(b).is_ok()
}

/// The whole input, lowercase-folded byte by byte.
pub open spec fn folded(s: Seq<u8>) -> Seq<u8> {
    s.map_values(|b: u8| fold_byte(b))
}

/// Tokenization of a folded byte sequence, scanning left to right with the
/// token collected so far in `cur`: letters extend `cur`, any other byte
/// ends it, and a non-empty `cur` is emitted as one token.
pub open spec fn tokens_acc(s: Seq<u8>, cur: Seq<u8>) -> Seq<Seq<u8>>
    decreases s.len(),
{
    if s.len() == 0 {
        if cur.len() == 0 {
            Seq::empty()
        } else {
            seq![cur]
        }
    } else if is_letter(s[0]) {
        tokens_acc(s.drop_first(), cur.push(s[0]))
    } else if cur.len() == 0 {
        tokens_acc(s.drop_first(), Seq::empty())
    } else {
        seq![cur] + tokens_acc(s.drop_first(), Seq::empty())
    }
}

/// The tokens of a folded byte sequence: the maximal runs of ASCII lowercase
/// letters, in left-to-right order.
pub open spec fn tokens_of(s: Seq<u8>) -> Seq<Seq<u8>> {
    tokens_acc(s, Seq::empty())
}

/// The i-th entry of the fixed embedded stopword list, already lowercase.
pub open spec fn stopword_at(i: int) -> Seq<u8> {
    if i == 0 { seq![97u8] }
    else if i == 1 { seq![97u8, 110] }
    else if i == 2 { seq![97u8, 110, 100] }
    else if i == 3 { seq![97u8, 116] }
    else if i == 4 { seq![98u8, 121] }
    else if i == 5 { seq![102u8, 111, 114] }
    else if i == 6 { seq![105u8, 110] }
    else if i == 7 { seq![105u8, 115] }
    else if i == 8 { seq![105u8, 116] }
    else if i == 9 { seq![111u8, 102] }
    else if i == 10 { seq![111u8, 110] }
    else if i == 11 { seq![111u8, 114] }
    else if i == 12 { seq![111u8, 118, 101, 114] }
    else if i == 13 { seq![116u8, 104, 101] }
    else if i == 14 { seq![116u8, 111] }
    else { seq![119u8, 105, 116, 104] }
}

/// Membership in the fixed embedded stopword set.
pub open spec fn is_stopword(w: Seq<u8>) -> bool {
    exists|i: int| 0 <= i < 16 && w == stopword_at(i)
}

/// Keeps the tokens that are not stopwords.
pub open spec fn keep_pred() -> spec_fn(Seq<u8>) -> bool {
    |t: Seq<u8>| !is_stopword(t)
}

/// The normalizer's result on valid input: fold, tokenize, drop stopwords.
pub open spec fn normalize_spec(input: Seq<u8>) -> Seq<Seq<u8>> {
    tokens_of(folded(input)).filter(keep_pred())
}

/// The models of a vector of byte tokens.
pub open spec fn toks_model(toks: Seq<Vec<u8>>) -> Seq<Seq<u8>> {
    toks.map_values(|t: Vec<u8>| t@)
}

/// Builds the i-th stopword.
fn stopword_exec(i: usize) -> (r: Vec<u8>)
    requires
        i < 16,
    ensures
        r@ == stopword_at(i as int),
{
    let mut v: Vec<u8> = Vec::new();
    if i == 0 {
        v.push(97);
    } else if i == 1 {
        v.push(97); v.push(110);
    } else if i == 2 {
        v.push(97); v.push(110); v.push(100);
    } else if i == 3 {
        v.push(97); v.push(116);
    } else if i == 4 {
        v.push(98); v.push(121);
    } else if i == 5 {
        v.push(102); v.push(111); v.push(114);
    } else if i == 6 {
        v.push(105); v.push(110);
    } else if i == 7 {
        v.push(105); v.push(115);
    } else if i == 8 {
        v.push(105); v.push(116);
    } else if i == 9 {
        v.push(111); v.push(102);
    } else if i == 10 {
        v.push(111); v.push(110);
    } else if i == 11 {
        v.push(111); v.push(114);
    } else if i == 12 {
        v.push(111); v.push(118); v.push(101); v.push(114);
    } else if i == 13 {
        v.push(116); v.push(104); v.push(101);
    } else if i == 14 {
        v.push(116); v.push(111);
    } else {
        v.push(119); v.push(105); v.push(116); v.push(104);
    }
    proof {
        assert(v@ =~= stopword_at(i as int));
    }
    v
}

/// Decides membership in the embedded stopword set.
pub fn is_stopword_exec(w: &Vec<u8>) -> (r: bool)
    ensures
        r == is_stopword(w@),
{
    let mut i: usize = 0;
    while i < 16
        invariant
            0 <= i <= 16,
            forall|k: int| 0 <= k < i ==> w@ != stopword_at(k),
        decreases 16 - i,
    {
        let s = stopword_exec(i);
        if bytes_eq(w.as_slice(), s.as_slice()) {
            return true;
        }
        i = i + 1;
    }
    false
}

/// Lowercase-folds every byte of the input.
fn fold_bytes(input: &[u8]) -> (r: Vec<u8>)
    ensures
        r@ == folded(input@),
{
    let mut out: Vec<u8> = Vec::new();
    let mut i: usize = 0;
    while i < input.len()
        invariant
            0 <= i <= input@.len(),
            out@.len() == i,
            forall|k: int| 0 <= k < i ==> out@[k] == fold_byte(#[trigger] input@[k]),
        decreases input@.len() - i,
    {
        out.push(fold_byte_exec(input[i]));
        i = i + 1;
    }
    proof {
        assert(out@ =~= folded(input@));
    }
    out
}

/// Splits a folded byte sequence into its maximal letter runs.
fn tokenize(s: &[u8]) -> (r: Vec<Vec<u8>>)
    ensures
        toks_model(r@) == tokens_of(s@),
{
    let mut out: Vec<Vec<u8>> = Vec::new();
    let mut cur: Vec<u8> = Vec::new();
    let mut i: usize = 0;
    proof {
        assert(s@.skip(0) =~= s@);
        assert(toks_model(out@) =~= Seq::<Seq<u8>>::empty());
        assert(Seq::<Seq<u8>>::empty() + tokens_acc(s@, Seq::<u8>::empty()) =~= tokens_acc(
            s@,
            Seq::<u8>::empty(),
        ));
        assert(cur@ =~= Seq::<u8>::empty());
    }
    while i < s.len()
        invariant
            0 <= i <= s@.len(),
            tokens_of(s@) == toks_model(out@) + tokens_acc(s@.skip(i as int), cur@),
        decreases s@.len() - i,
    {
        let ghost tail = s@.skip(i as int);
        let ghost old_out = toks_model(out@);
        let ghost old_cur = cur@;
        proof {
            assert(tail.drop_first() =~= s@.skip(i + 1));
            assert(tail[0] == s@[i as int]);
        }
        let b = s[i];
        if 97 <= b && b <= 122 {
            cur.push(b);
            proof {
                assert(tokens_acc(tail, old_cur) == tokens_acc(s@.skip(i + 1), cur@));
            }
        } else if cur.len() > 0 {
            let done = cur;
            cur = Vec::new();
            out.push(done);
            proof {
                assert(toks_model(out@) =~= old_out.push(old_cur));
                assert(cur@ =~= Seq::<u8>::empty());
                assert(tokens_acc(tail, old_cur) == seq![old_cur] + tokens_acc(
                    s@.skip(i + 1),
                    Seq::<u8>::empty(),
                ));
                assert(old_out.push(old_cur) =~= old_out + seq![old_cur]);
                assert((old_out + seq![old_cur]) + tokens_acc(s@.skip(i + 1), cur@) =~= old_out + (
                seq![old_cur] + tokens_acc(s@.skip(i + 1), cur@)));
            }
        } else {
            proof {
                assert(old_cur =~= Seq::<u8>::empty());
                assert(tokens_acc(tail, old_cur) == tokens_acc(s@.skip(i + 1), cur@));
            }
        }
        i = i + 1;
    }
    proof {
        assert(s@.skip(i as int) =~= Seq::<u8>::empty());
    }
    if cur.len() > 0 {
        let ghost old_out = toks_model(out@);
        let ghost old_cur = cur@;
        out.push(cur);
        proof {
            assert(toks_model(out@) =~= old_out.push(old_cur));
            assert(tokens_acc(Seq::<u8>::empty(), old_cur) == seq![old_cur]);
            assert(old_out.push(old_cur) =~= old_out + seq![old_cur]);
        }
    } else {
        proof {
            assert(cur@ =~= Seq::<u8>::empty());
            assert(tokens_acc(Seq::<u8>::empty(), cur@) =~= Seq::<Seq<u8>>::empty());
            assert(toks_model(out@) + Seq::<Seq<u8>>::empty() =~= toks_model(out@));
        }
    }
    out
}

/// Removes the stopwords from a token sequence, keeping the order.
fn remove_stopwords(toks: Vec<Vec<u8>>) -> (r: Vec<Vec<u8>>)
    ensures
        toks_model(r@) == toks_model(toks@).filter(keep_pred()),
{
    let ghost pred = keep_pred();
    let ghost toksm = toks_model(toks@);
    proof {
        assert(forall|t: Seq<u8>| #[trigger] pred(t) == !is_stopword(t));
    }
    let mut out: Vec<Vec<u8>> = Vec::new();
    let mut i: usize = 0;
    proof {
        reveal(Seq::filter);
        assert(toksm.take(0) =~= Seq::<Seq<u8>>::empty());
        assert(toks_model(out@) =~= toksm.take(0).filter(pred));
    }
    while i < toks.len()
        invariant
            0 <= i <= toks@.len(),
            toksm == toks_model(toks@),
            pred == keep_pred(),
            toks_model(out@) == toksm.take(i as int).filter(pred),
        decreases toks@.len() - i,
    {
        proof {
            reveal(Seq::filter);
            assert(toksm.take(i + 1).drop_last() =~= toksm.take(i as int));
            assert(toksm.take(i + 1).last() == toksm[i as int]);
            assert(toksm[i as int] == toks@[i as int]@);
            assert(toksm.take(i + 1).len() > 0);
            assert(toksm.take(i + 1).filter(pred) == (if pred(toksm[i as int]) {
                toksm.take(i as int).filter(pred).push(toksm[i as int])
            } else {
                toksm.take(i as int).filter(pred)
            }));
        }
        let keep = !is_stopword_exec(&toks[i]);
        if keep {
            let ghost old_out = toks_model(out@);
            let t = clone_token(&toks[i]);
            out.push(t);
            proof {
                assert(toks_model(out@) =~= old_out.push(toksm[i as int]));
            }
        }
        i = i + 1;
    }
    proof {
        assert(toksm.take(toksm.len() as int) =~= toksm);
    }
    out
}

/// Copies one token.
fn clone_token(t: &Vec<u8>) -> (r: Vec<u8>)
    ensures
        r@ == t@,
{
    let r = t.clone();
    proof {
        assert(r@ =~= t@);
    }
    r
}

/// Normalizes raw input: rejects bytes that are not valid UTF-8, otherwise
/// folds to lowercase, tokenizes, and removes the embedded stopwords.
pub fn normalize_text(input: &[u8]) -> (r: Result<Vec<Vec<u8>>, Error>)
    ensures
        match r {
            Ok(toks) => is_valid_utf8(input@) && toks_model(toks@) == normalize_spec(input@),
            Err(e) => e == Error::InvalidEncoding && !is_valid_utf8(input@),
        },
{
    if !utf8_check(input) {
        return Err(Error::InvalidEncoding);
    }
    let folded_bytes = fold_bytes(input);
    let toks = tokenize(folded_bytes.as_slice());
    Ok(remove_stopwords(toks))
}

} // verus!
