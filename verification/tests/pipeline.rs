//! End-to-end tests of the normalizer, ranker, codec, commitments, guest
//! pipeline, and host orchestrator.

use zksum::codec::{decode_journal, encode_journal, encode_keywords};
use zksum::commit::fingerprint;
use zksum::guest::guest_run;
use zksum::journal::{Error, Journal, Keyword};
use zksum::normalize::normalize_text;
use zksum::rank::rank;

fn words(r: &[Keyword]) -> Vec<(String, u64)> {
    r.iter()
        .map(|k| (String::from_utf8(k.word.clone()).unwrap(), k.count))
        .collect()
}

fn norm_rank(input: &[u8]) -> Vec<(String, u64)> {
    let toks = normalize_text(input).unwrap();
    words(&rank(&toks))
}

#[test]
fn tokenizes_and_folds() {
    let toks = normalize_text(b"Hello, WORLD! 42 cafe9x").unwrap();
    let t: Vec<String> = toks
        .iter()
        .map(|w| String::from_utf8(w.clone()).unwrap())
        .collect();
    assert_eq!(t, vec!["hello", "world", "cafe", "x"]);
}

#[test]
fn rejects_invalid_utf8() {
    let r = normalize_text(&[0x66, 0xff, 0x01]);
    assert!(matches!(r, Err(Error::InvalidEncoding)));
    let r = normalize_text(&[0xc0, 0xaf]);
    assert!(matches!(r, Err(Error::InvalidEncoding)));
    let r = normalize_text(&[0xed, 0xa0, 0x80]);
    assert!(matches!(r, Err(Error::InvalidEncoding)));
}

#[test]
fn determinism_two_runs_agree() {
    let input = b"Sphinx of black quartz, judge my vow; sphinx again.";
    assert_eq!(norm_rank(input), norm_rank(input));
}

#[test]
fn tie_break_is_lexicographic() {
    assert_eq!(
        norm_rank(b"zebra zebra apple apple"),
        vec![("apple".to_string(), 2), ("zebra".to_string(), 2)]
    );
}

#[test]
fn stopwords_are_excluded() {
    assert_eq!(
        norm_rank(b"the the the cat cat dog"),
        vec![("cat".to_string(), 2), ("dog".to_string(), 1)]
    );
}

#[test]
fn top_k_bound() {
    assert_eq!(norm_rank(b"one two three").len(), 3);
    let seven = b"alpha beta gamma delta epsilon zeta eta";
    assert_eq!(norm_rank(seven).len(), 5);
    assert_eq!(norm_rank(b"").len(), 0);
}

#[test]
fn end_to_end_ranking_example() {
    assert_eq!(
        norm_rank(b"The quick brown fox jumps over the lazy dog. The dog barks."),
        vec![
            ("dog".to_string(), 2),
            ("barks".to_string(), 1),
            ("brown".to_string(), 1),
            ("fox".to_string(), 1),
            ("jumps".to_string(), 1),
        ]
    );
}

#[test]
fn fingerprint_known_values() {
    assert_eq!(
        fingerprint(b"").as_slice(),
        b"sha256:e3b0c44298fc1c149afbf4c8996fb92427ae41e4649b934ca495991b7852b855"
    );
    assert_eq!(
        fingerprint(b"abc").as_slice(),
        b"sha256:ba7816bf8f01cfea414140de5dae2223b00361a396177a9cb410ff61f20015ad"
    );
}

#[test]
fn fingerprint_pure_and_sensitive() {
    assert_eq!(fingerprint(b"same bytes"), fingerprint(b"same bytes"));
    assert_ne!(fingerprint(b"same bytes"), fingerprint(b"same bytez"));
}

#[test]
fn canonical_keyword_encoding() {
    let ks = vec![
        Keyword { word: b"dog".to_vec(), count: 2 },
        Keyword { word: b"cat".to_vec(), count: 1 },
    ];
    assert_eq!(
        encode_keywords(&ks).as_slice(),
        br#"[{"word":"dog","count":2},{"word":"cat","count":1}]"#
    );
    let empty: Vec<Keyword> = Vec::new();
    assert_eq!(encode_keywords(&empty).as_slice(), b"[]");
}

#[test]
fn journal_round_trip() {
    let j = Journal {
        program_hash: b"<FILLED_BY_HOST>".to_vec(),
        input_hash: b"sha256:aa".to_vec(),
        output_hash: b"sha256:bb".to_vec(),
        keywords: vec![Keyword { word: b"dog".to_vec(), count: 12 }],
    };
    let bytes = encode_journal(&j);
    assert_eq!(
        bytes.as_slice(),
        br#"{"programHash":"<FILLED_BY_HOST>","inputHash":"sha256:aa","outputHash":"sha256:bb","keywords":[{"word":"dog","count":12}]}"#
    );
    let back = decode_journal(&bytes).unwrap();
    assert_eq!(back.program_hash, j.program_hash);
    assert_eq!(back.input_hash, j.input_hash);
    assert_eq!(back.output_hash, j.output_hash);
    assert_eq!(back.keywords.len(), 1);
    assert_eq!(back.keywords[0].word, b"dog".to_vec());
    assert_eq!(back.keywords[0].count, 12);
}

#[test]
fn decode_rejects_malformed() {
    assert!(matches!(decode_journal(b""), Err(Error::JournalDecodeError)));
    assert!(matches!(decode_journal(b"{}"), Err(Error::JournalDecodeError)));
    // insignificant whitespace is not canonical
    let spaced = br#"{"programHash": "x","inputHash":"y","outputHash":"z","keywords":[]}"#;
    assert!(matches!(decode_journal(spaced), Err(Error::JournalDecodeError)));
    // leading zero in a count is not canonical
    let lz = br#"{"programHash":"x","inputHash":"y","outputHash":"z","keywords":[{"word":"dog","count":01}]}"#;
    assert!(matches!(decode_journal(lz), Err(Error::JournalDecodeError)));
    // a zero count is not a keyword
    let zero = br#"{"programHash":"x","inputHash":"y","outputHash":"z","keywords":[{"word":"dog","count":0}]}"#;
    assert!(matches!(decode_journal(zero), Err(Error::JournalDecodeError)));
    // words hold lowercase letters only
    let badword = br#"{"programHash":"x","inputHash":"y","outputHash":"z","keywords":[{"word":"Dog","count":1}]}"#;
    assert!(matches!(decode_journal(badword), Err(Error::JournalDecodeError)));
    // a sixth keyword is over the bound
    let six = br#"{"programHash":"x","inputHash":"y","outputHash":"z","keywords":[{"word":"a","count":1},{"word":"b","count":1},{"word":"c","count":1},{"word":"d","count":1},{"word":"e","count":1},{"word":"f","count":1}]}"#;
    assert!(matches!(decode_journal(six), Err(Error::JournalDecodeError)));
    // trailing bytes after the record
    let trail = br#"{"programHash":"x","inputHash":"y","outputHash":"z","keywords":[]} "#;
    assert!(matches!(decode_journal(trail), Err(Error::JournalDecodeError)));
}

#[test]
fn guest_commits_placeholder_and_hashes() {
    let input = b"The quick brown fox jumps over the lazy dog. The dog barks.";
    let out = guest_run(input).unwrap();
    assert_eq!(out.journal.program_hash, b"<FILLED_BY_HOST>".to_vec());
    assert_eq!(
        out.journal.input_hash,
        b"sha256:6f50db2d87bbce26e22b61436b31b70799f847318705f9134b0305c8714e7dcd".to_vec()
    );
    assert_eq!(
        out.journal.output_hash,
        b"sha256:6c6e3c93d70af2317dcc8dbed128b2bf0cd953787f4dce193eeb7e998646269e".to_vec()
    );
    let decoded = decode_journal(&out.commit).unwrap();
    assert_eq!(decoded.program_hash, b"<FILLED_BY_HOST>".to_vec());
    assert_eq!(words(&decoded.keywords), norm_rank(input));
}

#[test]
fn guest_rejects_invalid_utf8_and_commits_nothing() {
    let r = guest_run(&[0x80, 0x41]);
    assert!(matches!(r, Err(Error::InvalidEncoding)));
}

#[test]
fn empty_input_gives_empty_keywords() {
    let out = guest_run(b"").unwrap();
    assert!(out.journal.keywords.is_empty());
    assert_eq!(
        out.journal.input_hash,
        b"sha256:e3b0c44298fc1c149afbf4c8996fb92427ae41e4649b934ca495991b7852b855".to_vec()
    );
    assert_eq!(
        out.journal.output_hash,
        b"sha256:4f53cda18c2baa0c0354bb5f9a3ecbe5ed12ab4d8e11ba873c2f11161202b945".to_vec()
    );
    let decoded = decode_journal(&out.commit).unwrap();
    assert!(decoded.keywords.is_empty());
}
