use nlptk::{bigrams, unk, Document, Language, Token};

struct English;

impl Language for English {}

struct French;

impl Language for French {}

#[test]
fn render_uses_fixed_glyphs() {
    let null: Token = Token::Null;
    let unknown: Token = Token::Unknown;
    assert_eq!(null.render(), "\u{03B5}");
    assert_eq!(unknown.render(), "\u{FFFD}");
}

#[test]
fn render_decodes_bytes_one_per_character() {
    let word: Token = Token::word(vec![b'a', 0xFF]);
    assert_eq!(word.render(), "a\u{00FF}");
}

#[test]
fn tokens_compare_by_content() {
    let a: Token = Token::word(b"dog".to_vec());
    let b: Token = Token::word(b"dog".to_vec());
    let c: Token = Token::word(b"cat".to_vec());
    assert!(a == b);
    assert!(a != c);
    assert!(a != Token::Null);
    assert!(Token::<nlptk::DefaultLanguage>::Null == Token::Null);
    assert!(Token::<nlptk::DefaultLanguage>::Null != Token::Unknown);
}

#[test]
fn tokens_order_structurally() {
    let null: Token = Token::Null;
    let unknown: Token = Token::Unknown;
    let cat: Token = Token::word(b"cat".to_vec());
    let dog: Token = Token::word(b"dog".to_vec());
    let cats: Token = Token::word(b"cats".to_vec());
    assert!(null < unknown);
    assert!(unknown < cat);
    assert!(null < cat);
    assert!(cat < dog);
    assert!(cat < cats);
    assert!(!(dog < cat));
    assert!(cat <= Token::word(b"cat".to_vec()));
}

#[test]
fn bigrams_pairs_adjacent_tokens() {
    let d: Document = Document::from_bytes(b"a b c".to_vec());
    let pairs = bigrams(d.tokens());
    assert_eq!(pairs.len(), 2);
    assert_eq!(pairs[0].0.render(), "a");
    assert_eq!(pairs[0].1.render(), "b");
    assert_eq!(pairs[1].0.render(), "b");
    assert_eq!(pairs[1].1.render(), "c");
    assert!(pairs[0].1 == pairs[1].0);
}

#[test]
fn bigrams_of_short_streams_are_empty() {
    let none: Vec<Token> = Vec::new();
    assert_eq!(bigrams(&none).len(), 0);
    let one: Vec<Token> = vec![Token::word(b"a".to_vec())];
    assert_eq!(bigrams(&one).len(), 0);
}

#[test]
fn unk_replaces_out_of_vocabulary_tokens() {
    let d: Document = Document::from_bytes(b"the cat saw the dog".to_vec());
    let vocabulary: Vec<Token> = vec![Token::word(b"the".to_vec()), Token::word(b"dog".to_vec())];
    let filtered = unk(d.tokens(), &vocabulary);
    let rendered: Vec<String> = filtered.iter().map(|t| t.render()).collect();
    assert_eq!(rendered, ["the", "\u{FFFD}", "\u{FFFD}", "the", "dog"]);
    assert_eq!(filtered.len(), d.tokens().len());
}

#[test]
fn unk_checks_null_against_the_vocabulary_too() {
    let stream: Vec<Token> = vec![Token::Null, Token::word(b"a".to_vec())];
    let vocabulary: Vec<Token> = vec![Token::word(b"a".to_vec())];
    let filtered = unk(&stream, &vocabulary);
    assert!(filtered[0] == Token::Unknown);
    assert!(filtered[1] == Token::word(b"a".to_vec()));

    let with_null: Vec<Token> = vec![Token::Null];
    let kept = unk(&stream, &with_null);
    assert!(kept[0] == Token::Null);
    assert!(kept[1] == Token::Unknown);
}

#[test]
fn unk_round_trip_with_full_vocabulary() {
    let d: Document = Document::from_bytes(b"the cat saw the dog".to_vec());
    let vocabulary: Vec<Token> = d.tokens().clone();
    let filtered = unk(d.tokens(), &vocabulary);
    assert_eq!(filtered.len(), d.tokens().len());
    for (a, b) in filtered.iter().zip(d.tokens().iter()) {
        assert!(a == b);
    }
}

#[test]
fn loan_preserves_variant_and_content() {
    let word: Token<English> = Token::word(b"soup".to_vec());
    let borrowed: Token<French> = word.loan();
    match borrowed {
        Token::Word(w) => assert_eq!(w.bytes().as_slice(), b"soup"),
        _ => panic!("loan changed the variant"),
    }
    let null: Token<English> = Token::Null;
    assert!(null.loan::<French>() == Token::Null);
    let unknown: Token<English> = Token::Unknown;
    assert!(unknown.loan::<French>() == Token::Unknown);
}

#[test]
fn word_new_keeps_bytes() {
    let w: nlptk::Word = nlptk::Word::new(b"xyz".to_vec());
    assert_eq!(w.bytes().as_slice(), b"xyz");
    assert_eq!(w.render(), "xyz");
}
