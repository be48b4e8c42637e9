use nlptk::{padded, unigrams, DefaultLanguage, Document, Token};

fn render_all(tokens: &[Token]) -> Vec<String> {
    tokens.iter().map(|t| t.render()).collect()
}

#[test]
fn empty_input_has_one_empty_sentence() {
    let d: Document = Document::from_bytes(Vec::new());
    assert_eq!(d.tokens().len(), 0);
    let lines = d.lines();
    assert_eq!(lines.len(), 1);
    assert_eq!(lines[0].len(), 0);
}

#[test]
fn word_count_ignores_extra_spaces() {
    let d: Document = Document::from_bytes(b" a  b \n\nc".to_vec());
    assert_eq!(render_all(d.tokens()), ["a", "b", "c"]);
    let lines = d.lines();
    assert_eq!(lines.len(), 3);
    assert_eq!(lines[0].len(), 2);
    assert_eq!(lines[1].len(), 0);
    assert_eq!(lines[2].len(), 1);
}

#[test]
fn sentences_partition_words() {
    let d: Document = Document::from_bytes(b"a b\n\nc d e\nf".to_vec());
    let mut concatenated: Vec<Token> = Vec::new();
    for line in d.lines() {
        concatenated.extend(line);
    }
    let tokens = d.tokens();
    assert_eq!(concatenated.len(), tokens.len());
    for (a, b) in concatenated.iter().zip(tokens.iter()) {
        assert!(a == b);
    }
}

#[test]
fn carriage_returns_stay_attached() {
    let d: Document = Document::from_bytes(b"a\r\nb".to_vec());
    assert_eq!(render_all(d.tokens()), ["a\r", "b"]);
    assert_eq!(d.lines().len(), 2);
}

#[test]
fn trailing_newline_adds_empty_sentence() {
    let d: Document = Document::from_bytes(b"a b\n".to_vec());
    let lines = d.lines();
    assert_eq!(lines.len(), 2);
    assert_eq!(lines[0].len(), 2);
    assert_eq!(lines[1].len(), 0);
}

#[test]
fn unigrams_are_the_identity() {
    let d: Document = Document::from_bytes(b"a b c".to_vec());
    let tokens = d.tokens().clone();
    let same = unigrams(tokens);
    assert_eq!(same.len(), 3);
    for (a, b) in same.iter().zip(d.tokens().iter()) {
        assert!(a == b);
    }
}

#[test]
fn padded_inserts_boundary_markers() {
    let d: Document = Document::from_bytes(b"a b\nc".to_vec());
    let lines = d.lines();
    let stream = padded(&lines);
    assert_eq!(stream.len(), 1 + 3 + 2);
    assert_eq!(render_all(&stream), ["\u{03B5}", "a", "b", "\u{03B5}", "c", "\u{03B5}"]);
}

#[test]
fn padded_of_no_sentences_is_one_marker() {
    let lines: Vec<Vec<Token<DefaultLanguage>>> = Vec::new();
    let stream = padded(&lines);
    assert_eq!(stream.len(), 1);
    assert!(stream[0] == Token::Null);
}

#[test]
fn padded_length_counts_tokens_and_sentences() {
    let d: Document = Document::from_bytes(b" a  b \n\nc".to_vec());
    let lines = d.lines();
    let stream = padded(&lines);
    assert_eq!(stream.len(), 1 + 3 + 3);
}

#[test]
fn end_to_end_two_sentences() {
    let text = "The soup pleased the dog.\nThe cat caught the rat.";
    let d: Document = Document::from_bytes(text.as_bytes().to_vec());
    assert_eq!(d.tokens().len(), 10);
    let lines = d.lines();
    assert_eq!(lines.len(), 2);
    assert_eq!(lines[0].len(), 5);
    assert_eq!(lines[1].len(), 5);
    let stream = padded(&lines);
    assert_eq!(stream.len(), 13);
    let joined = render_all(&stream).join(" ");
    assert_eq!(
        joined,
        "\u{03B5} The soup pleased the dog. \u{03B5} The cat caught the rat. \u{03B5}"
    );
}
