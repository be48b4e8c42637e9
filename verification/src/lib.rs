//! Byte-oriented text tokenization with a verified corpus structure.
//!
//! A [`Document`] owns a byte buffer together with the word tokens and
//! sentence spans derived from it: the buffer is split on newline bytes into
//! sentences, and each sentence on space bytes into non-empty words. Tokens
//! and documents carry a compile-time [`Language`] marker so that corpora of
//! different languages cannot be mixed by accident. Free functions provide
//! unigram, bigram and boundary-padded views of a token sequence, and a
//! vocabulary filter that replaces out-of-vocabulary tokens with
//! [`Token::Unknown`].

pub mod corpus;
pub mod language;
pub mod token;

pub use corpus::{bigrams, padded, unigrams, unk, Bigram, Document, Line, Unigram};
pub use language::{DefaultLanguage, Language};
pub use token::{Token, Word};
