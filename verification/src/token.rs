use core::marker::PhantomData;
use vstd::prelude::*;

use crate::language::DefaultLanguage;
use crate::language::Language;

verus! {

/// The mathematical value of a token, independent of its language tag: the
/// variant, together with the byte content when the token is a word.
pub enum TokenView {
    /// A word with its byte content.
    Word(Seq<u8>),
    /// The sentence-boundary marker.
    Null,
    /// The out-of-vocabulary marker.
    Unknown,
}

/// A `Word` is a run of bytes taken from a document's buffer, tagged with
/// the language `L`. Words built by a [`crate::Document`] are never empty.
#[verifier::reject_recursive_types(L)]
pub struct Word<L = DefaultLanguage> {
    bytes: Vec<u8>,
    language: PhantomData<L>,
}

impl<L> View for Word<L> {
    type V = Seq<u8>;

    closed spec fn view(&self) -> Seq<u8> {
        self.bytes@
    }
}

/// Compares two byte vectors by content.
fn bytes_eq(x: &Vec<u8>, y: &Vec<u8>) -> (r: bool)
    ensures
        r == (x@ == y@),
{
    if x.len() != y.len() {
        return false;
    }
    let mut i: usize = 0;
    while i < x.len()
        invariant
            i <= x@.len(),
            x@.len() == y@.len(),
            forall|j: int| 0 <= j < i ==> x@[j] == y@[j],
        decreases x@.len() - i,
    {
        if x[i] != y[i] {
            return false;
        }
        i = i + 1;
    }
    proof {
        assert(x@ =~= y@);
    }
    true
}

/// Copies a byte vector.
fn copy_bytes(v: &Vec<u8>) -> (r: Vec<u8>)
    ensures
        r@ == v@,
{
    let mut r: Vec<u8> = Vec::new();
    let mut i: usize = 0;
    while i < v.len()
        invariant
            i <= v@.len(),
            r@ == v@.subrange(0, i as int),
        decreases v@.len() - i,
    {
        r.push(v[i]);
        proof {
            assert(v@.subrange(0, i as int).push(v@[i as int]) =~= v@.subrange(0, i + 1 as int));
        }
        i = i + 1;
    }
    proof {
        assert(v@.subrange(0, v@.len() as int) =~= v@);
    }
    r
}

impl<L> Word<L> {
    /// Builds a word holding exactly the given bytes.
    pub fn new(bytes: Vec<u8>) -> (w: Word<L>)
        ensures
            w@ == bytes@,
    {
        Word { bytes, language: PhantomData }
    }

    /// The bytes of this word.
    pub fn bytes(&self) -> (r: &Vec<u8>)
        ensures
            r@ == self@,
    {
        &self.bytes
    }

    /// The display form of this word: each byte decoded as one character.
    /// This is lossy for multi-byte encodings, by design.
    pub fn render(&self) -> (s: String)
        ensures
            s@ == render_view(TokenView::Word(self@)),
    {
        let mut cs: Vec<char> = Vec::new();
        let mut i: usize = 0;
        while i < self.bytes.len()
            invariant
                i <= self.bytes@.len(),
                cs@ == self.bytes@.subrange(0, i as int).map_values(|b: u8| b as char),
            decreases self.bytes@.len() - i,
        {
            cs.push(self.bytes[i] as char);
            proof {
                assert(cs@ =~= self.bytes@.subrange(0, i + 1 as int).map_values(
                    |b: u8| b as char,
                ));
            }
            i = i + 1;
        }
        proof {
            assert(self.bytes@.subrange(0, self.bytes@.len() as int) =~= self.bytes@);
        }
        chars_to_string(&cs)
    }
}

impl<L> Clone for Word<L> {
    /// The clone holds the same byte content as the original.
    fn clone(&self) -> (res: Self)
        ensures
            res@ == self@,
    {
        Word { bytes: copy_bytes(&self.bytes), language: PhantomData }
    }
}

/// A token of a corpus tagged with the language `L`: a word actually present
/// in some document, or one of two synthetic markers.
#[verifier::reject_recursive_types(L)]
pub enum Token<L = DefaultLanguage> {
    /// A word present in some document.
    Word(Word<L>),
    /// The sentence-boundary marker; not present in the source text.
    Null,
    /// The out-of-vocabulary marker; not present in the source text. See
    /// [`crate::unk`].
    Unknown,
}

impl<L> View for Token<L> {
    type V = TokenView;

    open spec fn view(&self) -> TokenView {
        match self {
            Token::Word(w) => TokenView::Word(w@),
            Token::Null => TokenView::Null,
            Token::Unknown => TokenView::Unknown,
        }
    }
}

impl<L> Token<L> {
    /// Builds a word token holding exactly the given bytes.
    pub fn word(bytes: Vec<u8>) -> (t: Token<L>)
        ensures
            t@ == TokenView::Word(bytes@),
    {
        Token::Word(Word::new(bytes))
    }

    /// The display form of this token: `Null` renders as the epsilon glyph,
    /// `Unknown` as the replacement glyph, and a word renders each of its
    /// bytes as one character.
    pub fn render(&self) -> (s: String)
        ensures
            s@ == render_view(self@),
    {
        match self {
            Token::Word(w) => w.render(),
            Token::Null => {
                let mut cs: Vec<char> = Vec::new();
                cs.push('\u{03B5}');
                proof {
                    assert(cs@ =~= seq!['\u{03B5}']);
                }
                chars_to_string(&cs)
            },
            Token::Unknown => {
                let mut cs: Vec<char> = Vec::new();
                cs.push('\u{FFFD}');
                proof {
                    assert(cs@ =~= seq!['\u{FFFD}']);
                }
                chars_to_string(&cs)
            },
        }
    }
}

impl<L: Language> Token<L> {
    /// Relabels this token as belonging to the language `M`.
    ///
    /// This is an unchecked relabeling: it is the deliberate escape hatch
    /// for cross-tagging a token, and it preserves the token's variant and
    /// byte content exactly. Only the compile-time tag changes.
    pub fn loan<M: Language>(self) -> (r: Token<M>)
        ensures
            r@ == self@,
    {
        match self {
            Token::Word(w) => Token::Word(Word { bytes: w.bytes, language: PhantomData }),
            Token::Null => Token::Null,
            Token::Unknown => Token::Unknown,
        }
    }
}

impl<L> Clone for Token<L> {
    /// The clone has the same variant and byte content as the original.
    fn clone(&self) -> (res: Self)
        ensures
            res@ == self@,
    {
        match self {
            Token::Word(w) => Token::Word(w.clone()),
            Token::Null => Token::Null,
            Token::Unknown => Token::Unknown,
        }
    }
}

impl<L> PartialEq for Token<L> {
    /// Structural equality: the variants match, and word tokens hold equal
    /// byte content.
    fn eq(&self, other: &Self) -> (r: bool) {
        match (self, other) {
            (Token::Word(a), Token::Word(b)) => bytes_eq(&a.bytes, &b.bytes),
            (Token::Null, Token::Null) => true,
            (Token::Unknown, Token::Unknown) => true,
            _ => false,
        }
    }
}

impl<L> vstd::std_specs::cmp::PartialEqSpecImpl for Token<L> {
    open spec fn obeys_eq_spec() -> bool {
        true
    }

    open spec fn eq_spec(&self, other: &Self) -> bool {
        self@ == other@
    }
}

/// The rank of a token variant in the fixed structural order:
/// `Null < Unknown < Word`.
pub open spec fn variant_rank(t: TokenView) -> int {
    match t {
        TokenView::Null => 0,
        TokenView::Unknown => 1,
        TokenView::Word(_) => 2,
    }
}

/// Lexicographic order on byte content: the first differing byte decides,
/// and a proper prefix orders before what it prefixes.
pub open spec fn lex_cmp(a: Seq<u8>, b: Seq<u8>) -> core::cmp::Ordering
    decreases a.len(),
{
    if a.len() == 0 && b.len() == 0 {
        core::cmp::Ordering::Equal
    } else if a.len() == 0 {
        core::cmp::Ordering::Less
    } else if b.len() == 0 {
        core::cmp::Ordering::Greater
    } else if a.first() < b.first() {
        core::cmp::Ordering::Less
    } else if a.first() > b.first() {
        core::cmp::Ordering::Greater
    } else {
        lex_cmp(a.drop_first(), b.drop_first())
    }
}

/// The structural order on token values: variants order as
/// `Null < Unknown < Word`, and two words order by their byte content, not
/// by where they sit in a buffer.
pub open spec fn token_cmp(x: TokenView, y: TokenView) -> core::cmp::Ordering {
    if variant_rank(x) < variant_rank(y) {
        core::cmp::Ordering::Less
    } else if variant_rank(x) > variant_rank(y) {
        core::cmp::Ordering::Greater
    } else {
        match (x, y) {
            (TokenView::Word(a), TokenView::Word(b)) => lex_cmp(a, b),
            _ => core::cmp::Ordering::Equal,
        }
    }
}

/// Compares two byte vectors lexicographically.
fn bytes_cmp(x: &Vec<u8>, y: &Vec<u8>) -> (r: core::cmp::Ordering)
    ensures
        r == lex_cmp(x@, y@),
{
    proof {
        assert(x@.skip(0) =~= x@);
        assert(y@.skip(0) =~= y@);
    }
    let mut i: usize = 0;
    while i < x.len() && i < y.len()
        invariant
            i <= x@.len(),
            i <= y@.len(),
            lex_cmp(x@, y@) == lex_cmp(x@.skip(i as int), y@.skip(i as int)),
        decreases x@.len() - i,
    {
        proof {
            assert(x@.skip(i as int).first() == x@[i as int]);
            assert(y@.skip(i as int).first() == y@[i as int]);
        }
        if x[i] < y[i] {
            return core::cmp::Ordering::Less;
        }
        if x[i] > y[i] {
            return core::cmp::Ordering::Greater;
        }
        proof {
            assert(x@.skip(i as int).drop_first() =~= x@.skip(i + 1 as int));
            assert(y@.skip(i as int).drop_first() =~= y@.skip(i + 1 as int));
        }
        i = i + 1;
    }
    proof {
        if i == x@.len() {
            assert(x@.skip(i as int) =~= Seq::<u8>::empty());
        }
        if i == y@.len() {
            assert(y@.skip(i as int) =~= Seq::<u8>::empty());
        }
    }
    if x.len() < y.len() {
        core::cmp::Ordering::Less
    } else if x.len() > y.len() {
        core::cmp::Ordering::Greater
    } else {
        core::cmp::Ordering::Equal
    }
}

impl<L> PartialOrd for Token<L> {
    /// The fixed structural order: `Null < Unknown < Word`, and word tokens
    /// order by their byte content.
    fn partial_cmp(&self, other: &Self) -> (r: Option<core::cmp::Ordering>) {
        match (self, other) {
            (Token::Word(a), Token::Word(b)) => Some(bytes_cmp(&a.bytes, &b.bytes)),
            (Token::Null, Token::Null) => Some(core::cmp::Ordering::Equal),
            (Token::Null, _) => Some(core::cmp::Ordering::Less),
            (Token::Unknown, Token::Null) => Some(core::cmp::Ordering::Greater),
            (Token::Unknown, Token::Unknown) => Some(core::cmp::Ordering::Equal),
            (Token::Unknown, Token::Word(_)) => Some(core::cmp::Ordering::Less),
            (Token::Word(_), _) => Some(core::cmp::Ordering::Greater),
        }
    }
}

impl<L> vstd::std_specs::cmp::PartialOrdSpecImpl for Token<L> {
    open spec fn obeys_partial_cmp_spec() -> bool {
        true
    }

    open spec fn partial_cmp_spec(&self, other: &Self) -> Option<core::cmp::Ordering> {
        Some(token_cmp(self@, other@))
    }
}

/// The display form of a token value: `Null` is the epsilon glyph, `Unknown`
/// is the replacement glyph, and a word is its bytes decoded one byte per
/// character.
pub open spec fn render_view(t: TokenView) -> Seq<char> {
    match t {
        TokenView::Word(bs) => bs.map_values(|b: u8| b as char),
        TokenView::Null => seq!['\u{03B5}'],
        TokenView::Unknown => seq!['\u{FFFD}'],
    }
}

/// Relies on `String` implementing `FromIterator<char>`: collecting an
/// iterator of characters yields a string holding exactly those characters
/// in order.
#[verifier::external_body]
fn chars_to_string(cs: &Vec<char>) -> (s: String)
    ensures
        s@ == cs@,
{
    cs.iter().collect()
}

} // verus!
