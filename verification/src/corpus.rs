use vstd::prelude::*;

use crate::language::DefaultLanguage;
use crate::language::Language;
use crate::token::{Token, TokenView};

verus! {

/// A unigram is a single token.
pub type Unigram<L = DefaultLanguage> = Token<L>;

/// A bigram is a pair of adjacent tokens of the same language.
pub type Bigram<L = DefaultLanguage> = (Token<L>, Token<L>);

/// A line is one sentence's worth of tokens.
pub type Line<L = DefaultLanguage> = Vec<Token<L>>;

/// The byte that separates sentences.
pub const NEWLINE: u8 = 10;

/// The byte that separates words within a sentence.
pub const SPACE: u8 = 32;

/// Splits `s` at every occurrence of the delimiter `d`, keeping empty
/// segments. Every input yields at least one segment: the empty input yields
/// one empty segment, and a delimiter at the start, at the end, or next to
/// another delimiter contributes an empty segment.
pub open spec fn split_on(s: Seq<u8>, d: u8) -> Seq<Seq<u8>>
    decreases s.len(),
{
    if s.len() == 0 {
        seq![s]
    } else {
        let pre = split_on(s.drop_last(), d);
        if s.last() == d {
            pre.push(Seq::empty())
        } else {
            pre.update(pre.len() - 1, pre.last().push(s.last()))
        }
    }
}

/// Splitting always yields at least one segment.
pub proof fn lemma_split_on_nonempty(s: Seq<u8>, d: u8)
    ensures
        split_on(s, d).len() >= 1,
    decreases s.len(),
{
    if s.len() > 0 {
        lemma_split_on_nonempty(s.drop_last(), d);
    }
}

/// The integer form of a list of index pairs.
pub open spec fn spans_view(spans: Seq<(usize, usize)>) -> Seq<(int, int)> {
    spans.map_values(|p: (usize, usize)| (p.0 as int, p.1 as int))
}

/// The byte contents of a list of spans over the buffer `b`.
pub open spec fn span_contents(b: Seq<u8>, spans: Seq<(int, int)>) -> Seq<Seq<u8>> {
    spans.map_values(|p: (int, int)| b.subrange(p.0, p.1))
}

proof fn lemma_contents_push(b: Seq<u8>, spans: Seq<(usize, usize)>, p: (usize, usize))
    ensures
        span_contents(b, spans_view(spans.push(p))) =~= span_contents(b, spans_view(spans)).push(
            b.subrange(p.0 as int, p.1 as int),
        ),
{
    assert(spans_view(spans.push(p)) =~= spans_view(spans).push((p.0 as int, p.1 as int)));
}

/// Scans `bytes[lo..hi]` and returns the index spans of the segments
/// delimited by `d`, in order; their contents are exactly what [`split_on`]
/// yields on that range.
fn split_spans(bytes: &Vec<u8>, lo: usize, hi: usize, d: u8) -> (r: Vec<(usize, usize)>)
    requires
        lo <= hi <= bytes@.len(),
    ensures
        span_contents(bytes@, spans_view(r@)) == split_on(
            bytes@.subrange(lo as int, hi as int),
            d,
        ),
        r@.len() >= 1,
        forall|k: int| 0 <= k < r@.len() ==> lo <= (#[trigger] r@[k]).0 <= r@[k].1 <= hi,
{
    let mut r: Vec<(usize, usize)> = Vec::new();
    let mut start: usize = lo;
    let mut i: usize = lo;
    proof {
        assert(span_contents(bytes@, spans_view(r@)).push(
            bytes@.subrange(lo as int, lo as int),
        ) =~= split_on(bytes@.subrange(lo as int, lo as int), d));
    }
    while i < hi
        invariant
            lo <= start <= i <= hi <= bytes@.len(),
            span_contents(bytes@, spans_view(r@)).push(bytes@.subrange(start as int, i as int))
                == split_on(bytes@.subrange(lo as int, i as int), d),
            forall|k: int| 0 <= k < r@.len() ==> lo <= (#[trigger] r@[k]).0 <= r@[k].1 <= i,
        decreases hi - i,
    {
        proof {
            assert(bytes@.subrange(lo as int, i + 1 as int).drop_last() =~= bytes@.subrange(
                lo as int,
                i as int,
            ));
            assert(bytes@.subrange(lo as int, i + 1 as int).last() == bytes@[i as int]);
        }
        let ghost pre = split_on(bytes@.subrange(lo as int, i as int), d);
        let ghost full = split_on(bytes@.subrange(lo as int, i + 1 as int), d);
        if bytes[i] == d {
            let ghost r0 = r@;
            proof {
                assert(full == pre.push(Seq::empty()));
            }
            r.push((start, i));
            proof {
                lemma_contents_push(bytes@, r0, (start, i));
                assert(span_contents(bytes@, spans_view(r@)) == pre);
                assert(bytes@.subrange(i + 1 as int, i + 1 as int) =~= Seq::<u8>::empty());
            }
            start = i + 1;
        } else {
            proof {
                assert(full == pre.update(pre.len() - 1, pre.last().push(bytes@[i as int])));
                assert(pre.last() == bytes@.subrange(start as int, i as int));
                assert(pre.last().push(bytes@[i as int]) =~= bytes@.subrange(
                    start as int,
                    i + 1 as int,
                ));
                assert(full =~= span_contents(bytes@, spans_view(r@)).push(
                    bytes@.subrange(start as int, i + 1 as int),
                ));
            }
        }
        i = i + 1;
    }
    let ghost r0 = r@;
    r.push((start, hi));
    proof {
        lemma_contents_push(bytes@, r0, (start, hi));
        assert(span_contents(bytes@, spans_view(r@)) == split_on(
            bytes@.subrange(lo as int, hi as int),
            d,
        ));
    }
    r
}

/// Keeps, in order, the non-empty sequences among `ws`.
pub open spec fn nonempty_words(ws: Seq<Seq<u8>>) -> Seq<Seq<u8>>
    decreases ws.len(),
{
    if ws.len() == 0 {
        Seq::empty()
    } else if ws.last().len() > 0 {
        nonempty_words(ws.drop_last()).push(ws.last())
    } else {
        nonempty_words(ws.drop_last())
    }
}

/// The words of one sentence segment: the non-empty space-delimited
/// substrings, in order.
pub open spec fn word_seqs(seg: Seq<u8>) -> Seq<Seq<u8>> {
    nonempty_words(split_on(seg, SPACE))
}

/// The words of all segments, in order of the segments.
pub open spec fn words_of_segments(segs: Seq<Seq<u8>>) -> Seq<Seq<u8>>
    decreases segs.len(),
{
    if segs.len() == 0 {
        Seq::empty()
    } else {
        words_of_segments(segs.drop_last()) + word_seqs(segs.last())
    }
}

/// The sentence spans over the word index: for each segment, the range of
/// word positions contributed by that segment.
pub open spec fn line_spans(segs: Seq<Seq<u8>>) -> Seq<(int, int)>
    decreases segs.len(),
{
    if segs.len() == 0 {
        Seq::empty()
    } else {
        line_spans(segs.drop_last()).push(
            (
                words_of_segments(segs.drop_last()).len() as int,
                words_of_segments(segs).len() as int,
            ),
        )
    }
}

/// The sentence segments of a byte buffer: the buffer split on the newline
/// byte, empty segments kept.
pub open spec fn doc_segments(b: Seq<u8>) -> Seq<Seq<u8>> {
    split_on(b, NEWLINE)
}

/// The word contents of a byte buffer: within each sentence segment, the
/// non-empty space-delimited substrings, in order.
pub open spec fn doc_words(b: Seq<u8>) -> Seq<Seq<u8>> {
    words_of_segments(doc_segments(b))
}

/// The sentence spans of a byte buffer, as ranges of word-index positions.
pub open spec fn doc_spans(b: Seq<u8>) -> Seq<(int, int)> {
    line_spans(doc_segments(b))
}

/// The views of a sequence of tokens.
pub open spec fn token_views<L>(ts: Seq<Token<L>>) -> Seq<TokenView> {
    ts.map_values(|t: Token<L>| t@)
}

/// Word-token views holding the given byte contents.
pub open spec fn word_token_views(ws: Seq<Seq<u8>>) -> Seq<TokenView> {
    ws.map_values(|w: Seq<u8>| TokenView::Word(w))
}

proof fn lemma_nonempty_words_push(ws: Seq<Seq<u8>>, x: Seq<u8>)
    ensures
        x.len() > 0 ==> nonempty_words(ws.push(x)) == nonempty_words(ws).push(x),
        x.len() == 0 ==> nonempty_words(ws.push(x)) == nonempty_words(ws),
{
    assert(ws.push(x).drop_last() =~= ws);
}

proof fn lemma_words_of_segments_push(segs: Seq<Seq<u8>>, x: Seq<u8>)
    ensures
        words_of_segments(segs.push(x)) == words_of_segments(segs) + word_seqs(x),
        line_spans(segs.push(x)) == line_spans(segs).push(
            (
                words_of_segments(segs).len() as int,
                (words_of_segments(segs).len() + word_seqs(x).len()) as int,
            ),
        ),
{
    assert(segs.push(x).drop_last() =~= segs);
}

/// Copies the bytes of `v` in the range `[lo, hi)`.
fn copy_range(v: &Vec<u8>, lo: usize, hi: usize) -> (r: Vec<u8>)
    requires
        lo <= hi <= v@.len(),
    ensures
        r@ == v@.subrange(lo as int, hi as int),
{
    vstd::slice::slice_to_vec(vstd::slice::slice_subrange(v.as_slice(), lo, hi))
}

/// Structure of the sentence spans over the word index: one span per
/// segment; every span lies within the word index, the first starts at 0,
/// each span ends where the next begins, and the last ends at the word
/// count.
pub proof fn lemma_line_spans_bounds(segs: Seq<Seq<u8>>)
    ensures
        line_spans(segs).len() == segs.len(),
        forall|i: int|
            0 <= i < segs.len() ==> 0 <= (#[trigger] line_spans(segs)[i]).0 <= line_spans(
                segs,
            )[i].1 <= words_of_segments(segs).len(),
        forall|i: int|
            0 <= i < segs.len() - 1 ==> (#[trigger] line_spans(segs)[i]).1 == line_spans(
                segs,
            )[i + 1].0,
        segs.len() > 0 ==> line_spans(segs)[0].0 == 0,
        segs.len() > 0 ==> line_spans(segs)[segs.len() - 1].1 == words_of_segments(segs).len(),
    decreases segs.len(),
{
    if segs.len() > 0 {
        lemma_line_spans_bounds(segs.drop_last());
    }
}

/// A document: an immutable byte buffer together with the word tokens and
/// sentence spans derived from it. The buffer is split on newline bytes
/// into sentence segments, and each segment on space bytes into non-empty
/// words, each a [`Token::Word`] holding its exact byte range.
///
/// The buffer and the indices are never mutated after construction, and no
/// interface extends a document with further tokens. Accessors rebuild
/// borrowed views on demand, scoped to the borrow of the document.
#[verifier::reject_recursive_types(L)]
pub struct Document<L = DefaultLanguage> {
    bytes: Vec<u8>,
    tokens: Vec<Token<L>>,
    lines: Vec<(usize, usize)>,
}

impl<L> Document<L> {
    /// The document's byte buffer.
    pub closed spec fn bytes_view(&self) -> Seq<u8> {
        self.bytes@
    }

    /// The views of the document's word tokens, in order of appearance.
    pub closed spec fn tokens_view(&self) -> Seq<TokenView> {
        token_views(self.tokens@)
    }

    /// The document's sentence spans, as ranges of word-index positions.
    pub closed spec fn lines_view(&self) -> Seq<(int, int)> {
        spans_view(self.lines@)
    }

    /// The tokens and sentence spans are exactly those derived from the
    /// byte buffer.
    #[verifier::type_invariant]
    spec fn wf(&self) -> bool {
        &&& self.tokens_view() == word_token_views(doc_words(self.bytes@))
        &&& self.lines_view() == doc_spans(self.bytes@)
    }

    /// Builds a document from a byte buffer. Construction is total: any
    /// byte content is accepted and stored verbatim, with no encoding
    /// validation; carriage-return bytes are not stripped and stay attached
    /// to the word they end.
    #[verifier::loop_isolation(false)]
    pub fn from_bytes(bytes: Vec<u8>) -> (d: Document<L>)
        ensures
            d.bytes_view() == bytes@,
            d.tokens_view() == word_token_views(doc_words(bytes@)),
            d.lines_view() == doc_spans(bytes@),
    {
        let n = bytes.len();
        let segs = split_spans(&bytes, 0, n, NEWLINE);
        let ghost segcont = span_contents(bytes@, spans_view(segs@));
        proof {
            assert(bytes@.subrange(0, n as int) =~= bytes@);
            assert(segcont == doc_segments(bytes@));
        }
        let mut tokens: Vec<Token<L>> = Vec::new();
        let mut lines: Vec<(usize, usize)> = Vec::new();
        let mut k: usize = 0;
        proof {
            assert(segcont.take(0) =~= Seq::<Seq<u8>>::empty());
            assert(token_views(tokens@) =~= word_token_views(words_of_segments(segcont.take(0))));
            assert(spans_view(lines@) =~= line_spans(segcont.take(0)));
        }
        while k < segs.len()
            invariant
                k <= segs@.len(),
                token_views(tokens@) == word_token_views(
                    words_of_segments(segcont.take(k as int)),
                ),
                spans_view(lines@) == line_spans(segcont.take(k as int)),
            decreases segs@.len() - k,
        {
            let seg = segs[k];
            let ghost segseq = segcont[k as int];
            let s = tokens.len();
            let wspans = split_spans(&bytes, seg.0, seg.1, SPACE);
            let ghost wcont = span_contents(bytes@, spans_view(wspans@));
            proof {
                assert(segseq == bytes@.subrange(seg.0 as int, seg.1 as int));
                assert(wcont == split_on(segseq, SPACE));
                assert(wcont.take(0) =~= Seq::<Seq<u8>>::empty());
                assert(words_of_segments(segcont.take(k as int)) + nonempty_words(wcont.take(0))
                    =~= words_of_segments(segcont.take(k as int)));
            }
            let mut j: usize = 0;
            while j < wspans.len()
                invariant
                    j <= wspans@.len(),
                    token_views(tokens@) == word_token_views(
                        words_of_segments(segcont.take(k as int)) + nonempty_words(
                            wcont.take(j as int),
                        ),
                    ),
                decreases wspans@.len() - j,
            {
                let w = wspans[j];
                let ghost t0 = tokens@;
                let ghost done = words_of_segments(segcont.take(k as int)) + nonempty_words(
                    wcont.take(j as int),
                );
                if w.1 > w.0 {
                    let word_bytes = copy_range(&bytes, w.0, w.1);
                    tokens.push(Token::word(word_bytes));
                }
                proof {
                    assert(wcont[j as int] == bytes@.subrange(w.0 as int, w.1 as int));
                    assert(wcont.take(j + 1 as int) =~= wcont.take(j as int).push(
                        wcont[j as int],
                    ));
                    lemma_nonempty_words_push(wcont.take(j as int), wcont[j as int]);
                    if w.1 > w.0 {
                        assert(wcont[j as int].len() > 0);
                        assert(token_views(tokens@) =~= token_views(t0).push(
                            TokenView::Word(wcont[j as int]),
                        ));
                        assert(words_of_segments(segcont.take(k as int)) + nonempty_words(
                            wcont.take(j + 1 as int),
                        ) =~= done.push(wcont[j as int]));
                        assert(word_token_views(done.push(wcont[j as int])) =~= word_token_views(
                            done,
                        ).push(TokenView::Word(wcont[j as int])));
                    } else {
                        assert(wcont[j as int].len() == 0);
                        assert(words_of_segments(segcont.take(k as int)) + nonempty_words(
                            wcont.take(j + 1 as int),
                        ) =~= done);
                    }
                }
                j = j + 1;
            }
            let e = tokens.len();
            let ghost l0 = lines@;
            lines.push((s, e));
            k = k + 1;
            proof {
                assert(wcont.take(wcont.len() as int) =~= wcont);
                assert(nonempty_words(wcont) == word_seqs(segseq));
                assert(segcont.take(k as int) =~= segcont.take(k - 1).push(segseq));
                lemma_words_of_segments_push(segcont.take(k - 1), segseq);
                assert(s as int == words_of_segments(segcont.take(k - 1)).len());
                assert(e as int == words_of_segments(segcont.take(k as int)).len());
                assert(spans_view(lines@) =~= spans_view(l0).push((s as int, e as int)));
                assert(token_views(tokens@) == word_token_views(
                    words_of_segments(segcont.take(k as int)),
                ));
            }
        }
        proof {
            assert(segcont.take(segs@.len() as int) =~= segcont);
        }
        Document { bytes, tokens, lines }
    }

    /// All word tokens of the document, in order of appearance in the
    /// buffer: within each newline-delimited segment, the non-empty
    /// space-delimited substrings.
    pub fn tokens(&self) -> (r: &Vec<Token<L>>)
        ensures
            token_views(r@) == self.tokens_view(),
            self.tokens_view() == word_token_views(doc_words(self.bytes_view())),
    {
        proof {
            use_type_invariant(self);
        }
        &self.tokens
    }

    /// The sentences of the document: for each sentence span, in order, the
    /// word tokens of that sentence. The sentence spans partition the word
    /// index.
    #[verifier::loop_isolation(false)]
    pub fn lines(&self) -> (r: Vec<Line<L>>)
        ensures
            self.tokens_view() == word_token_views(doc_words(self.bytes_view())),
            self.lines_view() == doc_spans(self.bytes_view()),
            r@.len() == self.lines_view().len(),
            forall|i: int|
                0 <= i < r@.len() ==> token_views((#[trigger] r@[i])@) == self.tokens_view()
                    .subrange(self.lines_view()[i].0, self.lines_view()[i].1),
    {
        proof {
            use_type_invariant(self);
            lemma_line_spans_bounds(doc_segments(self.bytes@));
        }
        let mut r: Vec<Line<L>> = Vec::new();
        let mut i: usize = 0;
        while i < self.lines.len()
            invariant
                i <= self.lines@.len(),
                r@.len() == i,
                forall|m: int|
                    0 <= m < i ==> token_views((#[trigger] r@[m])@) == token_views(
                        self.tokens@,
                    ).subrange(spans_view(self.lines@)[m].0, spans_view(self.lines@)[m].1),
            decreases self.lines@.len() - i,
        {
            let p = self.lines[i];
            proof {
                use_type_invariant(self);
                lemma_line_spans_bounds(doc_segments(self.bytes@));
                assert(spans_view(self.lines@)[i as int] == (p.0 as int, p.1 as int));
                assert(spans_view(self.lines@)[i as int] == line_spans(
                    doc_segments(self.bytes@),
                )[i as int]);
                assert(self.tokens@.len() == token_views(self.tokens@).len());
                assert(token_views(self.tokens@).len() == word_token_views(
                    doc_words(self.bytes@),
                ).len());
                assert(self.tokens@.len() == words_of_segments(doc_segments(self.bytes@)).len());
                assert(p.0 <= p.1);
                assert(p.1 as int <= self.tokens@.len());
            }
            let mut line: Vec<Token<L>> = Vec::new();
            let mut j = p.0;
            proof {
                assert(token_views(line@) =~= token_views(self.tokens@).subrange(
                    p.0 as int,
                    p.0 as int,
                ));
            }
            while j < p.1
                invariant
                    p.0 <= j <= p.1,
                    token_views(line@) == token_views(self.tokens@).subrange(
                        p.0 as int,
                        j as int,
                    ),
                decreases p.1 - j,
            {
                let ghost line0 = line@;
                line.push(self.tokens[j].clone());
                proof {
                    assert(token_views(line@) =~= token_views(line0).push(
                        self.tokens@[j as int]@,
                    ));
                    assert(token_views(self.tokens@).subrange(p.0 as int, j + 1 as int)
                        =~= token_views(self.tokens@).subrange(p.0 as int, j as int).push(
                        self.tokens@[j as int]@,
                    ));
                }
                j = j + 1;
            }
            let ghost r0 = r@;
            r.push(line);
            i = i + 1;
        }
        r
    }
}

/// Consumes a token sequence and produces the same sequence: the unigrams
/// of a stream are its tokens.
pub fn unigrams<L: Language>(tokens: Vec<Token<L>>) -> (r: Vec<Token<L>>)
    ensures
        r@ == tokens@,
{
    tokens
}

/// All bigrams (adjacent pairs of tokens) of the input stream, in order.
/// There is one bigram fewer than tokens, and each pair's second component
/// equals the next pair's first.
#[verifier::loop_isolation(false)]
pub fn bigrams<L: Language>(tokens: &Vec<Token<L>>) -> (r: Vec<Bigram<L>>)
    ensures
        tokens@.len() == 0 ==> r@.len() == 0,
        tokens@.len() >= 1 ==> r@.len() == tokens@.len() - 1,
        forall|i: int|
            0 <= i < r@.len() ==> (#[trigger] r@[i]).0@ == token_views(tokens@)[i] && r@[i].1@
                == token_views(tokens@)[i + 1],
        forall|i: int| 0 <= i < r@.len() - 1 ==> (#[trigger] r@[i]).1@ == r@[i + 1].0@,
{
    let mut r: Vec<Bigram<L>> = Vec::new();
    if tokens.len() == 0 {
        return r;
    }
    let mut i: usize = 0;
    while i + 1 < tokens.len()
        invariant
            i + 1 <= tokens@.len(),
            r@.len() == i,
            forall|m: int|
                0 <= m < i ==> (#[trigger] r@[m]).0@ == token_views(tokens@)[m] && r@[m].1@
                    == token_views(tokens@)[m + 1],
        decreases tokens@.len() - i,
    {
        r.push((tokens[i].clone(), tokens[i + 1].clone()));
        i = i + 1;
    }
    r
}

/// The token views of each sentence in a list of sentences.
pub open spec fn line_token_views<L>(ls: Seq<Vec<Token<L>>>) -> Seq<Seq<TokenView>> {
    ls.map_values(|l: Vec<Token<L>>| token_views(l@))
}

/// One boundary marker, then each sentence's tokens followed by one more
/// boundary marker.
pub open spec fn padded_views(ls: Seq<Seq<TokenView>>) -> Seq<TokenView>
    decreases ls.len(),
{
    if ls.len() == 0 {
        seq![TokenView::Null]
    } else {
        padded_views(ls.drop_last()) + ls.last() + seq![TokenView::Null]
    }
}

/// The total token count of a list of sentences.
pub open spec fn total_token_count(ls: Seq<Seq<TokenView>>) -> int
    decreases ls.len(),
{
    if ls.len() == 0 {
        0
    } else {
        total_token_count(ls.drop_last()) + ls.last().len()
    }
}

/// The padded stream of a list of sentences holds one boundary marker,
/// every sentence's tokens, and one more marker for each sentence.
pub proof fn lemma_padded_len(ls: Seq<Seq<TokenView>>)
    ensures
        padded_views(ls).len() == 1 + total_token_count(ls) + ls.len(),
    decreases ls.len(),
{
    if ls.len() > 0 {
        lemma_padded_len(ls.drop_last());
    }
}

proof fn lemma_padded_views_push(ls: Seq<Seq<TokenView>>, x: Seq<TokenView>)
    ensures
        padded_views(ls.push(x)) == padded_views(ls) + x + seq![TokenView::Null],
{
    assert(ls.push(x).drop_last() =~= ls);
}

/// Consumes a list of sentences and produces all their tokens in order,
/// with a [`Token::Null`] boundary marker before the first sentence and
/// after every sentence.
#[verifier::loop_isolation(false)]
pub fn padded<L: Language>(lines: &Vec<Line<L>>) -> (r: Vec<Token<L>>)
    ensures
        token_views(r@) == padded_views(line_token_views(lines@)),
{
    let mut r: Vec<Token<L>> = Vec::new();
    r.push(Token::Null);
    proof {
        assert(line_token_views(lines@).take(0) =~= Seq::<Seq<TokenView>>::empty());
        assert(token_views(r@) =~= padded_views(line_token_views(lines@).take(0)));
    }
    let mut k: usize = 0;
    while k < lines.len()
        invariant
            k <= lines@.len(),
            token_views(r@) == padded_views(line_token_views(lines@).take(k as int)),
        decreases lines@.len() - k,
    {
        let line = &lines[k];
        proof {
            assert(token_views(line@).take(0) =~= Seq::<TokenView>::empty());
            assert(token_views(r@) + token_views(line@).take(0) =~= token_views(r@));
        }
        let mut j: usize = 0;
        while j < line.len()
            invariant
                j <= line@.len(),
                token_views(r@) == padded_views(line_token_views(lines@).take(k as int))
                    + token_views(line@).take(j as int),
            decreases line@.len() - j,
        {
            let ghost r0 = r@;
            r.push(line[j].clone());
            proof {
                assert(token_views(r@) =~= token_views(r0).push(line@[j as int]@));
                assert(token_views(line@).take(j + 1 as int) =~= token_views(line@).take(
                    j as int,
                ).push(line@[j as int]@));
                assert(padded_views(line_token_views(lines@).take(k as int)) + token_views(
                    line@,
                ).take(j + 1 as int) =~= token_views(r0).push(line@[j as int]@));
            }
            j = j + 1;
        }
        let ghost r0 = r@;
        r.push(Token::Null);
        k = k + 1;
        proof {
            assert(token_views(line@).take(line@.len() as int) =~= token_views(line@));
            assert(line_token_views(lines@).take(k as int) =~= line_token_views(lines@).take(
                k - 1,
            ).push(token_views(line@)));
            lemma_padded_views_push(line_token_views(lines@).take(k - 1), token_views(line@));
            assert(token_views(r@) =~= token_views(r0).push(TokenView::Null));
            assert(token_views(r@) =~= padded_views(line_token_views(lines@).take(k as int)));
        }
    }
    proof {
        assert(line_token_views(lines@).take(lines@.len() as int) =~= line_token_views(lines@));
    }
    r
}

/// The vocabulary filter on one token value: a token present in the
/// vocabulary passes through unchanged; any other token is replaced by the
/// unknown marker.
pub open spec fn unk_one(t: TokenView, vocab: Seq<TokenView>) -> TokenView {
    if vocab.contains(t) {
        t
    } else {
        TokenView::Unknown
    }
}

/// The vocabulary filter applied to every token of a stream, in order.
pub open spec fn unk_views(ts: Seq<TokenView>, vocab: Seq<TokenView>) -> Seq<TokenView> {
    ts.map_values(|t: TokenView| unk_one(t, vocab))
}

/// Does the vocabulary hold a token equal to `t`?
fn vocab_contains<L: Language>(vocabulary: &Vec<Token<L>>, t: &Token<L>) -> (b: bool)
    ensures
        b == token_views(vocabulary@).contains(t@),
{
    let mut i: usize = 0;
    while i < vocabulary.len()
        invariant
            i <= vocabulary@.len(),
            forall|m: int| 0 <= m < i ==> token_views(vocabulary@)[m] != t@,
        decreases vocabulary@.len() - i,
    {
        if vocabulary[i] == *t {
            proof {
                assert(token_views(vocabulary@)[i as int] == t@);
            }
            return true;
        }
        i = i + 1;
    }
    false
}

/// Consumes a token stream and a vocabulary, and produces a stream of the
/// same length and order in which every token not present in the
/// vocabulary is replaced with [`Token::Unknown`]; tokens present in the
/// vocabulary pass through unchanged.
///
/// Membership is checked with the same structural equality used elsewhere,
/// for every token alike: the synthetic `Null` and `Unknown` variants are
/// not special-cased, so a `Null` boundary marker is itself replaced by
/// `Unknown` unless the vocabulary contains `Null`. This keeps the literal
/// membership-check semantics; callers that want boundary markers kept must
/// put `Token::Null` into the vocabulary.
#[verifier::loop_isolation(false)]
pub fn unk<L: Language>(tokens: &Vec<Token<L>>, vocabulary: &Vec<Token<L>>) -> (r: Vec<Token<L>>)
    ensures
        token_views(r@) == unk_views(token_views(tokens@), token_views(vocabulary@)),
        r@.len() == tokens@.len(),
        forall|i: int|
            0 <= i < r@.len() ==> (#[trigger] token_views(r@)[i]) == TokenView::Unknown
                || token_views(vocabulary@).contains(token_views(r@)[i]),
{
    let ghost goal = unk_views(token_views(tokens@), token_views(vocabulary@));
    let mut r: Vec<Token<L>> = Vec::new();
    let mut i: usize = 0;
    proof {
        assert(token_views(r@) =~= goal.take(0));
    }
    while i < tokens.len()
        invariant
            i <= tokens@.len(),
            token_views(r@) == goal.take(i as int),
        decreases tokens@.len() - i,
    {
        let ghost r0 = r@;
        if vocab_contains(vocabulary, &tokens[i]) {
            r.push(tokens[i].clone());
        } else {
            r.push(Token::Unknown);
        }
        proof {
            assert(token_views(r@) =~= goal.take(i + 1 as int));
        }
        i = i + 1;
    }
    proof {
        assert(goal.take(tokens@.len() as int) =~= goal);
    }
    r
}

/// Round trip of the vocabulary filter: a vocabulary that contains every
/// token of the stream leaves the stream unchanged.
pub proof fn lemma_unk_roundtrip(ts: Seq<TokenView>, vocab: Seq<TokenView>)
    requires
        forall|i: int| 0 <= i < ts.len() ==> vocab.contains(#[trigger] ts[i]),
    ensures
        unk_views(ts, vocab) == ts,
{
    assert(unk_views(ts, vocab) =~= ts);
}

/// The sentence slices of a word sequence under the given spans.
pub open spec fn slice_spans(ws: Seq<TokenView>, spans: Seq<(int, int)>) -> Seq<Seq<TokenView>> {
    spans.map_values(|p: (int, int)| ws.subrange(p.0, p.1))
}

proof fn lemma_slices_flatten(ws: Seq<TokenView>, spans: Seq<(int, int)>)
    requires
        spans.len() > 0,
        forall|i: int|
            0 <= i < spans.len() ==> 0 <= (#[trigger] spans[i]).0 <= spans[i].1 <= ws.len(),
        forall|i: int| 0 <= i < spans.len() - 1 ==> (#[trigger] spans[i]).1 == spans[i + 1].0,
    ensures
        slice_spans(ws, spans).flatten() == ws.subrange(spans[0].0, spans[spans.len() - 1].1),
        spans[0].0 <= spans[spans.len() - 1].1,
    decreases spans.len(),
{
    if spans.len() == 1 {
        assert(slice_spans(ws, spans).drop_first() =~= Seq::<Seq<TokenView>>::empty());
        assert(slice_spans(ws, spans).drop_first().flatten() == Seq::<TokenView>::empty()) by {
            assert(Seq::<Seq<TokenView>>::empty().flatten() == Seq::<TokenView>::empty());
        }
        assert(slice_spans(ws, spans).first() == ws.subrange(spans[0].0, spans[0].1));
        assert(ws.subrange(spans[0].0, spans[0].1) + Seq::<TokenView>::empty() =~= ws.subrange(
            spans[0].0,
            spans[0].1,
        ));
    } else {
        let tail = spans.drop_first();
        lemma_slices_flatten(ws, tail);
        assert(slice_spans(ws, spans).drop_first() =~= slice_spans(ws, tail));
        assert(slice_spans(ws, spans).first() == ws.subrange(spans[0].0, spans[0].1));
        assert(slice_spans(ws, spans).flatten() == ws.subrange(spans[0].0, spans[0].1)
            + slice_spans(ws, tail).flatten());
        assert(tail[0] == spans[1] && tail[tail.len() - 1] == spans[spans.len() - 1]);
        assert(0 <= spans[0].0 <= spans[0].1 <= spans[spans.len() - 1].1 <= ws.len());
        assert(ws.subrange(spans[0].0, spans[0].1) + ws.subrange(
            spans[0].1,
            spans[spans.len() - 1].1,
        ) =~= ws.subrange(spans[0].0, spans[spans.len() - 1].1));
    }
}

/// The sentence spans of any byte buffer partition its word index: there is
/// at least one sentence, the first span starts at 0, each span ends where
/// the next begins, the last span ends at the word count, and concatenating
/// the sentence slices in order reproduces the word sequence exactly.
pub proof fn lemma_sentences_partition(b: Seq<u8>)
    ensures
        doc_spans(b).len() == doc_segments(b).len(),
        doc_spans(b).len() >= 1,
        doc_spans(b)[0].0 == 0,
        doc_spans(b)[doc_spans(b).len() - 1].1 == word_token_views(doc_words(b)).len(),
        forall|i: int|
            0 <= i < doc_spans(b).len() ==> 0 <= (#[trigger] doc_spans(b)[i]).0 <= doc_spans(
                b,
            )[i].1 <= word_token_views(doc_words(b)).len(),
        forall|i: int|
            0 <= i < doc_spans(b).len() - 1 ==> (#[trigger] doc_spans(b)[i]).1 == doc_spans(
                b,
            )[i + 1].0,
        slice_spans(word_token_views(doc_words(b)), doc_spans(b)).flatten() == word_token_views(
            doc_words(b),
        ),
{
    let ws = word_token_views(doc_words(b));
    let spans = doc_spans(b);
    lemma_split_on_nonempty(b, NEWLINE);
    lemma_line_spans_bounds(doc_segments(b));
    lemma_slices_flatten(ws, spans);
    assert(ws.subrange(spans[0].0, spans[spans.len() - 1].1) =~= ws);
}

proof fn lemma_nonempty_words_all(ws: Seq<Seq<u8>>)
    ensures
        forall|i: int|
            0 <= i < nonempty_words(ws).len() ==> (#[trigger] nonempty_words(ws)[i]).len() > 0,
    decreases ws.len(),
{
    if ws.len() > 0 {
        lemma_nonempty_words_all(ws.drop_last());
        let pre = nonempty_words(ws.drop_last());
        assert forall|i: int|
            0 <= i < nonempty_words(ws).len() implies (#[trigger] nonempty_words(ws)[i]).len()
            > 0 by {
            if ws.last().len() > 0 {
                assert(nonempty_words(ws) == pre.push(ws.last()));
                if i < pre.len() {
                    assert(nonempty_words(ws)[i] == pre[i]);
                } else {
                    assert(nonempty_words(ws)[i] == ws.last());
                }
            } else {
                assert(nonempty_words(ws)[i] == pre[i]);
            }
        }
    }
}

proof fn lemma_words_of_segments_nonempty(segs: Seq<Seq<u8>>)
    ensures
        forall|i: int|
            0 <= i < words_of_segments(segs).len() ==> (#[trigger] words_of_segments(
                segs,
            )[i]).len() > 0,
    decreases segs.len(),
{
    if segs.len() > 0 {
        lemma_words_of_segments_nonempty(segs.drop_last());
        lemma_nonempty_words_all(split_on(segs.last(), SPACE));
        let pre = words_of_segments(segs.drop_last());
        let last_words = word_seqs(segs.last());
        assert forall|i: int|
            0 <= i < words_of_segments(segs).len() implies (#[trigger] words_of_segments(
            segs,
        )[i]).len() > 0 by {
            assert(words_of_segments(segs) == pre + last_words);
            if i < pre.len() {
                assert(words_of_segments(segs)[i] == pre[i]);
            } else {
                assert(words_of_segments(segs)[i] == last_words[i - pre.len()]);
            }
        }
    }
}

/// Every word of a document is non-empty: splitting discards the empty
/// substrings that consecutive, leading or trailing spaces would produce.
pub proof fn lemma_doc_words_nonempty(b: Seq<u8>)
    ensures
        forall|i: int| 0 <= i < doc_words(b).len() ==> (#[trigger] doc_words(b)[i]).len() > 0,
{
    lemma_words_of_segments_nonempty(doc_segments(b));
}

} // verus!

