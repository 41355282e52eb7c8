//! The tokenizer pipeline: turns raw text into positioned tokens.
//!
//! Three strategies are offered: splitting at ASCII white space, keeping the
//! whole value as one token, and dictionary-based segmentation for scripts
//! that do not separate words.

use crate::text::{is_slice_range, lemma_boundary_after_ascii, slice_chars, slice_text};
use jieba_rs::Jieba;
use jieba_rs::TokenizeMode;
use vstd::prelude::*;
use vstd::string::*;
use vstd::utf8::*;

verus! {

#[verifier::external_type_specification]
#[verifier::external_body]
pub struct ExJieba(jieba_rs::Jieba);

/// The longest text, in bytes, that is handed to the dictionary segmenter.
pub const MAX_SEGMENTED_LEN: usize = 0xffff_ffff;

/// One token of a text.
#[derive(Debug, PartialEq, Eq)]
pub struct Token {
    /// The characters of the token.
    pub text: String,
    /// Byte offset of the token's first character in the text.
    pub offset_from: usize,
    /// Byte offset just behind the token's last character.
    pub offset_to: usize,
    /// Index of the token in its stream.
    pub position: usize,
    /// Number of positions the token occupies.
    pub position_length: usize,
}

/// The mathematical value of a [`Token`].
pub struct TokenView {
    pub text: Seq<char>,
    pub offset_from: int,
    pub offset_to: int,
    pub position: int,
    pub position_length: int,
}

impl View for Token {
    type V = TokenView;

    open spec fn view(&self) -> TokenView {
        TokenView {
            text: self.text@,
            offset_from: self.offset_from as int,
            offset_to: self.offset_to as int,
            position: self.position as int,
            position_length: self.position_length as int,
        }
    }
}

/// The values of a sequence of tokens.
pub open spec fn token_views(tokens: Seq<Token>) -> Seq<TokenView> {
    Seq::new(tokens.len(), |i: int| tokens[i]@)
}

/// The token that covers `spans[i]` of the text encoded by `bytes`.
pub open spec fn token_at(bytes: Seq<u8>, spans: Seq<(usize, usize)>, i: int) -> TokenView {
    TokenView {
        text: slice_chars(bytes, spans[i].0 as int, spans[i].1 as int),
        offset_from: spans[i].0 as int,
        offset_to: spans[i].1 as int,
        position: i,
        position_length: 1,
    }
}

/// The token stream that a list of byte spans stands for: one token per
/// span, in order, at consecutive positions.
pub open spec fn tokens_of(bytes: Seq<u8>, spans: Seq<(usize, usize)>) -> Seq<TokenView> {
    Seq::new(spans.len(), |i: int| token_at(bytes, spans, i))
}

/// Every span is a range of `bytes` between character boundaries.
pub open spec fn spans_in_text(bytes: Seq<u8>, spans: Seq<(usize, usize)>) -> bool {
    forall|i: int|
        0 <= i < spans.len() ==> is_slice_range(
            bytes,
            (#[trigger] spans[i]).0 as int,
            spans[i].1 as int,
        )
}

/// Every token lies in the text: its offsets are byte offsets between
/// characters, its text is the slice between them, its position is its index
/// and it occupies one position.
pub open spec fn tokens_in_text(bytes: Seq<u8>, tokens: Seq<TokenView>) -> bool {
    forall|i: int|
        0 <= i < tokens.len() ==> {
            let token = #[trigger] tokens[i];
            &&& is_slice_range(bytes, token.offset_from, token.offset_to)
            &&& token.text == slice_chars(bytes, token.offset_from, token.offset_to)
            &&& token.position == i
            &&& token.position_length == 1
        }
}

/// The tokens of spans that lie in the text lie in the text.
pub proof fn lemma_tokens_in_text(bytes: Seq<u8>, spans: Seq<(usize, usize)>)
    requires
        spans_in_text(bytes, spans),
    ensures
        tokens_in_text(bytes, tokens_of(bytes, spans)),
{
}

/// Builds the token stream for a list of byte spans of `text`.
pub fn tokens_from_spans(text: &str, spans: &Vec<(usize, usize)>) -> (tokens: Vec<Token>)
    requires
        spans_in_text(text.spec_bytes(), spans@),
    ensures
        token_views(tokens@) == tokens_of(text.spec_bytes(), spans@),
        tokens_in_text(text.spec_bytes(), token_views(tokens@)),
{
    proof {
        lemma_tokens_in_text(text.spec_bytes(), spans@);
    }
    let mut tokens: Vec<Token> = Vec::new();
    let mut i: usize = 0;
    while i < spans.len()
        invariant
            i <= spans.len(),
            tokens.len() == i,
            spans_in_text(text.spec_bytes(), spans@),
            forall|k: int| 0 <= k < i ==> (#[trigger] tokens[k])@ == token_at(text.spec_bytes(), spans@, k),
        decreases spans.len() - i,
    {
        let span = spans[i];
        let word = slice_text(text, span.0, span.1);
        tokens.push(
            Token {
                text: word,
                offset_from: span.0,
                offset_to: span.1,
                position: i,
                position_length: 1,
            },
        );
        i = i + 1;
    }
    tokens
}

/// ASCII white space: space, tab, line feed, form feed, carriage return.
pub open spec fn is_space(b: u8) -> bool {
    b == 0x20 || b == 0x09 || b == 0x0a || b == 0x0c || b == 0x0d
}

/// A word starts at `i`: a byte that is no white space, at the start of the
/// text or behind white space.
pub open spec fn starts_word(bytes: Seq<u8>, i: int) -> bool {
    &&& 0 <= i < bytes.len()
    &&& !is_space(bytes[i])
    &&& (i == 0 || is_space(bytes[i - 1]))
}

/// The first white space at or behind `i`, or the end of the text.
pub open spec fn word_end(bytes: Seq<u8>, i: int) -> int
    decreases bytes.len() - i,
{
    if i < 0 || i >= bytes.len() || is_space(bytes[i]) {
        i
    } else {
        word_end(bytes, i + 1)
    }
}

/// The words that start before byte `n`: one span per word start, in order,
/// each reaching to the next white space or to the end of the text.
pub open spec fn word_spans(bytes: Seq<u8>, n: int) -> Seq<(usize, usize)>
    decreases n,
{
    if n <= 0 {
        seq![]
    } else if starts_word(bytes, n - 1) {
        word_spans(bytes, n - 1).push(((n - 1) as usize, word_end(bytes, n - 1) as usize))
    } else {
        word_spans(bytes, n - 1)
    }
}

/// The maximal runs of bytes of the text that are no white space.
pub open spec fn whitespace_spans(bytes: Seq<u8>) -> Seq<(usize, usize)> {
    word_spans(bytes, bytes.len() as int)
}

/// The single span that covers the whole text.
pub open spec fn raw_spans(bytes: Seq<u8>) -> Seq<(usize, usize)> {
    seq![(0usize, bytes.len() as usize)]
}

/// The start of the word that holds byte `i`.
pub open spec fn word_start(bytes: Seq<u8>, i: int) -> int
    decreases i,
{
    if i <= 0 || is_space(bytes[i - 1]) {
        i
    } else {
        word_start(bytes, i - 1)
    }
}

proof fn lemma_word_end(bytes: Seq<u8>, i: int)
    requires
        0 <= i <= bytes.len(),
    ensures
        i <= word_end(bytes, i) <= bytes.len(),
        word_end(bytes, i) == bytes.len() || is_space(bytes[word_end(bytes, i)]),
        forall|j: int| i <= j < word_end(bytes, i) ==> !is_space(#[trigger] bytes[j]),
    decreases bytes.len() - i,
{
    if i < bytes.len() && !is_space(bytes[i]) {
        lemma_word_end(bytes, i + 1);
    }
}

proof fn lemma_word_start(bytes: Seq<u8>, i: int)
    requires
        0 <= i < bytes.len(),
        !is_space(bytes[i]),
    ensures
        0 <= word_start(bytes, i) <= i,
        starts_word(bytes, word_start(bytes, i)),
        word_end(bytes, word_start(bytes, i)) == word_end(bytes, i),
    decreases i,
{
    if i > 0 && !is_space(bytes[i - 1]) {
        lemma_word_start(bytes, i - 1);
    }
}

proof fn lemma_word_listed(bytes: Seq<u8>, n: int, start: int)
    requires
        starts_word(bytes, start),
        start < n,
    ensures
        exists|k: int|
            0 <= k < word_spans(bytes, n).len() && #[trigger] word_spans(bytes, n)[k] == (
                start as usize,
                word_end(bytes, start) as usize,
            ),
    decreases n,
{
    let spans = word_spans(bytes, n);
    if start == n - 1 {
        assert(spans[spans.len() - 1] == (start as usize, word_end(bytes, start) as usize));
    } else {
        lemma_word_listed(bytes, n - 1, start);
        let shorter = word_spans(bytes, n - 1);
        let k = choose|k: int|
            0 <= k < shorter.len() && #[trigger] shorter[k] == (
                start as usize,
                word_end(bytes, start) as usize,
            );
        assert(spans[k] == shorter[k]);
    }
}

proof fn lemma_listed_word(bytes: Seq<u8>, n: int, k: int)
    requires
        0 <= k < word_spans(bytes, n).len(),
    ensures
        exists|start: int|
            starts_word(bytes, start) && start < n && word_spans(bytes, n)[k] == (
                start as usize,
                #[trigger] word_end(bytes, start) as usize,
            ),
    decreases n,
{
    let spans = word_spans(bytes, n);
    if n > 0 {
        if !(starts_word(bytes, n - 1) && k == spans.len() - 1) {
            lemma_listed_word(bytes, n - 1, k);
        }
    }
}

/// The white-space tokenizer cuts a text into its words: every span is a
/// maximal run of bytes that are no white space, and every byte that is no
/// white space lies in one of the spans.
pub proof fn lemma_whitespace_spans_are_the_words(bytes: Seq<u8>)
    requires
        bytes.len() <= usize::MAX,
    ensures
        forall|k: int|
            0 <= k < whitespace_spans(bytes).len() ==> {
                let span = #[trigger] whitespace_spans(bytes)[k];
                &&& 0 <= span.0 < span.1 <= bytes.len()
                &&& (span.0 == 0 || is_space(bytes[span.0 - 1]))
                &&& (span.1 == bytes.len() || is_space(bytes[span.1 as int]))
                &&& forall|j: int| span.0 <= j < span.1 ==> !is_space(#[trigger] bytes[j])
            },
        forall|i: int|
            0 <= i < bytes.len() && !is_space(#[trigger] bytes[i]) ==> exists|k: int|
                0 <= k < whitespace_spans(bytes).len() && (#[trigger] whitespace_spans(
                    bytes,
                )[k]).0 <= i < whitespace_spans(bytes)[k].1,
{
    let spans = whitespace_spans(bytes);
    let n = bytes.len() as int;
    assert forall|k: int| 0 <= k < spans.len() implies {
        let span = #[trigger] spans[k];
        &&& 0 <= span.0 < span.1 <= bytes.len()
        &&& (span.0 == 0 || is_space(bytes[span.0 - 1]))
        &&& (span.1 == bytes.len() || is_space(bytes[span.1 as int]))
        &&& forall|j: int| span.0 <= j < span.1 ==> !is_space(#[trigger] bytes[j])
    } by {
        lemma_listed_word(bytes, n, k);
        let start = choose|start: int|
            starts_word(bytes, start) && start < n && spans[k] == (
                start as usize,
                #[trigger] word_end(bytes, start) as usize,
            );
        lemma_word_end(bytes, start);
    }
    assert forall|i: int| 0 <= i < bytes.len() && !is_space(#[trigger] bytes[i]) implies exists|
        k: int,
    |
        0 <= k < spans.len() && (#[trigger] spans[k]).0 <= i < spans[k].1 by {
        lemma_word_start(bytes, i);
        let start = word_start(bytes, i);
        lemma_word_end(bytes, i);
        lemma_word_listed(bytes, n, start);
    }
}

/// Tells whether a byte is ASCII white space.
pub fn is_space_byte(b: u8) -> (r: bool)
    ensures
        r == is_space(b),
{
    b == 0x20 || b == 0x09 || b == 0x0a || b == 0x0c || b == 0x0d
}

/// Splits a byte string at ASCII white space.
pub fn split_words(bytes: &[u8]) -> (spans: Vec<(usize, usize)>)
    ensures
        spans@ == whitespace_spans(bytes@),
        forall|k: int|
            0 <= k < spans.len() ==> {
                &&& starts_word(bytes@, (#[trigger] spans[k]).0 as int)
                &&& spans[k].0 < spans[k].1 <= bytes.len()
                &&& spans[k].1 == word_end(bytes@, spans[k].0 as int)
                &&& (spans[k].1 == bytes.len() || is_space(bytes[spans[k].1 as int]))
            },
{
    let ghost b = bytes@;
    let mut spans: Vec<(usize, usize)> = Vec::new();
    let mut i: usize = 0;
    while i < bytes.len()
        invariant
            bytes@ == b,
            i <= b.len(),
            spans@ == word_spans(b, i as int),
            i < b.len() && !is_space(b[i as int]) ==> i == 0 || is_space(b[i - 1]),
            forall|k: int|
                0 <= k < spans.len() ==> {
                    &&& starts_word(b, (#[trigger] spans[k]).0 as int)
                    &&& spans[k].0 < spans[k].1 <= b.len()
                    &&& spans[k].1 == word_end(b, spans[k].0 as int)
                    &&& (spans[k].1 == b.len() || is_space(b[spans[k].1 as int]))
                },
        decreases b.len() - i,
    {
        if is_space_byte(bytes[i]) {
            i = i + 1;
        } else {
            let start = i;
            let mut j: usize = i + 1;
            while j < bytes.len() && !is_space_byte(bytes[j])
                invariant
                    bytes@ == b,
                    start < j <= b.len(),
                    !is_space(b[start as int]),
                    word_end(b, start as int) == word_end(b, j as int),
                    word_spans(b, j as int) == word_spans(b, start + 1),
                    !is_space(b[j - 1]),
                decreases b.len() - j,
            {
                j = j + 1;
            }
            spans.push((start, j));
            i = j;
        }
    }
    spans
}

/// Splits `text` at ASCII white space.
pub fn split_whitespace_spans(text: &str) -> (spans: Vec<(usize, usize)>)
    ensures
        spans@ == whitespace_spans(text.spec_bytes()),
        spans_in_text(text.spec_bytes(), spans@),
{
    let spans = split_words(text.as_bytes());
    proof {
        let b = text.spec_bytes();
        encode_utf8_valid_utf8(text@);
        is_char_boundary_start_end_of_seq(b);
        assert forall|k: int| 0 <= k < spans.len() implies is_slice_range(
            b,
            (#[trigger] spans@[k]).0 as int,
            spans@[k].1 as int,
        ) by {
            let from = spans@[k].0 as int;
            let to = spans@[k].1 as int;
            if from > 0 {
                lemma_boundary_after_ascii(b, from - 1);
            }
            if to < b.len() {
                is_char_boundary_iff_not_is_continuation_byte(b, to);
            }
        }
    }
    spans
}

/// What the dictionary segmenter returns for a text: the byte span of each
/// word it cuts, in order.
pub uninterp spec fn jieba_spans(jieba: Jieba, text: Seq<char>, hmm: bool) -> Seq<(usize, usize)>;

/// `jieba_rs::Jieba::tokenize` in its default mode, reduced to the byte
/// offsets of the words. Each word it returns is a sub-slice of the text, so
/// each span lies in the text between character boundaries. Texts of more
/// than `MAX_SEGMENTED_LEN` bytes are left out: the segmenter keeps byte
/// offsets in 32 bits.
#[verifier::external_body]
fn segment(jieba: &Jieba, text: &str, hmm: bool) -> (spans: Vec<(usize, usize)>)
    requires
        text.spec_bytes().len() <= MAX_SEGMENTED_LEN,
    ensures
        spans@ == jieba_spans(*jieba, text@, hmm),
        spans_in_text(text.spec_bytes(), spans@),
{
    jieba.tokenize(text, TokenizeMode::Default, hmm).into_iter().map(
        |word| (word.byte_start, word.byte_end),
    ).collect()
}

/// `jieba_rs::Jieba::new`: a segmenter with the dictionary that ships with
/// it. Nothing is claimed of the dictionary.
#[verifier::external_body]
fn load_jieba() -> Jieba {
    Jieba::new()
}

/// A dictionary-based tokenizer for text without word separators.
pub struct JiebaTokenizer {
    jieba: Jieba,
}

/// A cursor over the tokens of one text.
pub struct JiebaTokenStream {
    tokens: Vec<Token>,
    consumed: usize,
}

impl JiebaTokenizer {
    /// Loads the built-in dictionary.
    pub fn new() -> (tokenizer: Self) {
        JiebaTokenizer { jieba: load_jieba() }
    }

    /// The spans of the words that the segmenter cuts from `text`.
    pub closed spec fn segmented(&self, text: Seq<char>) -> Seq<(usize, usize)> {
        jieba_spans(self.jieba, text, true)
    }

    /// The spans into which this tokenizer cuts `text`: the words of the
    /// segmenter. A text of more than `MAX_SEGMENTED_LEN` bytes is not
    /// segmented and is kept as one token.
    pub open spec fn spans(&self, text: Seq<char>) -> Seq<(usize, usize)> {
        if encode_utf8(text).len() <= MAX_SEGMENTED_LEN {
            self.segmented(text)
        } else {
            raw_spans(encode_utf8(text))
        }
    }

    /// The token stream of `text`: the segmenter's words in order, with byte
    /// offsets and consecutive positions.
    pub open spec fn tokens(&self, text: Seq<char>) -> Seq<TokenView> {
        tokens_of(encode_utf8(text), self.spans(text))
    }

    /// Cuts `text` into the byte spans of its words.
    pub fn cut(&self, text: &str) -> (spans: Vec<(usize, usize)>)
        ensures
            spans@ == self.spans(text@),
            spans_in_text(text.spec_bytes(), spans@),
    {
        let len = text.as_bytes().len();
        if len <= MAX_SEGMENTED_LEN {
            segment(&self.jieba, text, true)
        } else {
            proof {
                encode_utf8_valid_utf8(text@);
                is_char_boundary_start_end_of_seq(text.spec_bytes());
            }
            vec![(0usize, len)]
        }
    }

    /// Segments `text` and returns its tokens. Each token lies in the text:
    /// its offsets are byte offsets between characters and its text is the
    /// slice between them.
    pub fn tokenize(&self, text: &str) -> (tokens: Vec<Token>)
        ensures
            token_views(tokens@) == self.tokens(text@),
            spans_in_text(text.spec_bytes(), self.spans(text@)),
            tokens_in_text(text.spec_bytes(), token_views(tokens@)),
    {
        let spans = self.cut(text);
        tokens_from_spans(text, &spans)
    }

    /// Segments `text` and returns a cursor that stands before its first
    /// token.
    pub fn token_stream(&self, text: &str) -> (stream: JiebaTokenStream)
        ensures
            stream.all() == self.tokens(text@),
            stream.consumed() == 0,
            spans_in_text(text.spec_bytes(), self.spans(text@)),
            tokens_in_text(text.spec_bytes(), stream.all()),
    {
        JiebaTokenStream { tokens: self.tokenize(text), consumed: 0 }
    }
}

impl JiebaTokenStream {
    /// A cursor before the first of `tokens`.
    pub fn new(tokens: Vec<Token>) -> (stream: Self)
        ensures
            stream.all() == token_views(tokens@),
            stream.consumed() == 0,
    {
        JiebaTokenStream { tokens, consumed: 0 }
    }

    #[verifier::type_invariant]
    spec fn inv(self) -> bool {
        self.consumed <= self.tokens.len()
    }

    /// All tokens of the stream, whether consumed or not.
    pub closed spec fn all(&self) -> Seq<TokenView> {
        token_views(self.tokens@)
    }

    /// How many tokens the cursor has moved onto so far.
    pub closed spec fn consumed(&self) -> nat {
        self.consumed as nat
    }

    /// Moves to the next token; `false` when none is left.
    pub fn advance(&mut self) -> (moved: bool)
        ensures
            final(self).all() == old(self).all(),
            moved == (old(self).consumed() < old(self).all().len()),
            final(self).consumed() == if moved {
                old(self).consumed() + 1
            } else {
                old(self).consumed()
            },
            old(self).consumed() <= old(self).all().len(),
            final(self).consumed() <= final(self).all().len(),
    {
        proof {
            use_type_invariant(&*self);
        }
        if self.consumed < self.tokens.len() {
            self.consumed = self.consumed + 1;
            true
        } else {
            false
        }
    }

    /// The token the cursor stands on, for changing it in place.
    pub fn token_mut(&mut self) -> (token: &mut Token)
        requires
            old(self).consumed() >= 1,
        ensures
            old(self).consumed() <= old(self).all().len(),
            (*token)@ == old(self).all()[old(self).consumed() - 1],
            final(self).consumed() == old(self).consumed(),
            final(self).all() == old(self).all().update(
                old(self).consumed() - 1,
                (*final(token))@,
            ),
    {
        proof {
            use_type_invariant(&*self);
        }
        let at = self.consumed - 1;
        let token = &mut self.tokens[at];
        token
    }

    /// The token the cursor stands on.
    pub fn token(&self) -> (token: &Token)
        requires
            self.consumed() >= 1,
        ensures
            self.consumed() <= self.all().len(),
            token@ == self.all()[self.consumed() - 1],
    {
        proof {
            use_type_invariant(self);
        }
        &self.tokens[self.consumed - 1]
    }
}

/// The tokenization strategy of a field.
#[derive(Clone, Copy, PartialEq, Eq, Debug, Structural)]
pub enum TokenizerKind {
    /// Split at ASCII white space.
    Whitespace,
    /// Keep the whole value as a single token.
    Raw,
    /// Segment with the dictionary.
    Jieba,
}

/// The tokenizers that an index writer has at hand.
pub struct Analyzer {
    jieba: Option<JiebaTokenizer>,
}

impl Analyzer {
    /// An analyzer; the dictionary is loaded only when asked for.
    pub fn new(with_dictionary: bool) -> (analyzer: Self)
        ensures
            analyzer.has_dictionary() == with_dictionary,
    {
        if with_dictionary {
            Analyzer { jieba: Some(JiebaTokenizer::new()) }
        } else {
            Analyzer { jieba: None }
        }
    }

    /// The dictionary is loaded.
    pub closed spec fn has_dictionary(&self) -> bool {
        self.jieba is Some
    }

    /// This analyzer can run the tokenizer `kind`.
    pub open spec fn supports(&self, kind: TokenizerKind) -> bool {
        kind == TokenizerKind::Jieba ==> self.has_dictionary()
    }

    /// The spans into which the dictionary tokenizer cuts `text`: those of
    /// [`JiebaTokenizer::spans`].
    pub closed spec fn dictionary_spans(&self, text: Seq<char>) -> Seq<(usize, usize)> {
        self.jieba->0.spans(text)
    }

    /// The spans into which the tokenizer `kind` cuts `text`.
    pub open spec fn spans(&self, kind: TokenizerKind, text: Seq<char>) -> Seq<(usize, usize)> {
        let bytes = encode_utf8(text);
        match kind {
            TokenizerKind::Whitespace => whitespace_spans(bytes),
            TokenizerKind::Raw => raw_spans(bytes),
            TokenizerKind::Jieba => self.dictionary_spans(text),
        }
    }

    /// The token stream of `text` under the tokenizer `kind`.
    pub open spec fn tokens(&self, kind: TokenizerKind, text: Seq<char>) -> Seq<TokenView> {
        tokens_of(encode_utf8(text), self.spans(kind, text))
    }

    /// Cuts `text` into byte spans with the tokenizer `kind`.
    pub fn cut(&self, kind: TokenizerKind, text: &str) -> (spans: Vec<(usize, usize)>)
        requires
            self.supports(kind),
        ensures
            spans@ == self.spans(kind, text@),
            spans_in_text(text.spec_bytes(), spans@),
    {
        proof {
            encode_utf8_valid_utf8(text@);
            is_char_boundary_start_end_of_seq(text.spec_bytes());
        }
        let len = text.as_bytes().len();
        match kind {
            TokenizerKind::Whitespace => split_whitespace_spans(text),
            TokenizerKind::Raw => vec![(0usize, len)],
            TokenizerKind::Jieba => match &self.jieba {
                Some(tokenizer) => tokenizer.cut(text),
                None => vec![(0usize, len)],
            },
        }
    }

    /// Tokenizes `text` with the tokenizer `kind`. The result is a fresh
    /// sequence that depends on the analyzer, the kind and the text alone.
    /// Each token lies in the text: its offsets are byte offsets between
    /// characters and its text is the slice between them.
    pub fn tokenize(&self, kind: TokenizerKind, text: &str) -> (tokens: Vec<Token>)
        requires
            self.supports(kind),
        ensures
            token_views(tokens@) == self.tokens(kind, text@),
            spans_in_text(text.spec_bytes(), self.spans(kind, text@)),
            tokens_in_text(text.spec_bytes(), token_views(tokens@)),
    {
        let spans = self.cut(kind, text);
        tokens_from_spans(text, &spans)
    }
}

} // verus!
