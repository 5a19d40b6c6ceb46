use tantivy::tokenizer::{Language, RawTokenizer, Stemmer, TokenStream};
use vstd::prelude::*;
use vstd::string::StrSliceExecFns;
use vstd::utf8::is_ascii_chars;

use crate::greek_lower_caser::{ascii_lower, ascii_lower_of, fold, GreekLowerCaser};
use crate::text::{chars_of, string_of};
use crate::tokenizer::{
    lemma_prefix_tokens_grow, lemma_prefix_tokens_of_beginning, ngram_tokens, prefix_tokens,
    token_views, word_tokens, NgramTokenizer, Token, TokenView, WordTokenizer,
};
use crate::unicode::{char_lowercase, lowercase_of_char};

verus! {

/// The stem that the Greek stemmer gives for a word.
pub uninterp spec fn greek_stem(word: Seq<char>) -> Seq<char>;

/// Runs tantivy's `Stemmer` for `Language::Greek` on one word, handed to it whole by
/// a `RawTokenizer`, and returns the text of the token that comes out. The stem
/// depends on the word alone.
#[verifier::external_body]
pub(crate) fn stem_greek(word: &str) -> (stem: String)
    ensures
        stem@ == greek_stem(word@),
{
    let mut analyzer = tantivy::tokenizer::TextAnalyzer::builder(RawTokenizer::default())
        .filter(Stemmer::new(Language::Greek))
        .build();
    let mut stream = analyzer.token_stream(word);
    stream.advance();
    stream.token().text.clone()
}

/// How a text is cut into tokens.
#[derive(Clone, Copy, Debug, PartialEq, Eq)]
pub enum Tokenizer {
    /// One token for each word.
    Simple,
    /// One token for each prefix of each word.
    Ngram,
}

/// A stage that each token passes after the tokenizer.
#[derive(Clone, Copy, Debug, PartialEq, Eq)]
pub enum TokenFilter {
    /// Drops a token that has more characters than the limit.
    RemoveLong(usize),
    /// Brings a token to its Greek normal form.
    GreekLowerCaser,
    /// Lowercases a token.
    LowerCaser,
    /// Reduces a token to its Greek stem.
    GreekStemmer,
}

/// Each character lowercased by Unicode's mapping.
pub open spec fn unicode_lowercase(text: Seq<char>) -> Seq<char>
    decreases text.len(),
{
    if text.len() == 0 {
        Seq::empty()
    } else {
        unicode_lowercase(text.drop_last()) + char_lowercase(text.last())
    }
}

/// The lowercase form of a token: ASCII text character by character, any other
/// text by Unicode's mapping.
pub open spec fn lowercase(text: Seq<char>) -> Seq<char> {
    if is_ascii_chars(text) {
        text.map_values(|c: char| ascii_lower(c))
    } else {
        unicode_lowercase(text)
    }
}

/// `token` with another text.
pub open spec fn with_text(token: TokenView, text: Seq<char>) -> TokenView {
    TokenView { text, ..token }
}

/// What a filter makes of one token: `None` where it drops the token.
pub open spec fn filter_token(filter: TokenFilter, token: TokenView) -> Option<TokenView> {
    match filter {
        TokenFilter::RemoveLong(limit) => if token.text.len() > limit {
            None
        } else {
            Some(token)
        },
        TokenFilter::GreekLowerCaser => Some(with_text(token, fold(token.text))),
        TokenFilter::LowerCaser => Some(with_text(token, lowercase(token.text))),
        TokenFilter::GreekStemmer => Some(with_text(token, greek_stem(token.text))),
    }
}

/// What a filter makes of a run of tokens.
pub open spec fn filter_tokens(filter: TokenFilter, tokens: Seq<TokenView>) -> Seq<TokenView> {
    tokens.filter_map(|token: TokenView| filter_token(filter, token))
}

/// What a chain of filters makes of a run of tokens, the first filter applied first.
pub open spec fn apply_filters(filters: Seq<TokenFilter>, tokens: Seq<TokenView>) -> Seq<
    TokenView,
>
    decreases filters.len(),
{
    if filters.len() == 0 {
        tokens
    } else {
        filter_tokens(filters.last(), apply_filters(filters.drop_last(), tokens))
    }
}

/// The tokens that a tokenizer cuts a text into.
pub open spec fn tokenized(tokenizer: Tokenizer, text: Seq<char>) -> Seq<TokenView> {
    match tokenizer {
        Tokenizer::Simple => word_tokens(text),
        Tokenizer::Ngram => ngram_tokens(text),
    }
}

/// The tokens that come out of a tokenizer followed by a chain of filters.
pub open spec fn analyzed(tokenizer: Tokenizer, filters: Seq<TokenFilter>, text: Seq<char>) -> Seq<
    TokenView,
> {
    apply_filters(filters, tokenized(tokenizer, text))
}

/// A filter treats each token by itself: of a run that begins like another it
/// makes a run that begins like what it makes of the other.
pub proof fn lemma_filter_tokens_of_beginning(
    filter: TokenFilter,
    shorter: Seq<TokenView>,
    longer: Seq<TokenView>,
)
    requires
        shorter.is_prefix_of(longer),
    ensures
        filter_tokens(filter, shorter).is_prefix_of(filter_tokens(filter, longer)),
    decreases longer.len(),
{
    if shorter.len() == longer.len() {
        assert(shorter == longer);
    } else {
        let front = longer.drop_last();
        assert(shorter.is_prefix_of(front));
        lemma_filter_tokens_of_beginning(filter, shorter, front);
    }
}

/// The same of a chain of filters.
pub proof fn lemma_apply_filters_of_beginning(
    filters: Seq<TokenFilter>,
    shorter: Seq<TokenView>,
    longer: Seq<TokenView>,
)
    requires
        shorter.is_prefix_of(longer),
    ensures
        apply_filters(filters, shorter).is_prefix_of(apply_filters(filters, longer)),
    decreases filters.len(),
{
    if filters.len() > 0 {
        lemma_apply_filters_of_beginning(filters.drop_last(), shorter, longer);
        lemma_filter_tokens_of_beginning(
            filters.last(),
            apply_filters(filters.drop_last(), shorter),
            apply_filters(filters.drop_last(), longer),
        );
    }
}

/// What has been typed of a text so far is found by its prefixes: under any chain
/// of filters, the prefix tokens of the beginning of a text are the first of the
/// prefix tokens of the whole text, so that every term of the one is a term of
/// the other.
pub proof fn lemma_typed_beginning_is_indexed(
    filters: Seq<TokenFilter>,
    text: Seq<char>,
    typed: int,
)
    requires
        0 <= typed <= text.len(),
    ensures
        analyzed(Tokenizer::Ngram, filters, text.subrange(0, typed)).is_prefix_of(
            analyzed(Tokenizer::Ngram, filters, text),
        ),
{
    lemma_prefix_tokens_of_beginning(text, typed, typed);
    lemma_prefix_tokens_grow(text, typed, text.len() as int);
    assert(ngram_tokens(text.subrange(0, typed)) == prefix_tokens(text, typed));
    lemma_apply_filters_of_beginning(
        filters,
        ngram_tokens(text.subrange(0, typed)),
        ngram_tokens(text),
    );
}

/// The lowercase form of a token.
pub fn lowercase_text(text: &str) -> (lowered: String)
    ensures
        lowered@ == lowercase(text@),
{
    let chars = chars_of(text);
    let mut lowered: Vec<char> = Vec::new();
    let mut i: usize = 0;
    if text.is_ascii() {
        while i < chars.len()
            invariant
                i <= chars.len(),
                lowered@ == chars@.subrange(0, i as int).map_values(|c: char| ascii_lower(c)),
            decreases chars.len() - i,
        {
            lowered.push(ascii_lower_of(chars[i]));
            i += 1;
        }
    } else {
        while i < chars.len()
            invariant
                i <= chars.len(),
                lowered@ == unicode_lowercase(chars@.subrange(0, i as int)),
            decreases chars.len() - i,
        {
            let mapped = lowercase_of_char(chars[i]);
            let ghost before = lowered@;
            let mut j: usize = 0;
            while j < mapped.len()
                invariant
                    j <= mapped.len(),
                    lowered@ == before + mapped@.subrange(0, j as int),
                decreases mapped.len() - j,
            {
                lowered.push(mapped[j]);
                j += 1;
            }
            proof {
                assert(mapped@.subrange(0, mapped.len() as int) == mapped@);
                assert(chars@.subrange(0, i + 1).drop_last() == chars@.subrange(0, i as int));
            }
            i += 1;
        }
    }
    assert(chars@.subrange(0, chars.len() as int) == chars@);
    string_of(&lowered)
}

impl TokenFilter {
    /// What this filter makes of `token`: `None` where it drops the token.
    pub fn apply(&self, token: &Token) -> (out: Option<Token>)
        ensures
            match filter_token(*self, token@) {
                Some(expected) => out matches Some(got) && got@ == expected,
                None => out is None,
            },
    {
        let text = match self {
            TokenFilter::RemoveLong(limit) => {
                if token.text.as_str().unicode_len() > *limit {
                    return None;
                }
                token.text.clone()
            },
            TokenFilter::GreekLowerCaser => GreekLowerCaser.fold(token.text.as_str()),
            TokenFilter::LowerCaser => lowercase_text(token.text.as_str()),
            TokenFilter::GreekStemmer => stem_greek(token.text.as_str()),
        };
        Some(
            Token {
                offset_from: token.offset_from,
                offset_to: token.offset_to,
                position: token.position,
                text,
            },
        )
    }

    /// What this filter makes of `tokens`, in their order.
    pub fn apply_all(&self, tokens: &Vec<Token>) -> (out: Vec<Token>)
        ensures
            token_views(out@) == filter_tokens(*self, token_views(tokens@)),
    {
        let ghost views = token_views(tokens@);
        let ghost step = |token: TokenView| filter_token(*self, token);
        let mut out: Vec<Token> = Vec::new();
        let mut i: usize = 0;
        assert(token_views(out@) == views.subrange(0, 0).filter_map(step));
        while i < tokens.len()
            invariant
                i <= tokens.len(),
                views == token_views(tokens@),
                step == |token: TokenView| filter_token(*self, token),
                token_views(out@) == views.subrange(0, i as int).filter_map(step),
            decreases tokens.len() - i,
        {
            proof {
                assert(views.subrange(0, i + 1).drop_last() == views.subrange(0, i as int));
                assert(views.subrange(0, i + 1).last() == tokens@[i as int]@);
            }
            match self.apply(&tokens[i]) {
                Some(token) => {
                    let ghost before = out@;
                    out.push(token);
                    assert(token_views(out@) == token_views(before).push(token@));
                    assert(token_views(before) + seq![token@] == token_views(before).push(
                        token@,
                    ));
                },
                None => {},
            }
            i += 1;
        }
        assert(views.subrange(0, tokens.len() as int) == views);
        out
    }
}

/// A tokenizer and the filters that its tokens pass, in order.
pub struct TextAnalyzer {
    pub tokenizer: Tokenizer,
    pub filters: Vec<TokenFilter>,
}

impl TextAnalyzer {
    /// An analyzer that hands on what `tokenizer` gives, unchanged.
    pub fn new(tokenizer: Tokenizer) -> (analyzer: TextAnalyzer)
        ensures
            analyzer.tokenizer == tokenizer,
            analyzer.filters@ == Seq::<TokenFilter>::empty(),
    {
        TextAnalyzer { tokenizer, filters: Vec::new() }
    }

    /// This analyzer with `filter` added behind its other filters.
    pub fn filter(self, filter: TokenFilter) -> (analyzer: TextAnalyzer)
        ensures
            analyzer.tokenizer == self.tokenizer,
            analyzer.filters@ == self.filters@.push(filter),
    {
        let mut filters = self.filters;
        filters.push(filter);
        TextAnalyzer { tokenizer: self.tokenizer, filters }
    }

    /// The tokens of `text`.
    pub fn tokens(&self, text: &str) -> (tokens: Vec<Token>)
        ensures
            token_views(tokens@) == analyzed(self.tokenizer, self.filters@, text@),
    {
        let mut tokens = match self.tokenizer {
            Tokenizer::Simple => WordTokenizer.tokens(text),
            Tokenizer::Ngram => NgramTokenizer.tokens(text),
        };
        let mut i: usize = 0;
        assert(self.filters@.subrange(0, 0) == Seq::<TokenFilter>::empty());
        while i < self.filters.len()
            invariant
                i <= self.filters.len(),
                token_views(tokens@) == apply_filters(
                    self.filters@.subrange(0, i as int),
                    tokenized(self.tokenizer, text@),
                ),
            decreases self.filters.len() - i,
        {
            proof {
                let next = self.filters@.subrange(0, i + 1);
                assert(next.drop_last() == self.filters@.subrange(0, i as int));
                assert(next.last() == self.filters@[i as int]);
            }
            tokens = self.filters[i].apply_all(&tokens);
            i += 1;
        }
        assert(self.filters@.subrange(0, self.filters.len() as int) == self.filters@);
        tokens
    }
}

} // verus!
