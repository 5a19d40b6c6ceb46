use vstd::prelude::*;

use crate::text::{
    byte_len, chars_of, lemma_utf8_len_prefix, string_of_range, utf8_len, utf8_width_of,
};
use crate::unicode::{char_is_alphanumeric, is_alphanumeric};

verus! {

/// A piece of a text as the index sees it.
pub struct Token {
    /// Byte offset of the token's first character in the text.
    pub offset_from: usize,
    /// Byte offset just behind the token's last character.
    pub offset_to: usize,
    /// The number of tokens that the stream gave out before this one.
    pub position: usize,
    /// The token's content.
    pub text: String,
}

/// What a `Token` says, over unbounded numbers and a sequence of characters.
pub struct TokenView {
    pub offset_from: nat,
    pub offset_to: nat,
    pub position: nat,
    pub text: Seq<char>,
}

impl View for Token {
    type V = TokenView;

    open spec fn view(&self) -> TokenView {
        TokenView {
            offset_from: self.offset_from as nat,
            offset_to: self.offset_to as nat,
            position: self.position as nat,
            text: self.text@,
        }
    }
}

impl Token {
    /// A token that says the same as this one.
    pub fn duplicate(&self) -> (copy: Token)
        ensures
            copy@ == self@,
    {
        Token {
            offset_from: self.offset_from,
            offset_to: self.offset_to,
            position: self.position,
            text: self.text.clone(),
        }
    }
}

/// What each of `tokens` says, in order.
pub open spec fn token_views(tokens: Seq<Token>) -> Seq<TokenView> {
    tokens.map_values(|token: Token| token@)
}

/// The index at which the word that holds the character at `i` begins: a word is
/// a run of alphanumeric characters that no alphanumeric character precedes.
pub open spec fn word_start(text: Seq<char>, i: int) -> int
    decreases i,
{
    if i <= 0 || !char_is_alphanumeric(text[i - 1]) {
        i
    } else {
        word_start(text, i - 1)
    }
}

/// Whether the character at `i` is the last of its word.
pub open spec fn ends_word(text: Seq<char>, i: int) -> bool {
    char_is_alphanumeric(text[i]) && (i + 1 >= text.len() || !char_is_alphanumeric(text[i + 1]))
}

/// The token that runs from the start of the word around `i` up to and with the
/// character at `i`.
pub open spec fn token_ending_at(text: Seq<char>, i: int, position: nat) -> TokenView {
    TokenView {
        offset_from: utf8_len(text.subrange(0, word_start(text, i))),
        offset_to: utf8_len(text.subrange(0, i + 1)),
        position,
        text: text.subrange(word_start(text, i), i + 1),
    }
}

/// The prefix tokens that end within the first `upto` characters of `text`: one
/// for each alphanumeric character, numbered as they come.
pub open spec fn prefix_tokens(text: Seq<char>, upto: int) -> Seq<TokenView>
    decreases upto,
{
    if upto <= 0 {
        Seq::empty()
    } else {
        let before = prefix_tokens(text, upto - 1);
        if char_is_alphanumeric(text[upto - 1]) {
            before.push(token_ending_at(text, upto - 1, before.len()))
        } else {
            before
        }
    }
}

/// Every prefix of every word of `text`, word by word and shortest first.
pub open spec fn ngram_tokens(text: Seq<char>) -> Seq<TokenView> {
    prefix_tokens(text, text.len() as int)
}

/// The whole words that end within the first `upto` characters of `text`.
pub open spec fn whole_word_tokens(text: Seq<char>, upto: int) -> Seq<TokenView>
    decreases upto,
{
    if upto <= 0 {
        Seq::empty()
    } else {
        let before = whole_word_tokens(text, upto - 1);
        if ends_word(text, upto - 1) {
            before.push(token_ending_at(text, upto - 1, before.len()))
        } else {
            before
        }
    }
}

/// The words of `text`, in order.
pub open spec fn word_tokens(text: Seq<char>) -> Seq<TokenView> {
    whole_word_tokens(text, text.len() as int)
}

/// The prefix tokens of a longer stretch of the text begin with those of a shorter one.
pub proof fn lemma_prefix_tokens_grow(text: Seq<char>, a: int, b: int)
    requires
        0 <= a <= b,
    ensures
        prefix_tokens(text, a).len() <= prefix_tokens(text, b).len(),
        prefix_tokens(text, b).subrange(0, prefix_tokens(text, a).len() as int) == prefix_tokens(
            text,
            a,
        ),
    decreases b - a,
{
    if a < b {
        lemma_prefix_tokens_grow(text, a, b - 1);
        let shorter = prefix_tokens(text, a);
        let before = prefix_tokens(text, b - 1);
        assert(prefix_tokens(text, b).subrange(0, shorter.len() as int) == before.subrange(
            0,
            shorter.len() as int,
        ));
    } else {
        let all = prefix_tokens(text, a);
        assert(all.subrange(0, all.len() as int) == all);
    }
}

/// Each prefix token is numbered by its place in the run: positions begin at 0
/// and rise by one from token to token, across the words.
pub proof fn lemma_prefix_token_positions(text: Seq<char>, upto: int, i: int)
    requires
        0 <= i < prefix_tokens(text, upto).len(),
    ensures
        prefix_tokens(text, upto)[i].position == i,
    decreases upto,
{
    if upto > 0 {
        let before = prefix_tokens(text, upto - 1);
        if i < before.len() {
            lemma_prefix_token_positions(text, upto - 1, i);
        }
    }
}

/// A text has one prefix token for each of its alphanumeric characters: none where
/// it has no such character, one for a word of a single character.
pub proof fn lemma_prefix_token_count(text: Seq<char>, upto: int)
    requires
        0 <= upto <= text.len(),
    ensures
        prefix_tokens(text, upto).len() == text.subrange(0, upto).filter(
            |c: char| char_is_alphanumeric(c),
        ).len(),
    decreases upto,
{
    reveal(Seq::filter);
    if upto > 0 {
        lemma_prefix_token_count(text, upto - 1);
        assert(text.subrange(0, upto).drop_last() == text.subrange(0, upto - 1));
    }
}

/// The prefix tokens of the beginning of a text are the first of the prefix tokens
/// of the whole text: what has been typed so far never asks for a token that the
/// full text lacks.
pub proof fn lemma_prefix_tokens_of_beginning(text: Seq<char>, typed: int, upto: int)
    requires
        0 <= upto <= typed <= text.len(),
    ensures
        prefix_tokens(text.subrange(0, typed), upto) == prefix_tokens(text, upto),
    decreases upto,
{
    let beginning = text.subrange(0, typed);
    if upto > 0 {
        lemma_prefix_tokens_of_beginning(text, typed, upto - 1);
        lemma_word_start_of_beginning(text, typed, upto - 1);
        assert(beginning.subrange(0, upto) == text.subrange(0, upto));
        assert(beginning.subrange(0, word_start(text, upto - 1)) == text.subrange(
            0,
            word_start(text, upto - 1),
        ));
        assert(beginning.subrange(word_start(text, upto - 1), upto) == text.subrange(
            word_start(text, upto - 1),
            upto,
        ));
    }
}

/// A word begins where it begins, however much of the text behind it is cut off.
pub proof fn lemma_word_start_of_beginning(text: Seq<char>, typed: int, i: int)
    requires
        0 <= i < typed <= text.len(),
    ensures
        word_start(text.subrange(0, typed), i) == word_start(text, i),
        0 <= word_start(text, i) <= i,
    decreases i,
{
    if i > 0 && char_is_alphanumeric(text[i - 1]) {
        lemma_word_start_of_beginning(text, typed, i - 1);
    }
}

/// The index of the last alphanumeric character among the first `upto`, or -1.
pub open spec fn last_alphanumeric(text: Seq<char>, upto: int) -> int
    decreases upto,
{
    if upto <= 0 {
        -1
    } else if char_is_alphanumeric(text[upto - 1]) {
        upto - 1
    } else {
        last_alphanumeric(text, upto - 1)
    }
}

/// How a prefix token follows the one before it: numbered one higher, it either
/// lengthens that token by one character from the same start, or is the first
/// character of a later word.
pub open spec fn follows(earlier: TokenView, later: TokenView) -> bool {
    &&& later.position == earlier.position + 1
    &&& {
        ||| {
            &&& later.offset_from == earlier.offset_from
            &&& later.offset_to > earlier.offset_to
            &&& later.text.len() == earlier.text.len() + 1
            &&& later.text.drop_last() == earlier.text
        }
        ||| {
            &&& later.offset_from > earlier.offset_to
            &&& later.text.len() == 1
        }
    }
}

/// The last prefix token of a stretch ends with its last alphanumeric character.
proof fn lemma_last_alphanumeric(text: Seq<char>, upto: int)
    requires
        0 <= upto <= text.len(),
    ensures
        -1 <= last_alphanumeric(text, upto) < upto,
        last_alphanumeric(text, upto) >= 0 ==> char_is_alphanumeric(
            text[last_alphanumeric(text, upto)],
        ),
        last_alphanumeric(text, upto) == -1 <==> prefix_tokens(text, upto).len() == 0,
        prefix_tokens(text, upto).len() > 0 ==> prefix_tokens(text, upto).last()
            == token_ending_at(
            text,
            last_alphanumeric(text, upto),
            (prefix_tokens(text, upto).len() - 1) as nat,
        ),
    decreases upto,
{
    if upto > 0 {
        lemma_last_alphanumeric(text, upto - 1);
    }
}

/// A word begins at or before each of its characters.
proof fn lemma_word_start_bounds(text: Seq<char>, i: int)
    requires
        0 <= i,
    ensures
        0 <= word_start(text, i) <= i,
    decreases i,
{
    if i > 0 && char_is_alphanumeric(text[i - 1]) {
        lemma_word_start_bounds(text, i - 1);
    }
}

/// The prefixes of a word share their start and come out shortest first, each one
/// character longer than the one before; a new word begins behind the end of the
/// last. Positions rise by one throughout.
pub proof fn lemma_prefix_tokens_in_order(text: Seq<char>, upto: int, i: int)
    requires
        0 <= upto <= text.len(),
        0 <= i,
        i + 1 < prefix_tokens(text, upto).len(),
    ensures
        follows(prefix_tokens(text, upto)[i], prefix_tokens(text, upto)[i + 1]),
    decreases upto,
{
    let before = prefix_tokens(text, upto - 1);
    if i + 1 < before.len() {
        lemma_prefix_tokens_in_order(text, upto - 1, i);
    } else {
        let at = upto - 1;
        lemma_last_alphanumeric(text, at);
        let end = last_alphanumeric(text, at);
        let earlier = before.last();
        let later = prefix_tokens(text, upto)[i + 1];
        assert(later == token_ending_at(text, at, before.len()));
        assert(earlier == token_ending_at(text, end, (before.len() - 1) as nat));
        lemma_word_start_bounds(text, at);
        lemma_word_start_bounds(text, end);
        assert(text.subrange(0, at + 1).drop_last() == text.subrange(0, at));
        if end == at - 1 {
            let start = word_start(text, end);
            assert(word_start(text, at) == start);
            assert(text.subrange(start, at + 1).drop_last() == text.subrange(start, end + 1));
        } else {
            assert(word_start(text, at) == at);
            lemma_utf8_len_prefix(text, end + 1, at - 1);
            assert(text.subrange(0, at).drop_last() == text.subrange(0, at - 1));
        }
    }
}

/// Tokenize the text by splitting on whitespace and punctuation and finding all ngrams for each
/// word.
#[derive(Clone, Copy)]
pub struct NgramTokenizer;

/// A single pass over a text that gives out its prefix tokens one by one.
pub struct SimpleTokenStream {
    chars: Vec<char>,
    cursor: usize,
    byte_cursor: usize,
    in_word: bool,
    word_from: usize,
    word_byte_from: usize,
    emitted: usize,
    token: Token,
}

impl SimpleTokenStream {
    /// The text that the stream runs over.
    pub closed spec fn text(&self) -> Seq<char> {
        self.chars@
    }

    /// The number of tokens given out so far.
    pub closed spec fn emitted(&self) -> nat {
        self.emitted as nat
    }

    /// The token that `token` hands out.
    pub closed spec fn current(&self) -> Token {
        self.token
    }

    /// The stream's cursor agrees with what it has given out.
    pub closed spec fn wf(&self) -> bool {
        &&& self.cursor <= self.chars.len()
        &&& utf8_len(self.chars@) <= usize::MAX
        &&& self.byte_cursor == utf8_len(self.chars@.subrange(0, self.cursor as int))
        &&& self.emitted == prefix_tokens(self.chars@, self.cursor as int).len()
        &&& self.emitted <= self.cursor
        &&& self.in_word <==> self.cursor > 0 && char_is_alphanumeric(
            self.chars@[self.cursor - 1],
        )
        &&& self.in_word ==> {
            &&& self.word_from == word_start(self.chars@, self.cursor - 1)
            &&& self.word_from <= self.cursor
            &&& self.word_byte_from == utf8_len(self.chars@.subrange(0, self.word_from as int))
        }
    }

    /// The tokens yet to come, in the order in which `advance` will give them.
    pub open spec fn remaining(&self) -> Seq<TokenView> {
        ngram_tokens(self.text()).skip(self.emitted() as int)
    }

    /// The stream has never given out more tokens than its text has.
    pub proof fn lemma_emitted_bound(&self)
        requires
            self.wf(),
        ensures
            self.emitted() <= ngram_tokens(self.text()).len(),
    {
        lemma_prefix_tokens_grow(self.chars@, self.cursor as int, self.chars@.len() as int);
    }

    /// Moves to the next token. Returns `false` when the text holds no further one.
    pub fn advance(&mut self) -> (more: bool)
        requires
            old(self).wf(),
        ensures
            final(self).wf(),
            final(self).text() == old(self).text(),
            more == (old(self).emitted() < ngram_tokens(old(self).text()).len()),
            more ==> final(self).emitted() == old(self).emitted() + 1 && final(self).current()@
                == ngram_tokens(old(self).text())[old(self).emitted() as int],
            !more ==> final(self).emitted() == old(self).emitted(),
    {
        while self.cursor < self.chars.len()
            invariant
                self.wf(),
                self.chars == old(self).chars,
                self.emitted == old(self).emitted,
            decreases self.chars.len() - self.cursor,
        {
            let ghost text = self.chars@;
            let at = self.cursor;
            let c = self.chars[at];
            let width = utf8_width_of(c);
            proof {
                lemma_utf8_len_prefix(text, at + 1, text.len() as int);
                assert(text.subrange(0, text.len() as int) == text);
                assert(text.subrange(0, at + 1).drop_last() == text.subrange(0, at as int));
                assert(text.subrange(0, at + 1).last() == c);
            }
            if is_alphanumeric(c) {
                if !self.in_word {
                    self.word_from = at;
                    self.word_byte_from = self.byte_cursor;
                }
                self.in_word = true;
                self.cursor = at + 1;
                self.byte_cursor = self.byte_cursor + width;
                self.token = Token {
                    offset_from: self.word_byte_from,
                    offset_to: self.byte_cursor,
                    position: self.emitted,
                    text: string_of_range(&self.chars, self.word_from, self.cursor),
                };
                self.emitted = self.emitted + 1;
                proof {
                    lemma_prefix_tokens_grow(text, at + 1, text.len() as int);
                    let all = ngram_tokens(text);
                    let so_far = prefix_tokens(text, at + 1);
                    assert(all.subrange(0, so_far.len() as int)[old(self).emitted as int]
                        == all[old(self).emitted as int]);
                }
                return true;
            } else {
                self.in_word = false;
                self.cursor = at + 1;
                self.byte_cursor = self.byte_cursor + width;
            }
        }
        false
    }

    /// The token that the last successful `advance` arrived at.
    pub fn token(&self) -> (token: &Token)
        ensures
            *token == self.current(),
    {
        &self.token
    }

    /// The same token, for a filter to rewrite. The pass itself goes on from where
    /// it stood, whatever is written.
    pub fn token_mut(&mut self) -> (token: &mut Token)
        ensures
            *token == old(self).current(),
            final(self).current() == *final(token),
            final(self).text() == old(self).text(),
            final(self).emitted() == old(self).emitted(),
            old(self).wf() ==> final(self).wf(),
    {
        &mut self.token
    }
}

/// Splits a text into its words: the runs of alphanumeric characters.
#[derive(Clone, Copy)]
pub struct WordTokenizer;

impl WordTokenizer {
    /// The words of `text`, in order.
    pub fn tokens(&self, text: &str) -> (tokens: Vec<Token>)
        ensures
            token_views(tokens@) == word_tokens(text@),
    {
        let len = byte_len(text);
        let chars = chars_of(text);
        let mut tokens: Vec<Token> = Vec::new();
        let mut byte_cursor: usize = 0;
        let mut in_word = false;
        let mut word_from: usize = 0;
        let mut word_byte_from: usize = 0;
        let mut alphanumeric = chars.len() > 0 && is_alphanumeric(chars[0]);
        let mut i: usize = 0;
        assert(chars@.subrange(0, 0) == Seq::<char>::empty());
        while i < chars.len()
            invariant
                i <= chars.len(),
                chars@ == text@,
                utf8_len(chars@) <= usize::MAX,
                byte_cursor == utf8_len(chars@.subrange(0, i as int)),
                token_views(tokens@) == whole_word_tokens(chars@, i as int),
                tokens.len() <= i,
                i < chars.len() ==> alphanumeric == char_is_alphanumeric(chars@[i as int]),
                in_word <==> i > 0 && char_is_alphanumeric(chars@[i - 1]),
                in_word ==> {
                    &&& word_from == word_start(chars@, i - 1)
                    &&& word_from <= i
                    &&& word_byte_from == utf8_len(chars@.subrange(0, word_from as int))
                },
            decreases chars.len() - i,
        {
            let ghost all = chars@;
            let width = utf8_width_of(chars[i]);
            let follows = i + 1 < chars.len() && is_alphanumeric(chars[i + 1]);
            proof {
                lemma_utf8_len_prefix(all, i + 1, all.len() as int);
                assert(all.subrange(0, all.len() as int) == all);
                assert(all.subrange(0, i + 1).drop_last() == all.subrange(0, i as int));
                assert(all.subrange(0, i + 1).last() == chars@[i as int]);
            }
            if alphanumeric {
                if !in_word {
                    word_from = i;
                    word_byte_from = byte_cursor;
                }
                if !follows {
                    let token = Token {
                        offset_from: word_byte_from,
                        offset_to: byte_cursor + width,
                        position: tokens.len(),
                        text: string_of_range(&chars, word_from, i + 1),
                    };
                    let ghost before = tokens@;
                    tokens.push(token);
                    assert(token_views(tokens@) == token_views(before).push(token@));
                }
            }
            in_word = alphanumeric;
            alphanumeric = follows;
            byte_cursor = byte_cursor + width;
            i = i + 1;
        }
        tokens
    }
}

impl NgramTokenizer {
    /// Every prefix of every word of `text`, word by word and shortest first.
    pub fn tokens(&self, text: &str) -> (tokens: Vec<Token>)
        ensures
            token_views(tokens@) == ngram_tokens(text@),
    {
        let mut stream = self.token_stream(text);
        let mut tokens: Vec<Token> = Vec::new();
        let ghost all = ngram_tokens(text@);
        assert(all.subrange(0, 0) == Seq::<TokenView>::empty());
        loop
            invariant_except_break
                stream.wf(),
                stream.text() == text@,
                stream.emitted() <= all.len(),
                token_views(tokens@) == all.subrange(0, stream.emitted() as int),
            invariant
                all == ngram_tokens(text@),
            ensures
                token_views(tokens@) == all,
            decreases all.len() - stream.emitted(),
        {
            let more = stream.advance();
            if !more {
                assert(all.subrange(0, all.len() as int) == all);
                break ;
            }
            let ghost before = tokens@;
            tokens.push(stream.token().duplicate());
            assert(token_views(tokens@) == token_views(before).push(stream.current()@));
        }
        tokens
    }

    /// Starts a pass over `text`.
    pub fn token_stream(&self, text: &str) -> (stream: SimpleTokenStream)
        ensures
            stream.wf(),
            stream.text() == text@,
            stream.emitted() == 0,
    {
        let len = byte_len(text);
        let chars = chars_of(text);
        assert(chars@.subrange(0, 0) == Seq::<char>::empty());
        SimpleTokenStream {
            chars,
            cursor: 0,
            byte_cursor: 0,
            in_word: false,
            word_from: 0,
            word_byte_from: 0,
            emitted: 0,
            token: Token { offset_from: 0, offset_to: 0, position: 0, text: String::new() },
        }
    }
}

} // verus!
