use vstd::prelude::*;
use vstd::utf8::is_ascii_chars;

use crate::text::{chars_of, string_of};
use crate::tokenizer::{ngram_tokens, SimpleTokenStream, Token, TokenView};
use crate::unicode::{char_lowercase, lowercase_of_char};

verus! {

/// The unaccented base of an accented Greek vowel, and medial sigma for final
/// sigma; every other character is its own base.
pub open spec fn base_letter(c: char) -> char {
    if c == 'ά' {
        'α'
    } else if c == 'έ' {
        'ε'
    } else if c == 'ί' || c == 'ϊ' || c == 'ΐ' {
        'ι'
    } else if c == 'ύ' || c == 'ϋ' || c == 'ΰ' {
        'υ'
    } else if c == 'ή' {
        'η'
    } else if c == 'ό' {
        'ο'
    } else if c == 'ώ' {
        'ω'
    } else if c == 'ς' {
        'σ'
    } else {
        c
    }
}

/// Lowercase of an ASCII capital; any other character unchanged.
pub open spec fn ascii_lower(c: char) -> char {
    if 'A' <= c <= 'Z' {
        ((c as u8) + 32) as char
    } else {
        c
    }
}

/// Each character lowercased by Unicode's mapping, then reduced to its base letter.
pub open spec fn greek_lowercase(text: Seq<char>) -> Seq<char>
    decreases text.len(),
{
    if text.len() == 0 {
        Seq::empty()
    } else {
        greek_lowercase(text.drop_last()) + char_lowercase(text.last()).map_values(
            |c: char| base_letter(c),
        )
    }
}

/// The normal form under which terms are compared: ASCII text is lowercased
/// character by character, any other text goes through `greek_lowercase`.
pub open spec fn fold(text: Seq<char>) -> Seq<char> {
    if is_ascii_chars(text) {
        text.map_values(|c: char| ascii_lower(c))
    } else {
        greek_lowercase(text)
    }
}

/// Unicode's lowercase mapping leaves each character of `text` as it is, and
/// none of them is an ASCII capital.
pub open spec fn is_lowercase(text: Seq<char>) -> bool {
    forall|i: int|
        0 <= i < text.len() ==> char_lowercase(#[trigger] text[i]) == seq![text[i]] && !('A'
            <= text[i] <= 'Z')
}

/// A base letter has no other base: reducing twice is reducing once.
pub proof fn lemma_base_letter_idempotent(c: char)
    ensures
        base_letter(base_letter(c)) == base_letter(c),
{
}

/// Every character of a Greek lowercase form is its own base letter.
pub proof fn lemma_greek_lowercase_is_reduced(text: Seq<char>)
    ensures
        forall|i: int|
            0 <= i < greek_lowercase(text).len() ==> base_letter(
                #[trigger] greek_lowercase(text)[i],
            ) == greek_lowercase(text)[i],
    decreases text.len(),
{
    if text.len() > 0 {
        lemma_greek_lowercase_is_reduced(text.drop_last());
        let head = greek_lowercase(text.drop_last());
        let tail = char_lowercase(text.last()).map_values(|c: char| base_letter(c));
        assert forall|i: int| 0 <= i < greek_lowercase(text).len() implies base_letter(
            #[trigger] greek_lowercase(text)[i],
        ) == greek_lowercase(text)[i] by {
            if i >= head.len() {
                lemma_base_letter_idempotent(char_lowercase(text.last())[i - head.len()]);
            }
        }
    }
}

/// On a text that is lowercase already, and reduced to base letters, the Greek
/// lowercase form changes nothing.
pub proof fn lemma_greek_lowercase_fixes(text: Seq<char>)
    requires
        is_lowercase(text),
        forall|i: int| 0 <= i < text.len() ==> base_letter(#[trigger] text[i]) == text[i],
    ensures
        greek_lowercase(text) == text,
    decreases text.len(),
{
    if text.len() > 0 {
        let front = text.drop_last();
        assert forall|i: int| 0 <= i < front.len() implies base_letter(#[trigger] front[i])
            == front[i] by {
            assert(front[i] == text[i]);
        }
        assert(is_lowercase(front)) by {
            assert forall|i: int| 0 <= i < front.len() implies char_lowercase(
                #[trigger] front[i],
            ) == seq![front[i]] && !('A' <= front[i] <= 'Z') by {
                assert(front[i] == text[i]);
            }
        }
        lemma_greek_lowercase_fixes(front);
        let last = text[text.len() - 1];
        assert(char_lowercase(last) == seq![last]);
        assert(seq![last].map_values(|c: char| base_letter(c)) =~= seq![last]);
        assert(front + seq![last] =~= text);
    }
}

/// Folding is idempotent: on every ASCII text, and on every text whose folded
/// form Unicode's lowercase mapping leaves as it is. The accent and sigma rules
/// never give a character that they would change again, and a folded text takes
/// the same path through `fold` a second time or is left alone by the other.
pub proof fn lemma_fold_idempotent(text: Seq<char>)
    ensures
        is_ascii_chars(text) ==> fold(fold(text)) == fold(text),
        is_lowercase(fold(text)) ==> fold(fold(text)) == fold(text),
{
    let folded = fold(text);
    if is_ascii_chars(text) {
        assert(is_ascii_chars(folded));
        assert(folded.map_values(|c: char| ascii_lower(c)) =~= folded);
    } else if is_lowercase(folded) {
        if is_ascii_chars(folded) {
            assert(folded.map_values(|c: char| ascii_lower(c)) =~= folded);
        } else {
            lemma_greek_lowercase_is_reduced(text);
            lemma_greek_lowercase_fixes(folded);
        }
    }
}

/// The base letter of `c`.
pub fn base_letter_of(c: char) -> (base: char)
    ensures
        base == base_letter(c),
{
    if c == 'ά' {
        'α'
    } else if c == 'έ' {
        'ε'
    } else if c == 'ί' || c == 'ϊ' || c == 'ΐ' {
        'ι'
    } else if c == 'ύ' || c == 'ϋ' || c == 'ΰ' {
        'υ'
    } else if c == 'ή' {
        'η'
    } else if c == 'ό' {
        'ο'
    } else if c == 'ώ' {
        'ω'
    } else if c == 'ς' {
        'σ'
    } else {
        c
    }
}

/// The lowercase of `c` where it is an ASCII capital, else `c`.
pub fn ascii_lower_of(c: char) -> (lower: char)
    ensures
        lower == ascii_lower(c),
{
    if 'A' <= c && c <= 'Z' {
        ((c as u8) + 32) as char
    } else {
        c
    }
}

/// Writes the Greek lowercase form of `text` into `output`, replacing what it held.
pub fn to_greek_lowercase_unicode(text: &str, output: &mut String)
    ensures
        final(output)@ == greek_lowercase(text@),
{
    let chars = chars_of(text);
    let mut folded: Vec<char> = Vec::new();
    let mut i: usize = 0;
    while i < chars.len()
        invariant
            i <= chars.len(),
            chars@ == text@,
            folded@ == greek_lowercase(text@.subrange(0, i as int)),
        decreases chars.len() - i,
    {
        let lowered = lowercase_of_char(chars[i]);
        let ghost before = folded@;
        let mut j: usize = 0;
        while j < lowered.len()
            invariant
                j <= lowered.len(),
                folded@ == before + lowered@.subrange(0, j as int).map_values(
                    |c: char| base_letter(c),
                ),
            decreases lowered.len() - j,
        {
            folded.push(base_letter_of(lowered[j]));
            j += 1;
        }
        proof {
            assert(lowered@.subrange(0, lowered.len() as int) == lowered@);
            assert(text@.subrange(0, i + 1).drop_last() == text@.subrange(0, i as int));
        }
        i += 1;
    }
    assert(text@.subrange(0, chars.len() as int) == text@);
    *output = string_of(&folded);
}

/// Token filter that lowercase terms.
#[derive(Clone, Copy)]
pub struct GreekLowerCaser;

/// A pass over a text that gives out its prefix tokens in Greek normal form.
pub struct GreekLowerCaserTokenStream {
    buffer: String,
    tail: SimpleTokenStream,
}

/// `token` as it comes out of the filter: the same place in the text, the text in
/// normal form.
pub open spec fn folded_token(token: TokenView) -> TokenView {
    TokenView { text: fold(token.text), ..token }
}

impl GreekLowerCaserTokenStream {
    /// The text that the stream runs over.
    pub closed spec fn text(&self) -> Seq<char> {
        self.tail.text()
    }

    /// The number of tokens given out so far.
    pub closed spec fn emitted(&self) -> nat {
        self.tail.emitted()
    }

    /// The token that `token` hands out.
    pub closed spec fn current(&self) -> Token {
        self.tail.current()
    }

    /// The stream under the filter is in order.
    pub closed spec fn wf(&self) -> bool {
        self.tail.wf()
    }

    /// Moves to the next token. Returns `false` when the text holds no further one.
    pub fn advance(&mut self) -> (more: bool)
        requires
            old(self).wf(),
        ensures
            final(self).wf(),
            final(self).text() == old(self).text(),
            more == (old(self).emitted() < ngram_tokens(old(self).text()).len()),
            more ==> final(self).emitted() == old(self).emitted() + 1 && final(self).current()@
                == folded_token(ngram_tokens(old(self).text())[old(self).emitted() as int]),
            !more ==> final(self).emitted() == old(self).emitted(),
    {
        if !self.tail.advance() {
            return false;
        }
        let token = self.tail.token_mut();
        if token.text.is_ascii() {
            // fast track for ascii.
            token.text = GreekLowerCaser.fold(token.text.as_str());
        } else {
            to_greek_lowercase_unicode(token.text.as_str(), &mut self.buffer);
            std::mem::swap(&mut token.text, &mut self.buffer);
        }
        true
    }

    /// The token that the last successful `advance` arrived at.
    pub fn token(&self) -> (token: &Token)
        ensures
            *token == self.current(),
    {
        self.tail.token()
    }

    /// The same token, for a further filter to rewrite.
    pub fn token_mut(&mut self) -> (token: &mut Token)
        ensures
            *token == old(self).current(),
            final(self).current() == *final(token),
            final(self).text() == old(self).text(),
            final(self).emitted() == old(self).emitted(),
            old(self).wf() ==> final(self).wf(),
    {
        self.tail.token_mut()
    }
}

impl GreekLowerCaser {
    /// Puts the filter behind a pass over a text.
    pub fn transform(&self, token_stream: SimpleTokenStream) -> (stream:
        GreekLowerCaserTokenStream)
        ensures
            stream.text() == token_stream.text(),
            stream.emitted() == token_stream.emitted(),
            stream.current() == token_stream.current(),
            stream.wf() == token_stream.wf(),
    {
        GreekLowerCaserTokenStream { tail: token_stream, buffer: String::new() }
    }

    /// The normal form of `text`.
    pub fn fold(&self, text: &str) -> (folded: String)
        ensures
            folded@ == fold(text@),
    {
        if text.is_ascii() {
            let chars = chars_of(text);
            let mut lowered: Vec<char> = Vec::new();
            let mut i: usize = 0;
            while i < chars.len()
                invariant
                    i <= chars.len(),
                    lowered@ == chars@.subrange(0, i as int).map_values(|c: char| ascii_lower(c)),
                decreases chars.len() - i,
            {
                lowered.push(ascii_lower_of(chars[i]));
                i += 1;
            }
            assert(chars@.subrange(0, chars.len() as int) == chars@);
            string_of(&lowered)
        } else {
            let mut folded = String::new();
            to_greek_lowercase_unicode(text, &mut folded);
            folded
        }
    }
}

} // verus!
