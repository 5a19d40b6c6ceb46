use vstd::prelude::*;
use vstd::utf8::{char_is_scalar, encode_scalar, encode_utf8};

verus! {

/// The number of bytes that `c` takes in UTF-8.
pub open spec fn utf8_width(c: char) -> nat {
    if c as u32 <= 0x7F {
        1
    } else if c as u32 <= 0x7FF {
        2
    } else if c as u32 <= 0xFFFF {
        3
    } else {
        4
    }
}

/// The number of bytes that `text` takes in UTF-8.
pub open spec fn utf8_len(text: Seq<char>) -> nat
    decreases text.len(),
{
    if text.len() == 0 {
        0
    } else {
        utf8_len(text.drop_last()) + utf8_width(text.last())
    }
}

/// The byte length of a text is the sum of the byte lengths of its parts.
pub proof fn lemma_utf8_len_add(a: Seq<char>, b: Seq<char>)
    ensures
        utf8_len(a + b) == utf8_len(a) + utf8_len(b),
    decreases b.len(),
{
    if b.len() == 0 {
        assert(a + b == a);
    } else {
        assert((a + b).drop_last() == a + b.drop_last());
        lemma_utf8_len_add(a, b.drop_last());
    }
}

/// A longer prefix of a text takes at least as many bytes as a shorter one.
pub proof fn lemma_utf8_len_prefix(text: Seq<char>, i: int, j: int)
    requires
        0 <= i <= j <= text.len(),
    ensures
        utf8_len(text.subrange(0, i)) <= utf8_len(text.subrange(0, j)),
        utf8_len(text.subrange(0, j)) == utf8_len(text.subrange(0, i)) + utf8_len(
            text.subrange(i, j),
        ),
{
    assert(text.subrange(0, j) == text.subrange(0, i) + text.subrange(i, j));
    lemma_utf8_len_add(text.subrange(0, i), text.subrange(i, j));
}

/// `utf8_len` counts the bytes of the UTF-8 encoding.
pub proof fn lemma_utf8_len_is_encoded_len(text: Seq<char>)
    ensures
        utf8_len(text) == encode_utf8(text).len(),
    decreases text.len(),
{
    if text.len() > 0 {
        let first = text[0];
        char_is_scalar(first);
        assert(encode_scalar(first as u32).len() == utf8_width(first));
        assert(utf8_len(seq![first]) == utf8_width(first)) by {
            assert(seq![first].drop_last() == Seq::<char>::empty());
            assert(seq![first].last() == first);
            assert(utf8_len(seq![first].drop_last()) == 0);
        }
        assert(text == seq![first] + text.drop_first());
        lemma_utf8_len_add(seq![first], text.drop_first());
        lemma_utf8_len_is_encoded_len(text.drop_first());
    }
}

/// The number of bytes that `c` takes in UTF-8.
pub fn utf8_width_of(c: char) -> (width: usize)
    ensures
        width == utf8_width(c),
{
    let code = c as u32;
    if code <= 0x7F {
        1
    } else if code <= 0x7FF {
        2
    } else if code <= 0xFFFF {
        3
    } else {
        4
    }
}

/// The length of `text` in bytes.
pub fn byte_len(text: &str) -> (len: usize)
    ensures
        len == utf8_len(text@),
{
    proof {
        lemma_utf8_len_is_encoded_len(text@);
    }
    text.as_bytes().len()
}

/// `String::push` appends the character to the end of the string.
pub assume_specification[ String::push ](s: &mut String, ch: char)
    ensures
        final(s)@ == old(s)@.push(ch),
;

/// The characters of `s`, in order.
pub fn chars_of(s: &str) -> (chars: Vec<char>)
    ensures
        chars@ == s@,
{
    broadcast use vstd::string::group_string_axioms;

    let mut chars: Vec<char> = Vec::new();
    for c in it: s.chars()
        invariant
            it.seq() == s@,
            chars@ == s@.subrange(0, it.index()),
    {
        chars.push(c);
    }
    assert(s@.subrange(0, s@.len() as int) == s@);
    chars
}

/// The string made of the characters of `chars` from index `from` up to `to`.
pub fn string_of_range(chars: &Vec<char>, from: usize, to: usize) -> (s: String)
    requires
        from <= to <= chars.len(),
    ensures
        s@ == chars@.subrange(from as int, to as int),
{
    let mut s = String::new();
    let mut i: usize = from;
    while i < to
        invariant
            from <= i <= to <= chars.len(),
            s@ == chars@.subrange(from as int, i as int),
        decreases to - i,
    {
        s.push(chars[i]);
        i += 1;
    }
    s
}

/// The string made of `chars`, in order.
pub fn string_of(chars: &Vec<char>) -> (s: String)
    ensures
        s@ == chars@,
{
    assert(chars@.subrange(0, chars.len() as int) == chars@);
    string_of_range(chars, 0, chars.len())
}

} // verus!
