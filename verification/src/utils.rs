use vstd::prelude::*;

use crate::pattern::{compile, is_match, is_slug_char, pattern_of, NOT_SLUG};
use crate::text::{chars_of, lemma_utf8_len_add, string_of, utf8_len, utf8_width};
use crate::unicode::{lowercase_of_str, text_lowercase};

verus! {

/// `text` with every occurrence of `from` replaced by `to`, the occurrences taken
/// from the left and never overlapping.
pub open spec fn replace_all(text: Seq<char>, from: Seq<char>, to: Seq<char>) -> Seq<char>
    decreases text.len(),
{
    if text.len() == 0 || from.len() == 0 {
        text
    } else if from.is_prefix_of(text) {
        to + replace_all(text.skip(from.len() as int), from, to)
    } else {
        seq![text[0]] + replace_all(text.skip(1), from, to)
    }
}

/// The letter groups that are written with two Latin letters, each with its
/// Latin form, in the order in which they are replaced.
pub open spec fn digraph_rules() -> Seq<(Seq<char>, Seq<char>)> {
    seq![
        (seq!['ψ'], seq!['p', 's']),
        (seq!['ξ'], seq!['k', 's']),
        (seq!['θ'], seq!['t', 'h']),
        (seq!['ο', 'υ'], seq!['o', 'u']),
        (seq!['ο', 'ύ'], seq!['o', 'u']),
        (seq!['α', 'υ'], seq!['a', 'u']),
        (seq!['α', 'ύ'], seq!['a', 'u']),
        (seq!['ε', 'υ'], seq!['e', 'u']),
        (seq!['ε', 'ύ'], seq!['e', 'u']),
    ]
}

/// `text` after each of `rules` has been applied to the whole of it, the first
/// rule first.
pub open spec fn rules_applied(rules: Seq<(Seq<char>, Seq<char>)>, text: Seq<char>) -> Seq<char>
    decreases rules.len(),
{
    if rules.len() == 0 {
        text
    } else {
        replace_all(rules_applied(rules.drop_last(), text), rules.last().0, rules.last().1)
    }
}

/// `text` with its digraphs replaced.
pub open spec fn digraphs_replaced(text: Seq<char>) -> Seq<char> {
    rules_applied(digraph_rules(), text)
}

/// The Latin letter that stands for a small Greek letter, the underscore for a
/// space, and any other character itself.
pub open spec fn latin_letter(c: char) -> char {
    if c == 'α' || c == 'ά' {
        'a'
    } else if c == 'β' {
        'v'
    } else if c == 'γ' {
        'g'
    } else if c == 'δ' {
        'd'
    } else if c == 'ε' || c == 'έ' {
        'e'
    } else if c == 'ζ' {
        'z'
    } else if c == 'η' || c == 'ή' {
        'i'
    } else if c == 'ι' || c == 'ί' || c == 'ϊ' || c == 'ΐ' {
        'i'
    } else if c == 'κ' {
        'k'
    } else if c == 'λ' {
        'l'
    } else if c == 'μ' {
        'm'
    } else if c == 'ν' {
        'n'
    } else if c == 'ο' || c == 'ό' {
        'o'
    } else if c == 'π' {
        'p'
    } else if c == 'ρ' {
        'r'
    } else if c == 'σ' || c == 'ς' {
        's'
    } else if c == 'τ' {
        't'
    } else if c == 'υ' || c == 'ύ' {
        'y'
    } else if c == 'φ' {
        'f'
    } else if c == 'χ' {
        'x'
    } else if c == 'ω' || c == 'ώ' {
        'o'
    } else if c == ' ' {
        '_'
    } else {
        c
    }
}

/// The greeklish form of a text: lowercased, its digraphs replaced, each letter
/// mapped to Latin, and every character dropped that may not stand in a slug.
pub open spec fn greeklish(text: Seq<char>) -> Seq<char> {
    digraphs_replaced(text_lowercase(text)).map_values(|c: char| latin_letter(c)).filter(
        |c: char| is_slug_char(c),
    )
}

/// Replacing by something that takes no more bytes gives a text that takes no
/// more bytes.
pub proof fn lemma_replace_all_len(text: Seq<char>, from: Seq<char>, to: Seq<char>)
    requires
        utf8_len(to) <= utf8_len(from),
    ensures
        utf8_len(replace_all(text, from, to)) <= utf8_len(text),
    decreases text.len(),
{
    if text.len() == 0 || from.len() == 0 {
    } else if from.is_prefix_of(text) {
        let rest = text.skip(from.len() as int);
        lemma_replace_all_len(rest, from, to);
        lemma_utf8_len_add(to, replace_all(rest, from, to));
        assert(text == from + rest);
        lemma_utf8_len_add(from, rest);
    } else {
        let rest = text.skip(1);
        lemma_replace_all_len(rest, from, to);
        lemma_utf8_len_add(seq![text[0]], replace_all(rest, from, to));
        assert(text == seq![text[0]] + rest);
        lemma_utf8_len_add(seq![text[0]], rest);
    }
}

/// The byte length of a text of one character.
proof fn lemma_utf8_len_of_one(a: char)
    ensures
        utf8_len(seq![a]) == utf8_width(a),
{
    assert(seq![a].drop_last() == Seq::<char>::empty());
    assert(seq![a].last() == a);
    assert(utf8_len(seq![a].drop_last()) == 0);
}

/// The byte length of a text of two characters.
proof fn lemma_utf8_len_of_two(a: char, b: char)
    ensures
        utf8_len(seq![a, b]) == utf8_width(a) + utf8_width(b),
{
    lemma_utf8_len_of_one(a);
    assert(seq![a, b].drop_last() == seq![a]);
    assert(seq![a, b].last() == b);
}

/// Whether the rule at `earlier` writes a character that the rule at `later`
/// looks for.
pub open spec fn feeds(rules: Seq<(Seq<char>, Seq<char>)>, earlier: int, later: int) -> bool {
    exists|k: int, m: int|
        0 <= k < rules[earlier].1.len() && 0 <= m < rules[later].0.len()
            && #[trigger] rules[earlier].1[k] == #[trigger] rules[later].0[m]
}

/// No rule writes a character that a later rule looks for: what the rules write
/// is ASCII, what they look for is not. So no rule takes up the work of another.
pub proof fn lemma_rules_never_rematch()
    ensures
        forall|i: int, k: int|
            0 <= i < digraph_rules().len() && 0 <= k < digraph_rules()[i].1.len() ==> '\0'
                <= #[trigger] digraph_rules()[i].1[k] <= '\u{7f}',
        forall|j: int, k: int|
            0 <= j < digraph_rules().len() && 0 <= k < digraph_rules()[j].0.len() ==> !('\0'
                <= #[trigger] digraph_rules()[j].0[k] <= '\u{7f}'),
        forall|i: int, j: int|
            0 <= i < j < digraph_rules().len() ==> !#[trigger] feeds(digraph_rules(), i, j),
{
    let rules = digraph_rules();
    assert forall|i: int, j: int| 0 <= i < j < rules.len() implies !#[trigger] feeds(
        rules,
        i,
        j,
    ) by {
        if feeds(rules, i, j) {
            let (k, m) = choose|k: int, m: int|
                0 <= k < rules[i].1.len() && 0 <= m < rules[j].0.len()
                    && #[trigger] rules[i].1[k] == #[trigger] rules[j].0[m];
            assert('\0' <= rules[i].1[k] <= '\u{7f}');
            assert(!('\0' <= rules[j].0[m] <= '\u{7f}'));
        }
    }
}

/// Each rule writes no more bytes than it takes away.
proof fn lemma_rules_shorten()
    ensures
        forall|i: int|
            0 <= i < digraph_rules().len() ==> utf8_len((#[trigger] digraph_rules()[i]).1)
                <= utf8_len(digraph_rules()[i].0),
{
    lemma_utf8_len_of_one('ψ');
    lemma_utf8_len_of_one('ξ');
    lemma_utf8_len_of_one('θ');
    lemma_utf8_len_of_two('p', 's');
    lemma_utf8_len_of_two('k', 's');
    lemma_utf8_len_of_two('t', 'h');
    lemma_utf8_len_of_two('o', 'u');
    lemma_utf8_len_of_two('a', 'u');
    lemma_utf8_len_of_two('e', 'u');
    lemma_utf8_len_of_two('ο', 'υ');
    lemma_utf8_len_of_two('ο', 'ύ');
    lemma_utf8_len_of_two('α', 'υ');
    lemma_utf8_len_of_two('α', 'ύ');
    lemma_utf8_len_of_two('ε', 'υ');
    lemma_utf8_len_of_two('ε', 'ύ');
}

/// Rules that each write no more bytes than they take away give a text that
/// takes no more bytes.
proof fn lemma_rules_applied_len(rules: Seq<(Seq<char>, Seq<char>)>, text: Seq<char>)
    requires
        forall|i: int| 0 <= i < rules.len() ==> utf8_len((#[trigger] rules[i]).1) <= utf8_len(
            rules[i].0,
        ),
    ensures
        utf8_len(rules_applied(rules, text)) <= utf8_len(text),
    decreases rules.len(),
{
    if rules.len() > 0 {
        let front = rules.drop_last();
        assert forall|i: int| 0 <= i < front.len() implies utf8_len((#[trigger] front[i]).1)
            <= utf8_len(front[i].0) by {
            assert(front[i] == rules[i]);
        }
        lemma_rules_applied_len(front, text);
        assert(rules.last() == rules[rules.len() - 1]);
        lemma_replace_all_len(rules_applied(front, text), rules.last().0, rules.last().1);
    }
}

/// Replacing the digraphs gives a text that takes no more bytes.
pub proof fn lemma_digraphs_replaced_len(text: Seq<char>)
    ensures
        utf8_len(digraphs_replaced(text)) <= utf8_len(text),
{
    lemma_rules_shorten();
    lemma_rules_applied_len(digraph_rules(), text);
}

/// A Latin letter takes no more bytes than the letter it stands for.
proof fn lemma_latin_letters_len(text: Seq<char>)
    ensures
        utf8_len(text.map_values(|c: char| latin_letter(c))) <= utf8_len(text),
    decreases text.len(),
{
    let latin = |c: char| latin_letter(c);
    if text.len() > 0 {
        lemma_latin_letters_len(text.drop_last());
        assert(text.map_values(latin).drop_last() == text.drop_last().map_values(latin));
        assert(utf8_width(latin_letter(text.last())) <= utf8_width(text.last()));
    }
}

/// What is kept for a slug takes one byte to the character, and no more bytes
/// than the text it is kept from.
proof fn lemma_slug_chars_len(text: Seq<char>)
    ensures
        utf8_len(text.filter(|c: char| is_slug_char(c))) <= utf8_len(text),
        utf8_len(text.filter(|c: char| is_slug_char(c))) == text.filter(
            |c: char| is_slug_char(c),
        ).len(),
    decreases text.len(),
{
    reveal(Seq::filter);
    let keep = |c: char| is_slug_char(c);
    if text.len() > 0 {
        lemma_slug_chars_len(text.drop_last());
        if is_slug_char(text.last()) {
            let kept = text.drop_last().filter(keep);
            assert(kept.push(text.last()).drop_last() == kept);
        }
    }
}

/// Whatever the text, its greeklish form is made of slug characters only: small
/// Latin letters, underscores and line feeds.
pub proof fn lemma_greeklish_is_slug(text: Seq<char>)
    ensures
        forall|i: int| 0 <= i < greeklish(text).len() ==> is_slug_char(#[trigger] greeklish(text)[i]),
{
    let keep = |c: char| is_slug_char(c);
    let mapped = digraphs_replaced(text_lowercase(text)).map_values(|c: char| latin_letter(c));
    assert forall|i: int| 0 <= i < greeklish(text).len() implies is_slug_char(
        #[trigger] greeklish(text)[i],
    ) by {
        mapped.lemma_filter_pred(keep, i);
    }
}

/// A greeklish text is one byte to the character, and takes no more bytes than
/// the lowercase form of the text that it was made from.
pub proof fn lemma_greeklish_len(text: Seq<char>)
    ensures
        utf8_len(greeklish(text)) == greeklish(text).len(),
        greeklish(text).len() <= utf8_len(text_lowercase(text)),
{
    let lowered = text_lowercase(text);
    lemma_digraphs_replaced_len(lowered);
    lemma_latin_letters_len(digraphs_replaced(lowered));
    lemma_slug_chars_len(digraphs_replaced(lowered).map_values(|c: char| latin_letter(c)));
}

/// Whether `from` stands in `text` at index `at`.
fn occurs_at(text: &Vec<char>, at: usize, from: &Vec<char>) -> (found: bool)
    requires
        at <= text.len(),
    ensures
        found == from@.is_prefix_of(text@.skip(at as int)),
{
    if from.len() > text.len() - at {
        return false;
    }
    let mut k: usize = 0;
    while k < from.len()
        invariant
            k <= from.len(),
            at + from.len() <= text.len(),
            forall|j: int| 0 <= j < k ==> from@[j] == text@[at + j],
        decreases from.len() - k,
    {
        if from[k] != text[at + k] {
            assert(text@.skip(at as int)[k as int] == text@[at + k]);
            return false;
        }
        k += 1;
    }
    assert(from@ =~= text@.skip(at as int).subrange(0, from@.len() as int));
    true
}

/// Replaces every occurrence of `from` in `text` by `to`.
pub fn replace(text: &Vec<char>, from: &Vec<char>, to: &Vec<char>) -> (replaced: Vec<char>)
    ensures
        replaced@ == replace_all(text@, from@, to@),
{
    let mut replaced: Vec<char> = Vec::new();
    let mut i: usize = 0;
    assert(text@.skip(0) == text@);
    while i < text.len()
        invariant
            i <= text.len(),
            replaced@ + replace_all(text@.skip(i as int), from@, to@) == replace_all(
                text@,
                from@,
                to@,
            ),
        decreases text.len() - i,
    {
        let ghost rest = text@.skip(i as int);
        if from.len() > 0 && occurs_at(text, i, from) {
            let ghost before = replaced@;
            let mut k: usize = 0;
            while k < to.len()
                invariant
                    k <= to.len(),
                    replaced@ == before + to@.subrange(0, k as int),
                decreases to.len() - k,
            {
                replaced.push(to[k]);
                k += 1;
            }
            proof {
                assert(to@.subrange(0, to.len() as int) == to@);
                assert(rest.skip(from.len() as int) == text@.skip(i + from.len()));
                assert((before + to@) + replace_all(text@.skip(i + from.len()), from@, to@)
                    == before + (to@ + replace_all(text@.skip(i + from.len()), from@, to@)));
            }
            i += from.len();
        } else {
            proof {
                assert(rest.skip(1) == text@.skip(i + 1));
                assert(rest[0] == text@[i as int]);
                if from@.len() == 0 {
                    assert(replace_all(rest.skip(1), from@, to@) == rest.skip(1));
                    assert(seq![rest[0]] + rest.skip(1) == rest);
                }
                assert(replaced@.push(text@[i as int]) + replace_all(
                    text@.skip(i + 1),
                    from@,
                    to@,
                ) == replaced@ + (seq![text@[i as int]] + replace_all(
                    text@.skip(i + 1),
                    from@,
                    to@,
                )));
            }
            replaced.push(text[i]);
            i += 1;
        }
    }
    assert(text@.skip(text.len() as int).len() == 0);
    replaced
}

/// The Latin letter for `c`.
pub fn latin_letter_of(c: char) -> (latin: char)
    ensures
        latin == latin_letter(c),
{
    if c == 'α' || c == 'ά' {
        'a'
    } else if c == 'β' {
        'v'
    } else if c == 'γ' {
        'g'
    } else if c == 'δ' {
        'd'
    } else if c == 'ε' || c == 'έ' {
        'e'
    } else if c == 'ζ' {
        'z'
    } else if c == 'η' || c == 'ή' {
        'i'
    } else if c == 'ι' || c == 'ί' || c == 'ϊ' || c == 'ΐ' {
        'i'
    } else if c == 'κ' {
        'k'
    } else if c == 'λ' {
        'l'
    } else if c == 'μ' {
        'm'
    } else if c == 'ν' {
        'n'
    } else if c == 'ο' || c == 'ό' {
        'o'
    } else if c == 'π' {
        'p'
    } else if c == 'ρ' {
        'r'
    } else if c == 'σ' || c == 'ς' {
        's'
    } else if c == 'τ' {
        't'
    } else if c == 'υ' || c == 'ύ' {
        'y'
    } else if c == 'φ' {
        'f'
    } else if c == 'χ' {
        'x'
    } else if c == 'ω' || c == 'ώ' {
        'o'
    } else if c == ' ' {
        '_'
    } else {
        c
    }
}

/// What each of `rules` holds, in order.
pub open spec fn rule_views(rules: Seq<(Vec<char>, Vec<char>)>) -> Seq<(Seq<char>, Seq<char>)> {
    rules.map_values(|rule: (Vec<char>, Vec<char>)| (rule.0@, rule.1@))
}

/// The rule that writes `a`, `b` for the two letters `first`, `second`.
fn pair_rule(first: char, second: char, a: char, b: char) -> (rule: (Vec<char>, Vec<char>))
    ensures
        rule.0@ == seq![first, second],
        rule.1@ == seq![a, b],
{
    let from = vec![first, second];
    let to = vec![a, b];
    assert(from@ =~= seq![first, second]);
    assert(to@ =~= seq![a, b]);
    (from, to)
}

/// The rule that writes `a`, `b` for `letter`.
fn letter_rule(letter: char, a: char, b: char) -> (rule: (Vec<char>, Vec<char>))
    ensures
        rule.0@ == seq![letter],
        rule.1@ == seq![a, b],
{
    let from = vec![letter];
    let to = vec![a, b];
    assert(from@ =~= seq![letter]);
    assert(to@ =~= seq![a, b]);
    (from, to)
}

/// The digraph rules, in the order in which they are applied.
pub fn digraph_rule_list() -> (rules: Vec<(Vec<char>, Vec<char>)>)
    ensures
        rule_views(rules@) == digraph_rules(),
{
    let rules = vec![
        letter_rule('ψ', 'p', 's'),
        letter_rule('ξ', 'k', 's'),
        letter_rule('θ', 't', 'h'),
        pair_rule('ο', 'υ', 'o', 'u'),
        pair_rule('ο', 'ύ', 'o', 'u'),
        pair_rule('α', 'υ', 'a', 'u'),
        pair_rule('α', 'ύ', 'a', 'u'),
        pair_rule('ε', 'υ', 'e', 'u'),
        pair_rule('ε', 'ύ', 'e', 'u'),
    ];
    assert(rule_views(rules@) =~= digraph_rules());
    rules
}

/// `text` with its digraphs replaced.
fn replace_digraphs(text: Vec<char>) -> (replaced: Vec<char>)
    ensures
        replaced@ == digraphs_replaced(text@),
{
    let rules = digraph_rule_list();
    let ghost views = rule_views(rules@);
    let ghost given = text@;
    let mut text = text;
    let mut i: usize = 0;
    assert(views.subrange(0, 0) == Seq::<(Seq<char>, Seq<char>)>::empty());
    while i < rules.len()
        invariant
            i <= rules.len(),
            views == rule_views(rules@),
            text@ == rules_applied(views.subrange(0, i as int), given),
        decreases rules.len() - i,
    {
        proof {
            let next = views.subrange(0, i + 1);
            assert(next.drop_last() == views.subrange(0, i as int));
            assert(next.last() == (rules@[i as int].0@, rules@[i as int].1@));
        }
        text = replace(&text, &rules[i].0, &rules[i].1);
        i += 1;
    }
    assert(views.subrange(0, rules.len() as int) == views);
    text
}

/// Return greek string in greeklish.
pub fn to_greeklish(string: &str) -> (slug: String)
    ensures
        slug@ == greeklish(string@),
        forall|i: int| 0 <= i < slug@.len() ==> is_slug_char(#[trigger] slug@[i]),
{
    let not_slug = compile(NOT_SLUG);
    let lowered = lowercase_of_str(string);
    let text = replace_digraphs(chars_of(lowered.as_str()));
    let ghost mapped = text@.map_values(|c: char| latin_letter(c));
    let ghost keep = |c: char| is_slug_char(c);
    let mut kept: Vec<char> = Vec::new();
    let mut i: usize = 0;
    while i < text.len()
        invariant
            i <= text.len(),
            mapped == text@.map_values(|c: char| latin_letter(c)),
            keep == |c: char| is_slug_char(c),
            pattern_of(not_slug) == NOT_SLUG@,
            kept@ == mapped.subrange(0, i as int).filter(keep),
            forall|j: int| 0 <= j < kept@.len() ==> is_slug_char(#[trigger] kept@[j]),
        decreases text.len() - i,
    {
        let c = latin_letter_of(text[i]);
        let mut one = String::new();
        one.push(c);
        proof {
            reveal(Seq::filter);
            assert(mapped.subrange(0, i + 1).drop_last() == mapped.subrange(0, i as int));
            assert(one@[0] == c);
        }
        if !is_match(&not_slug, one.as_str()) {
            kept.push(c);
        }
        i += 1;
    }
    assert(mapped.subrange(0, text.len() as int) == mapped);
    string_of(&kept)
}

} // verus!
