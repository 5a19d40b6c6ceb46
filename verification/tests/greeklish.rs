use buzuki_search::utils::{digraph_rule_list, latin_letter_of, replace, to_greeklish};

fn chars(text: &str) -> Vec<char> {
    text.chars().collect()
}

fn is_slug(text: &str) -> bool {
    text.chars().all(|c| ('a'..='z').contains(&c) || c == '_' || c == '\n')
}

#[test]
fn greeklish_of_a_word() {
    assert_eq!(to_greeklish("Έλα"), "ela");
}

#[test]
fn greeklish_of_a_name() {
    assert_eq!(to_greeklish("Μάρκος Βαμβακάρης"), "markos_vamvakaris");
}

#[test]
fn greeklish_writes_digraphs_with_two_letters() {
    assert_eq!(to_greeklish("ψ"), "ps");
    assert_eq!(to_greeklish("ξ"), "ks");
    assert_eq!(to_greeklish("θ"), "th");
    assert_eq!(to_greeklish("ου"), "ou");
    assert_eq!(to_greeklish("ού"), "ou");
    assert_eq!(to_greeklish("αυ"), "au");
    assert_eq!(to_greeklish("αύ"), "au");
    assert_eq!(to_greeklish("ευ"), "eu");
    assert_eq!(to_greeklish("εύ"), "eu");
    assert_eq!(to_greeklish("υ"), "y");
    assert_eq!(to_greeklish("ΟΥ"), "ou");
}

#[test]
fn greeklish_maps_the_whole_alphabet() {
    assert_eq!(
        to_greeklish("αβγδεζηθικλμνξοπρστυφχψως"),
        "avgdezithiklmnksoprstyfxpsos"
    );
    assert_eq!(to_greeklish("άέήίϊΐόύώ"), "aeiiiioyo");
}

#[test]
fn greeklish_drops_what_is_no_slug_character() {
    assert_eq!(to_greeklish("σ' αντίκρυζα, 2x!"), "s_antikryza_x");
    assert_eq!(to_greeklish("a-b c\nd"), "ab_c\nd");
    assert_eq!(to_greeklish("1234 | #"), "__");
    assert_eq!(to_greeklish("日本"), "");
    assert_eq!(to_greeklish(""), "");
}

#[test]
fn greeklish_is_always_a_slug() {
    for text in [
        "Έλα τι λέει",
        "Τα μπλε παράθυρά σου",
        "Bm  Bm  F#  Bm   | 4x",
        "https://www.youtube.com/watch?v=CPYwCdRL8GU",
        "İstanbul ΣΟΦΌΣ ẞ",
        "tab\there\r\nnext",
    ] {
        let slug = to_greeklish(text);
        assert!(is_slug(&slug));
        assert!(slug.len() <= text.to_lowercase().len());
        assert!(slug.len() <= text.len());
    }
}

#[test]
fn replace_takes_occurrences_from_the_left() {
    assert_eq!(replace(&chars("aaa"), &chars("aa"), &chars("b")), chars("ba"));
    assert_eq!(replace(&chars("abcabc"), &chars("bc"), &chars("x")), chars("axax"));
    assert_eq!(replace(&chars("abc"), &chars("d"), &chars("x")), chars("abc"));
    assert_eq!(replace(&chars("abc"), &chars(""), &chars("x")), chars("abc"));
    assert_eq!(replace(&chars(""), &chars("a"), &chars("x")), chars(""));
    assert_eq!(replace(&chars("ab"), &chars("abc"), &chars("x")), chars("ab"));
}

#[test]
fn digraph_rules_in_their_order() {
    let rules = digraph_rule_list();
    assert_eq!(rules.len(), 9);
    assert_eq!(rules[0], (chars("ψ"), chars("ps")));
    assert_eq!(rules[3], (chars("ου"), chars("ou")));
    assert_eq!(rules[8], (chars("εύ"), chars("eu")));
    for (earlier, rule) in rules.iter().enumerate() {
        for later in &rules[earlier + 1..] {
            assert!(rule.1.iter().all(|written| !later.0.contains(written)));
        }
    }
}

#[test]
fn latin_letters_one_by_one() {
    assert_eq!(latin_letter_of('β'), 'v');
    assert_eq!(latin_letter_of('η'), 'i');
    assert_eq!(latin_letter_of('ς'), 's');
    assert_eq!(latin_letter_of(' '), '_');
    assert_eq!(latin_letter_of('q'), 'q');
    assert_eq!(latin_letter_of('Α'), 'Α');
}
