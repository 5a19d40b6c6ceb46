use buzuki_search::greek_lower_caser::{
    ascii_lower_of, base_letter_of, to_greek_lowercase_unicode, GreekLowerCaser,
};

#[test]
fn fold_strips_accents_and_case() {
    assert_eq!(GreekLowerCaser.fold("Έλα"), "ελα");
    assert_eq!(GreekLowerCaser.fold("λέει"), "λεει");
    assert_eq!(GreekLowerCaser.fold("ΠΑΡΆΘΥΡΑ"), "παραθυρα");
}

#[test]
fn fold_makes_final_sigma_medial() {
    assert_eq!(GreekLowerCaser.fold("Μάρκος"), "μαρκοσ");
    assert_eq!(GreekLowerCaser.fold("ς"), "σ");
    assert_eq!(GreekLowerCaser.fold("ΣΟΦΟΣ"), "σοφοσ");
}

#[test]
fn fold_lowercases_ascii_by_the_fast_path() {
    assert_eq!(GreekLowerCaser.fold("Whazup"), "whazup");
    assert_eq!(GreekLowerCaser.fold("A-Z_09 az"), "a-z_09 az");
    assert_eq!(GreekLowerCaser.fold(""), "");
}

#[test]
fn fold_knows_every_accented_vowel() {
    assert_eq!(GreekLowerCaser.fold("άέίϊΐύϋΰήόώ"), "αειιιυυυηοω");
    assert_eq!(GreekLowerCaser.fold("ΆΈΊΪΎΫΉΌΏ"), "αειιυυηοω");
}

#[test]
fn base_letters_one_by_one() {
    assert_eq!(base_letter_of('ά'), 'α');
    assert_eq!(base_letter_of('ς'), 'σ');
    assert_eq!(base_letter_of('α'), 'α');
    assert_eq!(base_letter_of('x'), 'x');
    assert_eq!(ascii_lower_of('Q'), 'q');
    assert_eq!(ascii_lower_of('q'), 'q');
    assert_eq!(ascii_lower_of('Ω'), 'Ω');
}

#[test]
fn greek_lowercase_replaces_what_the_output_held() {
    let mut output = String::from("left over");
    to_greek_lowercase_unicode("Ώρα", &mut output);
    assert_eq!(output, "ωρα");
    to_greek_lowercase_unicode("", &mut output);
    assert_eq!(output, "");
}

#[test]
fn greek_lowercase_keeps_what_a_capital_expands_to() {
    let mut output = String::new();
    to_greek_lowercase_unicode("İ", &mut output);
    assert_eq!(output, "i\u{307}");
}

#[test]
fn fold_is_idempotent_on_greek_samples() {
    for text in [
        "Έλα τι λέει",
        "Τα μπλε παράθυρά σου",
        "Μάρκος Βαμβακάρης",
        "ΦΥΣΙΚΌ ΜΙΝΌΡΕ",
        "Ζεϊμπέκικο Παλιό",
        "ς σ Σ",
        "απ' τα παράθυρά σου | 2x",
    ] {
        let once = GreekLowerCaser.fold(text);
        assert_eq!(GreekLowerCaser.fold(&once), once);
    }
}

#[test]
fn fold_is_idempotent_on_every_greek_character() {
    for code in 0x0370u32..=0x03FF {
        if let Some(c) = char::from_u32(code) {
            let once = GreekLowerCaser.fold(&c.to_string());
            assert_eq!(GreekLowerCaser.fold(&once), once);
        }
    }
    for code in 0x1F00u32..=0x1FFF {
        if let Some(c) = char::from_u32(code) {
            let once = GreekLowerCaser.fold(&c.to_string());
            assert_eq!(GreekLowerCaser.fold(&once), once);
        }
    }
}

#[test]
fn fold_is_idempotent_where_a_sign_lowercases_to_ascii() {
    let once = GreekLowerCaser.fold("\u{212A}");
    assert_eq!(once, "k");
    assert_eq!(GreekLowerCaser.fold(&once), once);
}
