use buzuki_search::analyzer::{lowercase_text, TextAnalyzer, TokenFilter, Tokenizer};
use buzuki_search::tokenizer::{NgramTokenizer, Token, WordTokenizer};

fn spans(tokens: &Vec<Token>) -> Vec<(usize, usize, usize, String)> {
    tokens
        .iter()
        .map(|token| {
            (
                token.position,
                token.offset_from,
                token.offset_to,
                token.text.clone(),
            )
        })
        .collect()
}

fn span(position: usize, from: usize, to: usize, text: &str) -> (usize, usize, usize, String) {
    (position, from, to, text.to_string())
}

#[test]
fn prefixes_with_offsets_and_positions() {
    let tokens = NgramTokenizer.tokens("Έλα τι");
    assert_eq!(
        spans(&tokens),
        vec![
            span(0, 0, 2, "Έ"),
            span(1, 0, 4, "Έλ"),
            span(2, 0, 6, "Έλα"),
            span(3, 7, 9, "τ"),
            span(4, 7, 11, "τι"),
        ]
    );
}

#[test]
fn prefix_positions_rise_by_one_across_words() {
    let text = "Έλα τι λέει";
    let tokens = NgramTokenizer.tokens(text);
    assert_eq!(tokens.len(), 9);
    for (i, token) in tokens.iter().enumerate() {
        assert_eq!(token.position, i);
        assert_eq!(&text[token.offset_from..token.offset_to], token.text);
    }
}

#[test]
fn no_alphanumeric_character_no_token() {
    assert_eq!(NgramTokenizer.tokens("").len(), 0);
    assert_eq!(NgramTokenizer.tokens("  ,;- |\n").len(), 0);
    assert_eq!(WordTokenizer.tokens("").len(), 0);
    assert_eq!(WordTokenizer.tokens(" ... ").len(), 0);
}

#[test]
fn a_word_of_one_character_gives_one_token() {
    assert_eq!(spans(&NgramTokenizer.tokens("α")), vec![span(0, 0, 2, "α")]);
    assert_eq!(spans(&NgramTokenizer.tokens(" x ")), vec![span(0, 1, 2, "x")]);
}

#[test]
fn the_last_word_comes_out_once() {
    assert_eq!(
        spans(&NgramTokenizer.tokens("ab")),
        vec![span(0, 0, 1, "a"), span(1, 0, 2, "ab")]
    );
    assert_eq!(
        spans(&NgramTokenizer.tokens("ab ")),
        vec![span(0, 0, 1, "a"), span(1, 0, 2, "ab")]
    );
    assert_eq!(
        spans(&NgramTokenizer.tokens(" ab")),
        vec![span(0, 1, 2, "a"), span(1, 1, 3, "ab")]
    );
}

#[test]
fn words_are_parted_by_any_run_of_other_characters() {
    assert_eq!(
        spans(&NgramTokenizer.tokens("a,,b")),
        vec![span(0, 0, 1, "a"), span(1, 3, 4, "b")]
    );
    assert_eq!(
        spans(&WordTokenizer.tokens("Hello, happy tax payer!")),
        vec![
            span(0, 0, 5, "Hello"),
            span(1, 7, 12, "happy"),
            span(2, 13, 16, "tax"),
            span(3, 17, 22, "payer"),
        ]
    );
}

#[test]
fn digits_belong_to_words() {
    assert_eq!(
        spans(&WordTokenizer.tokens("2x 4")),
        vec![span(0, 0, 2, "2x"), span(1, 3, 4, "4")]
    );
}

#[test]
fn stream_goes_forward_once() {
    let mut stream = NgramTokenizer.token_stream("ab c");
    assert!(stream.advance());
    assert_eq!(stream.token().text, "a");
    assert_eq!(stream.token().position, 0);
    assert!(stream.advance());
    assert_eq!(stream.token().text, "ab");
    assert!(stream.advance());
    assert_eq!(stream.token().text, "c");
    assert_eq!(stream.token().offset_from, 3);
    assert_eq!(stream.token().offset_to, 4);
    assert_eq!(stream.token().position, 2);
    assert!(!stream.advance());
    assert!(!stream.advance());
}

#[test]
fn rewriting_the_token_does_not_disturb_the_stream() {
    let mut stream = NgramTokenizer.token_stream("ab");
    assert!(stream.advance());
    stream.token_mut().text = String::from("rewritten");
    stream.token_mut().position = 77;
    assert_eq!(stream.token().text, "rewritten");
    assert!(stream.advance());
    assert_eq!(stream.token().text, "ab");
    assert_eq!(stream.token().position, 1);
    assert!(!stream.advance());
}

#[test]
fn duplicate_says_the_same() {
    let tokens = WordTokenizer.tokens("λέει");
    let copy = tokens[0].duplicate();
    assert_eq!(spans(&vec![copy]), spans(&tokens));
}

#[test]
fn overlong_tokens_are_dropped_by_character_count() {
    let forty = "α".repeat(40);
    let forty_one = "α".repeat(41);
    let text = format!("{} {} ok", forty_one, forty);
    let tokens = TextAnalyzer::new(Tokenizer::Simple)
        .filter(TokenFilter::RemoveLong(40))
        .tokens(&text);
    assert_eq!(
        spans(&tokens),
        vec![span(1, 83, 163, &forty), span(2, 164, 166, "ok")]
    );
}

#[test]
fn overlong_prefixes_are_dropped_one_by_one() {
    let word = "a".repeat(45);
    let tokens = TextAnalyzer::new(Tokenizer::Ngram)
        .filter(TokenFilter::RemoveLong(40))
        .tokens(&word);
    assert_eq!(tokens.len(), 40);
    assert_eq!(tokens[39].text, "a".repeat(40));
    assert_eq!(tokens[39].position, 39);
}

#[test]
fn filters_apply_in_the_order_given() {
    let long_after = TextAnalyzer::new(Tokenizer::Simple)
        .filter(TokenFilter::LowerCaser)
        .filter(TokenFilter::RemoveLong(1))
        .tokens("İ x");
    assert_eq!(spans(&long_after), vec![span(1, 3, 4, "x")]);
    let long_before = TextAnalyzer::new(Tokenizer::Simple)
        .filter(TokenFilter::RemoveLong(1))
        .filter(TokenFilter::LowerCaser)
        .tokens("İ x");
    assert_eq!(
        spans(&long_before),
        vec![span(0, 0, 2, "i\u{307}"), span(1, 3, 4, "x")]
    );
}

#[test]
fn one_filter_on_one_token() {
    let token = Token {
        offset_from: 3,
        offset_to: 9,
        position: 5,
        text: String::from("Ώρα"),
    };
    let folded = TokenFilter::GreekLowerCaser.apply(&token).unwrap();
    assert_eq!(spans(&vec![folded]), vec![span(5, 3, 9, "ωρα")]);
    let lowered = TokenFilter::LowerCaser.apply(&token).unwrap();
    assert_eq!(lowered.text, "ώρα");
    assert!(TokenFilter::RemoveLong(2).apply(&token).is_none());
    assert_eq!(TokenFilter::RemoveLong(3).apply(&token).unwrap().text, "Ώρα");
    let stemmed = TokenFilter::GreekStemmer
        .apply(&Token {
            offset_from: 0,
            offset_to: 16,
            position: 0,
            text: String::from("καλημέρα"),
        })
        .unwrap();
    assert_ne!(stemmed.text, "καλημέρα");
}

#[test]
fn lowercase_keeps_accents_and_final_sigma() {
    assert_eq!(lowercase_text("ΣΟΦΌΣ"), "σοφόσ");
    assert_eq!(lowercase_text("MiXed"), "mixed");
    assert_eq!(lowercase_text(""), "");
}

#[test]
fn an_analyzer_without_filters_hands_on_the_tokens() {
    let analyzer = TextAnalyzer::new(Tokenizer::Ngram);
    assert_eq!(analyzer.tokenizer, Tokenizer::Ngram);
    assert!(analyzer.filters.is_empty());
    assert_eq!(
        spans(&analyzer.tokens("Ab")),
        spans(&NgramTokenizer.tokens("Ab"))
    );
}

#[test]
fn what_is_typed_so_far_asks_only_for_indexed_terms() {
    let text = "Φυσικό Μινόρε";
    let analyzer = TextAnalyzer::new(Tokenizer::Ngram)
        .filter(TokenFilter::RemoveLong(40))
        .filter(TokenFilter::GreekLowerCaser);
    let indexed = spans(&analyzer.tokens(text));
    for (end, _) in text.char_indices() {
        let typed = spans(&analyzer.tokens(&text[..end]));
        assert_eq!(typed[..], indexed[..typed.len()]);
    }
}
