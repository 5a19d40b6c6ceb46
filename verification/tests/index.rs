use buzuki_search::analyzer::{TokenFilter, Tokenizer};
use buzuki_search::error::{ErrorKind, Policy};
use buzuki_search::greek_lower_caser::GreekLowerCaser;
use buzuki_search::search_engine::{
    artist_document, index_documents, result_rows, scale_document, scale_names, schema_fields,
    search_plan, song_document, Analyzer, Document, Field, Row, FULL_SEARCH_LIMIT,
    MAX_TOKEN_CHARS, PREFIX_SEARCH_LIMIT,
};
use buzuki_search::song::Song;
use buzuki_search::utils::to_greeklish;

fn song(name: &str, artist: &str, body: &str) -> Song {
    Song {
        name: name.to_string(),
        slug: to_greeklish(name),
        artist: artist.to_string(),
        artist_slug: to_greeklish(artist),
        body: body.to_string(),
        body_greeklish: to_greeklish(body),
    }
}

fn values(document: &Document) -> Vec<(Field, String)> {
    document
        .values
        .iter()
        .map(|value| (value.field, value.text.clone()))
        .collect()
}

fn text_of(document: &Document, field: Field) -> String {
    let found: Vec<&String> = document
        .values
        .iter()
        .filter(|value| value.field == field)
        .map(|value| &value.text)
        .collect();
    assert_eq!(found.len(), 1);
    found[0].clone()
}

fn pair(name: &str, value: &str) -> (String, String) {
    (name.to_string(), value.to_string())
}

fn terms(analyzer: Analyzer, text: &str) -> Vec<String> {
    analyzer
        .text_analyzer()
        .tokens(text)
        .into_iter()
        .map(|token| token.text)
        .collect()
}

#[test]
fn the_limits() {
    assert_eq!(MAX_TOKEN_CHARS, 40);
    assert_eq!(FULL_SEARCH_LIMIT, 1000);
    assert_eq!(PREFIX_SEARCH_LIMIT, 15);
}

#[test]
fn a_full_search_looks_in_words_stems_and_greeklish() {
    let plan = search_plan(true);
    assert_eq!(plan.limit, 1000);
    assert!(plan.conjunctive);
    assert_eq!(
        plan.fields,
        vec![
            Field::Name,
            Field::Slug,
            Field::Body,
            Field::BodyGreeklish,
            Field::StemmedName,
            Field::StemmedBody,
        ]
    );
}

#[test]
fn a_search_by_prefix_looks_in_the_ngram_fields() {
    let plan = search_plan(false);
    assert_eq!(plan.limit, 15);
    assert!(plan.conjunctive);
    assert_eq!(
        plan.fields,
        vec![
            Field::NgramName,
            Field::NgramSlug,
            Field::NgramBody,
            Field::NgramBodyGreeklish,
        ]
    );
}

#[test]
fn the_schema() {
    let fields = schema_fields();
    let names: Vec<&str> = fields.iter().map(|field| field.name()).collect();
    assert_eq!(
        names,
        vec![
            "name",
            "slug",
            "body",
            "body_greeklish",
            "ngram_name",
            "ngram_slug",
            "ngram_body",
            "ngram_body_greeklish",
            "stemmed_name",
            "stemmed_body",
            "url",
        ]
    );
    let stored: Vec<Field> = fields.iter().copied().filter(Field::is_stored).collect();
    assert_eq!(stored, vec![Field::Name, Field::Slug, Field::Url]);
    assert_eq!(Field::Name.analyzer(), Some(Analyzer::GreekSimple));
    assert_eq!(Field::Slug.analyzer(), Some(Analyzer::EnglishSimple));
    assert_eq!(Field::Body.analyzer(), Some(Analyzer::GreekSimple));
    assert_eq!(Field::BodyGreeklish.analyzer(), Some(Analyzer::EnglishSimple));
    assert_eq!(Field::NgramName.analyzer(), Some(Analyzer::GreekNgram));
    assert_eq!(Field::NgramSlug.analyzer(), Some(Analyzer::EnglishNgram));
    assert_eq!(Field::NgramBody.analyzer(), Some(Analyzer::GreekNgram));
    assert_eq!(
        Field::NgramBodyGreeklish.analyzer(),
        Some(Analyzer::EnglishNgram)
    );
    assert_eq!(Field::StemmedName.analyzer(), Some(Analyzer::GreekStem));
    assert_eq!(Field::StemmedBody.analyzer(), Some(Analyzer::GreekStem));
    assert_eq!(Field::Url.analyzer(), None);
}

#[test]
fn the_analyzers() {
    let long = TokenFilter::RemoveLong(40);
    let cases = [
        (Analyzer::GreekNgram, "el_ngram", Tokenizer::Ngram, vec![long, TokenFilter::GreekLowerCaser]),
        (Analyzer::EnglishNgram, "en_ngram", Tokenizer::Ngram, vec![long, TokenFilter::LowerCaser]),
        (Analyzer::GreekSimple, "el_simple", Tokenizer::Simple, vec![long, TokenFilter::GreekLowerCaser]),
        (Analyzer::EnglishSimple, "en_simple", Tokenizer::Simple, vec![long, TokenFilter::LowerCaser]),
        (
            Analyzer::GreekStem,
            "el_stem",
            Tokenizer::Simple,
            vec![long, TokenFilter::GreekLowerCaser, TokenFilter::GreekStemmer],
        ),
    ];
    for (analyzer, name, tokenizer, filters) in cases {
        assert_eq!(analyzer.name(), name);
        let pipeline = analyzer.text_analyzer();
        assert_eq!(pipeline.tokenizer, tokenizer);
        assert_eq!(pipeline.filters, filters);
    }
}

#[test]
fn the_stemmed_analyzer_folds_before_it_stems() {
    assert_eq!(
        terms(Analyzer::GreekStem, "Καλημέρα, χαρούμενε φορολογούμενε!"),
        vec!["καλημερ", "χαρουμεν", "φορολογουμεν"]
    );
}

#[test]
fn the_document_of_a_song() {
    let song = song("Τα μπλε", "Μάρκος", "στίχος ένα\nστίχος δύο");
    assert_eq!(
        values(&song_document(&song)),
        vec![
            (Field::Name, "Τα μπλε".to_string()),
            (Field::Slug, "ta_mple".to_string()),
            (Field::Body, "στίχος ένα\nστίχος δύο".to_string()),
            (Field::BodyGreeklish, "stixos_ena\nstixos_dyo".to_string()),
            (Field::NgramName, "Τα μπλε".to_string()),
            (Field::NgramSlug, "ta_mple".to_string()),
            (Field::NgramBody, "στίχος ένα\nστίχος δύο".to_string()),
            (Field::NgramBodyGreeklish, "stixos_ena\nstixos_dyo".to_string()),
            (Field::StemmedName, "Τα μπλε".to_string()),
            (Field::StemmedBody, "στίχος ένα\nστίχος δύο".to_string()),
            (Field::Url, "/songs/ta_mple/".to_string()),
        ]
    );
}

#[test]
fn the_documents_of_an_artist_and_of_a_scale() {
    let song = song("Τα μπλε", "Μάρκος Βαμβακάρης", "α");
    assert_eq!(
        values(&artist_document(&song)),
        vec![
            (Field::Name, "Μάρκος Βαμβακάρης".to_string()),
            (Field::Slug, "markos_vamvakaris".to_string()),
            (Field::NgramName, "Μάρκος Βαμβακάρης".to_string()),
            (Field::NgramSlug, "markos_vamvakaris".to_string()),
            (Field::Url, "/artists/markos_vamvakaris/".to_string()),
        ]
    );
    assert_eq!(
        values(&scale_document("Φυσικό Μινόρε")),
        vec![
            (Field::Name, "Φυσικό Μινόρε".to_string()),
            (Field::Slug, "fysiko_minore".to_string()),
            (Field::NgramName, "Φυσικό Μινόρε".to_string()),
            (Field::NgramSlug, "fysiko_minore".to_string()),
            (Field::Url, "/scales/fysiko_minore/".to_string()),
        ]
    );
}

#[test]
fn the_sixteen_scales() {
    assert_eq!(
        scale_names(),
        vec![
            "Ματζόρε",
            "Ραστ",
            "Φυσικό Μινόρε",
            "Αρμονικό Μινόρε",
            "Χιτζάζ",
            "Χιτζαζκάρ",
            "Πειραιώτικο",
            "Ουσάκ",
            "Καρσιγάρ",
            "Σαμπάχ",
            "Νικρίζ",
            "Νιαβέντ",
            "Χουζάμ",
            "Σεγκιάχ",
            "Σουζινάκ",
            "Κιουρντί",
        ]
    );
}

#[test]
fn an_artist_is_indexed_once_behind_the_first_song() {
    let songs = vec![
        song("Ένα", "Μάρκος", "α"),
        song("Δύο", "Βασίλης", "β"),
        song("Τρία", "Μάρκος", "γ"),
    ];
    let documents = index_documents(&songs);
    let urls: Vec<String> = documents
        .iter()
        .map(|document| text_of(document, Field::Url))
        .collect();
    assert_eq!(documents.len(), 5 + 16);
    assert_eq!(
        urls[..5],
        [
            "/songs/ena/",
            "/artists/markos/",
            "/songs/dyo/",
            "/artists/vasilis/",
            "/songs/tria/",
        ]
    );
    assert_eq!(urls[5], "/scales/matzore/");
    assert_eq!(urls[20], "/scales/kiournti/");
    assert_eq!(documents[0].values.len(), 11);
    assert_eq!(documents[1].values.len(), 5);
    for document in &documents[5..] {
        assert_eq!(document.values.len(), 5);
        assert!(document.values.iter().all(|value| value.field != Field::Body));
    }
}

#[test]
fn without_songs_the_index_holds_the_scales() {
    let documents = index_documents(&vec![]);
    let names: Vec<String> = documents
        .iter()
        .map(|document| text_of(document, Field::Name))
        .collect();
    assert_eq!(names, scale_names());
}

#[test]
fn a_row_maps_names_to_texts_and_the_later_text_stands() {
    let row = Row::from_values(&vec![
        pair("name", "Ραστ"),
        pair("url", "/old/"),
        pair("slug", "rast"),
        pair("url", "/scales/rast/"),
    ]);
    assert_eq!(row.entries.len(), 3);
    assert_eq!(row.get("name"), Some(&"Ραστ".to_string()));
    assert_eq!(row.get("slug"), Some(&"rast".to_string()));
    assert_eq!(row.get("url"), Some(&"/scales/rast/".to_string()));
    assert_eq!(row.get("body"), None);
    assert_eq!(Row::from_values(&vec![]).entries.len(), 0);
}

#[test]
fn a_full_search_returns_at_most_a_thousand_rows() {
    let hits: Vec<Vec<(String, String)>> = (0..1003)
        .map(|i| vec![pair("name", &format!("n{}", i))])
        .collect();
    let rows = result_rows(true, &hits);
    assert_eq!(rows.len(), 1000);
    assert_eq!(rows[0].get("name"), Some(&"n0".to_string()));
    assert_eq!(rows[999].get("name"), Some(&"n999".to_string()));
    assert_eq!(result_rows(true, &hits[..1000].to_vec()).len(), 1000);
    assert_eq!(result_rows(true, &hits[..7].to_vec()).len(), 7);
}

#[test]
fn a_search_by_prefix_returns_at_most_fifteen_rows() {
    let hits: Vec<Vec<(String, String)>> = (0..40)
        .map(|i| vec![pair("slug", &format!("s{}", i))])
        .collect();
    let rows = result_rows(false, &hits);
    assert_eq!(rows.len(), 15);
    assert_eq!(rows[14].get("slug"), Some(&"s14".to_string()));
    assert_eq!(result_rows(false, &hits[..15].to_vec()).len(), 15);
    assert_eq!(result_rows(false, &hits[..3].to_vec()).len(), 3);
}

#[test]
fn no_match_gives_no_row() {
    assert_eq!(result_rows(true, &vec![]).len(), 0);
    assert_eq!(result_rows(false, &vec![]).len(), 0);
}

#[test]
fn failures_while_building_end_the_start() {
    assert_eq!(ErrorKind::Format.policy(), Policy::AbortStartup);
    assert_eq!(ErrorKind::Io.policy(), Policy::AbortStartup);
    assert_eq!(ErrorKind::QueryParse.policy(), Policy::ReportToCaller);
    assert_eq!(ErrorKind::IndexEngine.policy(), Policy::ReportToCaller);
}

#[test]
fn every_scale_is_found_by_its_folded_name() {
    for name in scale_names() {
        let document = scale_document(name);
        let indexed = terms(Analyzer::GreekSimple, &text_of(&document, Field::Name));
        let asked = terms(Analyzer::GreekSimple, &GreekLowerCaser.fold(name));
        assert!(!asked.is_empty());
        assert_eq!(asked, indexed);
        let stems = terms(Analyzer::GreekStem, &text_of(&document, Field::Name));
        assert_eq!(terms(Analyzer::GreekStem, &GreekLowerCaser.fold(name)), stems);
        let slugs = terms(Analyzer::EnglishSimple, &text_of(&document, Field::Slug));
        assert_eq!(terms(Analyzer::EnglishSimple, &to_greeklish(name)), slugs);
    }
}

#[test]
fn every_scale_is_found_by_each_prefix_of_its_name() {
    for name in scale_names() {
        let document = scale_document(name);
        let indexed = terms(Analyzer::GreekNgram, &text_of(&document, Field::NgramName));
        assert!(!indexed.is_empty());
        for ngram in &indexed {
            for asked in terms(Analyzer::GreekNgram, ngram) {
                assert!(indexed.contains(&asked));
            }
        }
        let slugs = terms(Analyzer::EnglishNgram, &text_of(&document, Field::NgramSlug));
        for ngram in &slugs {
            for asked in terms(Analyzer::EnglishNgram, ngram) {
                assert!(slugs.contains(&asked));
            }
        }
    }
}
