use vstd::prelude::*;
use vstd::string::StringExecFns;

use crate::analyzer::{TextAnalyzer, TokenFilter, Tokenizer};
use crate::song::{Song, SongView};
use crate::utils::{greeklish, to_greeklish};

verus! {

/// The most characters that a token may have and still reach the index.
pub const MAX_TOKEN_CHARS: usize = 40;

/// The most rows that a full search returns.
pub const FULL_SEARCH_LIMIT: usize = 1000;

/// The most rows that a search by prefix returns.
pub const PREFIX_SEARCH_LIMIT: usize = 15;

/// The ways in which the index analyzes the text of a field.
#[derive(Clone, Copy, Debug, PartialEq, Eq, Hash)]
pub enum Analyzer {
    /// Prefixes of words, in Greek normal form.
    GreekNgram,
    /// Prefixes of words, lowercased.
    EnglishNgram,
    /// Words, in Greek normal form.
    GreekSimple,
    /// Words, lowercased.
    EnglishSimple,
    /// Words, in Greek normal form and stemmed.
    GreekStem,
}

/// The tokenizer that an analyzer begins with.
pub open spec fn analyzer_tokenizer(analyzer: Analyzer) -> Tokenizer {
    match analyzer {
        Analyzer::GreekNgram | Analyzer::EnglishNgram => Tokenizer::Ngram,
        _ => Tokenizer::Simple,
    }
}

/// The filters of an analyzer, in order. Each drops overlong tokens first.
pub open spec fn analyzer_filters(analyzer: Analyzer) -> Seq<TokenFilter> {
    match analyzer {
        Analyzer::GreekNgram | Analyzer::GreekSimple => seq![
            TokenFilter::RemoveLong(MAX_TOKEN_CHARS),
            TokenFilter::GreekLowerCaser,
        ],
        Analyzer::EnglishNgram | Analyzer::EnglishSimple => seq![
            TokenFilter::RemoveLong(MAX_TOKEN_CHARS),
            TokenFilter::LowerCaser,
        ],
        Analyzer::GreekStem => seq![
            TokenFilter::RemoveLong(MAX_TOKEN_CHARS),
            TokenFilter::GreekLowerCaser,
            TokenFilter::GreekStemmer,
        ],
    }
}

/// The name under which an analyzer is registered.
pub open spec fn analyzer_name(analyzer: Analyzer) -> Seq<char> {
    match analyzer {
        Analyzer::GreekNgram => "el_ngram"@,
        Analyzer::EnglishNgram => "en_ngram"@,
        Analyzer::GreekSimple => "el_simple"@,
        Analyzer::EnglishSimple => "en_simple"@,
        Analyzer::GreekStem => "el_stem"@,
    }
}

impl Analyzer {
    /// The name under which this analyzer is registered.
    pub fn name(&self) -> (name: &'static str)
        ensures
            name@ == analyzer_name(*self),
    {
        match self {
            Analyzer::GreekNgram => "el_ngram",
            Analyzer::EnglishNgram => "en_ngram",
            Analyzer::GreekSimple => "el_simple",
            Analyzer::EnglishSimple => "en_simple",
            Analyzer::GreekStem => "el_stem",
        }
    }

    /// The tokenizer and filters of this analyzer.
    pub fn text_analyzer(&self) -> (pipeline: TextAnalyzer)
        ensures
            pipeline.tokenizer == analyzer_tokenizer(*self),
            pipeline.filters@ == analyzer_filters(*self),
    {
        let tokenizer = match self {
            Analyzer::GreekNgram | Analyzer::EnglishNgram => Tokenizer::Ngram,
            _ => Tokenizer::Simple,
        };
        let pipeline = TextAnalyzer::new(tokenizer).filter(
            TokenFilter::RemoveLong(MAX_TOKEN_CHARS),
        );
        match self {
            Analyzer::GreekNgram | Analyzer::GreekSimple => pipeline.filter(
                TokenFilter::GreekLowerCaser,
            ),
            Analyzer::EnglishNgram | Analyzer::EnglishSimple => pipeline.filter(
                TokenFilter::LowerCaser,
            ),
            Analyzer::GreekStem => pipeline.filter(TokenFilter::GreekLowerCaser).filter(
                TokenFilter::GreekStemmer,
            ),
        }
    }
}

/// The fields of the index.
#[derive(Clone, Copy, Debug, PartialEq, Eq, Hash)]
pub enum Field {
    Name,
    Slug,
    Body,
    BodyGreeklish,
    NgramName,
    NgramSlug,
    NgramBody,
    NgramBodyGreeklish,
    StemmedName,
    StemmedBody,
    Url,
}

/// The name of a field in the index.
pub open spec fn field_name(field: Field) -> Seq<char> {
    match field {
        Field::Name => "name"@,
        Field::Slug => "slug"@,
        Field::Body => "body"@,
        Field::BodyGreeklish => "body_greeklish"@,
        Field::NgramName => "ngram_name"@,
        Field::NgramSlug => "ngram_slug"@,
        Field::NgramBody => "ngram_body"@,
        Field::NgramBodyGreeklish => "ngram_body_greeklish"@,
        Field::StemmedName => "stemmed_name"@,
        Field::StemmedBody => "stemmed_body"@,
        Field::Url => "url"@,
    }
}

/// The analyzer by which a field is searched; `None` for a field that is only stored.
pub open spec fn field_analyzer(field: Field) -> Option<Analyzer> {
    match field {
        Field::Name | Field::Body => Some(Analyzer::GreekSimple),
        Field::Slug | Field::BodyGreeklish => Some(Analyzer::EnglishSimple),
        Field::NgramName | Field::NgramBody => Some(Analyzer::GreekNgram),
        Field::NgramSlug | Field::NgramBodyGreeklish => Some(Analyzer::EnglishNgram),
        Field::StemmedName | Field::StemmedBody => Some(Analyzer::GreekStem),
        Field::Url => None,
    }
}

/// Whether the index keeps a field's text, to hand it back in a result row.
pub open spec fn field_is_stored(field: Field) -> bool {
    field == Field::Name || field == Field::Slug || field == Field::Url
}

impl Field {
    /// The name of this field in the index.
    pub fn name(&self) -> (name: &'static str)
        ensures
            name@ == field_name(*self),
    {
        match self {
            Field::Name => "name",
            Field::Slug => "slug",
            Field::Body => "body",
            Field::BodyGreeklish => "body_greeklish",
            Field::NgramName => "ngram_name",
            Field::NgramSlug => "ngram_slug",
            Field::NgramBody => "ngram_body",
            Field::NgramBodyGreeklish => "ngram_body_greeklish",
            Field::StemmedName => "stemmed_name",
            Field::StemmedBody => "stemmed_body",
            Field::Url => "url",
        }
    }

    /// The analyzer by which this field is searched, if it is searched at all.
    pub fn analyzer(&self) -> (analyzer: Option<Analyzer>)
        ensures
            analyzer == field_analyzer(*self),
    {
        match self {
            Field::Name | Field::Body => Some(Analyzer::GreekSimple),
            Field::Slug | Field::BodyGreeklish => Some(Analyzer::EnglishSimple),
            Field::NgramName | Field::NgramBody => Some(Analyzer::GreekNgram),
            Field::NgramSlug | Field::NgramBodyGreeklish => Some(Analyzer::EnglishNgram),
            Field::StemmedName | Field::StemmedBody => Some(Analyzer::GreekStem),
            Field::Url => None,
        }
    }

    /// Whether the index keeps this field's text.
    pub fn is_stored(&self) -> (stored: bool)
        ensures
            stored == field_is_stored(*self),
    {
        match self {
            Field::Name | Field::Slug | Field::Url => true,
            _ => false,
        }
    }
}

/// Every field of the index, in the order of the schema.
pub open spec fn schema() -> Seq<Field> {
    seq![
        Field::Name,
        Field::Slug,
        Field::Body,
        Field::BodyGreeklish,
        Field::NgramName,
        Field::NgramSlug,
        Field::NgramBody,
        Field::NgramBodyGreeklish,
        Field::StemmedName,
        Field::StemmedBody,
        Field::Url,
    ]
}

/// Every field of the index, in the order of the schema.
pub fn schema_fields() -> (fields: Vec<Field>)
    ensures
        fields@ == schema(),
{
    let fields = vec![
        Field::Name,
        Field::Slug,
        Field::Body,
        Field::BodyGreeklish,
        Field::NgramName,
        Field::NgramSlug,
        Field::NgramBody,
        Field::NgramBodyGreeklish,
        Field::StemmedName,
        Field::StemmedBody,
        Field::Url,
    ];
    assert(fields@ =~= schema());
    fields
}

/// The fields that a full search looks in: whole words, stems and greeklish.
pub open spec fn full_search_fields() -> Seq<Field> {
    seq![
        Field::Name,
        Field::Slug,
        Field::Body,
        Field::BodyGreeklish,
        Field::StemmedName,
        Field::StemmedBody,
    ]
}

/// The fields that a search by prefix looks in.
pub open spec fn prefix_search_fields() -> Seq<Field> {
    seq![Field::NgramName, Field::NgramSlug, Field::NgramBody, Field::NgramBodyGreeklish]
}

/// How a query is put to the index.
pub struct SearchPlan {
    /// The fields in which a term of the query is looked for.
    pub fields: Vec<Field>,
    /// Whether a document must hold every term of the query.
    pub conjunctive: bool,
    /// The most rows to return.
    pub limit: usize,
}

/// The plan of a full search, or of a search by prefix.
pub fn search_plan(full: bool) -> (plan: SearchPlan)
    ensures
        plan.conjunctive,
        full ==> plan.limit == FULL_SEARCH_LIMIT && plan.fields@ == full_search_fields(),
        !full ==> plan.limit == PREFIX_SEARCH_LIMIT && plan.fields@ == prefix_search_fields(),
{
    if full {
        let fields = vec![
            Field::Name,
            Field::Slug,
            Field::Body,
            Field::BodyGreeklish,
            Field::StemmedName,
            Field::StemmedBody,
        ];
        assert(fields@ =~= full_search_fields());
        SearchPlan { fields, conjunctive: true, limit: FULL_SEARCH_LIMIT }
    } else {
        let fields = vec![
            Field::NgramName,
            Field::NgramSlug,
            Field::NgramBody,
            Field::NgramBodyGreeklish,
        ];
        assert(fields@ =~= prefix_search_fields());
        SearchPlan { fields, conjunctive: true, limit: PREFIX_SEARCH_LIMIT }
    }
}

/// One field of a document with its text.
pub struct FieldValue {
    pub field: Field,
    pub text: String,
}

impl View for FieldValue {
    type V = (Field, Seq<char>);

    open spec fn view(&self) -> (Field, Seq<char>) {
        (self.field, self.text@)
    }
}

/// What the index is given for one song, artist or scale.
pub struct Document {
    pub values: Vec<FieldValue>,
}

impl View for Document {
    type V = Seq<(Field, Seq<char>)>;

    open spec fn view(&self) -> Seq<(Field, Seq<char>)> {
        self.values@.map_values(|value: FieldValue| value@)
    }
}

/// What each of `documents` holds, in order.
pub open spec fn document_views(documents: Seq<Document>) -> Seq<Seq<(Field, Seq<char>)>> {
    documents.map_values(|document: Document| document@)
}

/// The address of a page: the path of its kind, the slug and a closing slash.
pub open spec fn url_of(kind: Seq<char>, slug: Seq<char>) -> Seq<char> {
    kind + slug + "/"@
}

/// The document of a song: name and lyrics by word, by prefix and by stem, their
/// greeklish forms by word and by prefix, and the song's address.
pub open spec fn song_entry(song: SongView) -> Seq<(Field, Seq<char>)> {
    seq![
        (Field::Name, song.name),
        (Field::Slug, song.slug),
        (Field::Body, song.body),
        (Field::BodyGreeklish, song.body_greeklish),
        (Field::NgramName, song.name),
        (Field::NgramSlug, song.slug),
        (Field::NgramBody, song.body),
        (Field::NgramBodyGreeklish, song.body_greeklish),
        (Field::StemmedName, song.name),
        (Field::StemmedBody, song.body),
        (Field::Url, url_of("/songs/"@, song.slug)),
    ]
}

/// The document of something that has a name only: the name and its slug by word
/// and by prefix, and its address.
pub open spec fn named_entry(kind: Seq<char>, name: Seq<char>, slug: Seq<char>) -> Seq<
    (Field, Seq<char>),
> {
    seq![
        (Field::Name, name),
        (Field::Slug, slug),
        (Field::NgramName, name),
        (Field::NgramSlug, slug),
        (Field::Url, url_of(kind, slug)),
    ]
}

/// The document of a song's artist.
pub open spec fn artist_entry(song: SongView) -> Seq<(Field, Seq<char>)> {
    named_entry("/artists/"@, song.artist, song.artist_slug)
}

/// The document of a musical scale.
pub open spec fn scale_entry(scale: Seq<char>) -> Seq<(Field, Seq<char>)> {
    named_entry("/scales/"@, scale, greeklish(scale))
}

/// The names of the musical scales that the index knows.
pub open spec fn scales() -> Seq<Seq<char>> {
    seq![
        "Ματζόρε"@,
        "Ραστ"@,
        "Φυσικό Μινόρε"@,
        "Αρμονικό Μινόρε"@,
        "Χιτζάζ"@,
        "Χιτζαζκάρ"@,
        "Πειραιώτικο"@,
        "Ουσάκ"@,
        "Καρσιγάρ"@,
        "Σαμπάχ"@,
        "Νικρίζ"@,
        "Νιαβέντ"@,
        "Χουζάμ"@,
        "Σεγκιάχ"@,
        "Σουζινάκ"@,
        "Κιουρντί"@,
    ]
}

/// Whether one of the first `upto` songs is by `artist`.
pub open spec fn artist_among(songs: Seq<SongView>, upto: int, artist: Seq<char>) -> bool {
    exists|earlier: int| 0 <= earlier < upto && (#[trigger] songs[earlier]).artist == artist
}

/// Whether a song before the one at `at` has the same artist.
pub open spec fn artist_seen_before(songs: Seq<SongView>, at: int) -> bool {
    artist_among(songs, at, songs[at].artist)
}

/// Whether `artist` is one of `names`.
pub open spec fn holds_name(names: Seq<String>, artist: Seq<char>) -> bool {
    exists|k: int| 0 <= k < names.len() && (#[trigger] names[k])@ == artist
}

/// The documents of the first `upto` songs: each song's own, followed by its
/// artist's where no earlier song has that artist.
pub open spec fn song_entries(songs: Seq<SongView>, upto: int) -> Seq<Seq<(Field, Seq<char>)>>
    decreases upto,
{
    if upto <= 0 {
        Seq::empty()
    } else {
        let before = song_entries(songs, upto - 1).push(song_entry(songs[upto - 1]));
        if artist_seen_before(songs, upto - 1) {
            before
        } else {
            before.push(artist_entry(songs[upto - 1]))
        }
    }
}

/// Everything that the index holds: the songs with their artists, then the scales.
pub open spec fn index_entries(songs: Seq<SongView>) -> Seq<Seq<(Field, Seq<char>)>> {
    song_entries(songs, songs.len() as int) + scales().map_values(
        |scale: Seq<char>| scale_entry(scale),
    )
}

/// What each of `songs` holds, in order.
pub open spec fn song_views(songs: Seq<Song>) -> Seq<SongView> {
    songs.map_values(|song: Song| song@)
}

/// `field` with a copy of `text`.
fn field_value(field: Field, text: &String) -> (value: FieldValue)
    ensures
        value@ == (field, text@),
{
    FieldValue { field, text: text.clone() }
}

/// The address of the page of `kind` with the given slug.
fn url(kind: &str, slug: &String) -> (address: String)
    ensures
        address@ == url_of(kind@, slug@),
{
    let mut address = String::from_str(kind);
    address.append(slug.as_str());
    address.append("/");
    address
}

/// The document of `song`.
pub fn song_document(song: &Song) -> (document: Document)
    ensures
        document@ == song_entry(song@),
{
    let address = url("/songs/", &song.slug);
    let values = vec![
        field_value(Field::Name, &song.name),
        field_value(Field::Slug, &song.slug),
        field_value(Field::Body, &song.body),
        field_value(Field::BodyGreeklish, &song.body_greeklish),
        field_value(Field::NgramName, &song.name),
        field_value(Field::NgramSlug, &song.slug),
        field_value(Field::NgramBody, &song.body),
        field_value(Field::NgramBodyGreeklish, &song.body_greeklish),
        field_value(Field::StemmedName, &song.name),
        field_value(Field::StemmedBody, &song.body),
        FieldValue { field: Field::Url, text: address },
    ];
    let document = Document { values };
    assert(document@ =~= song_entry(song@));
    document
}

/// The document of something that has a name only.
fn named_document(kind: &str, name: &String, slug: &String) -> (document: Document)
    ensures
        document@ == named_entry(kind@, name@, slug@),
{
    let address = url(kind, slug);
    let values = vec![
        field_value(Field::Name, name),
        field_value(Field::Slug, slug),
        field_value(Field::NgramName, name),
        field_value(Field::NgramSlug, slug),
        FieldValue { field: Field::Url, text: address },
    ];
    let document = Document { values };
    assert(document@ =~= named_entry(kind@, name@, slug@));
    document
}

/// The document of the artist of `song`.
pub fn artist_document(song: &Song) -> (document: Document)
    ensures
        document@ == artist_entry(song@),
{
    named_document("/artists/", &song.artist, &song.artist_slug)
}

/// The document of the scale called `scale`.
pub fn scale_document(scale: &str) -> (document: Document)
    ensures
        document@ == scale_entry(scale@),
{
    let name = String::from_str(scale);
    let slug = to_greeklish(scale);
    named_document("/scales/", &name, &slug)
}

/// The names of the musical scales that the index knows.
pub fn scale_names() -> (names: Vec<&'static str>)
    ensures
        names@.map_values(|name: &'static str| name@) == scales(),
{
    let names = vec![
        "Ματζόρε",
        "Ραστ",
        "Φυσικό Μινόρε",
        "Αρμονικό Μινόρε",
        "Χιτζάζ",
        "Χιτζαζκάρ",
        "Πειραιώτικο",
        "Ουσάκ",
        "Καρσιγάρ",
        "Σαμπάχ",
        "Νικρίζ",
        "Νιαβέντ",
        "Χουζάμ",
        "Σεγκιάχ",
        "Σουζινάκ",
        "Κιουρντί",
    ];
    assert(names@.map_values(|name: &'static str| name@) =~= scales());
    names
}

/// Everything that the index is to hold for `songs`: each song's document, its
/// artist's behind it unless an earlier song brought that artist, and the scales'
/// documents at the end.
pub fn index_documents(songs: &Vec<Song>) -> (documents: Vec<Document>)
    ensures
        document_views(documents@) == index_entries(song_views(songs@)),
{
    let ghost views = song_views(songs@);
    let mut documents: Vec<Document> = Vec::new();
    let mut indexed_artists: Vec<String> = Vec::new();
    let mut i: usize = 0;
    assert(document_views(documents@) == song_entries(views, 0));
    while i < songs.len()
        invariant
            i <= songs.len(),
            views == song_views(songs@),
            document_views(documents@) == song_entries(views, i as int),
            forall|j: int|
                0 <= j < i ==> holds_name(indexed_artists@, (#[trigger] views[j]).artist),
            forall|k: int|
                0 <= k < indexed_artists.len() ==> artist_among(
                    views,
                    i as int,
                    (#[trigger] indexed_artists@[k])@,
                ),
        decreases songs.len() - i,
    {
        let song = &songs[i];
        assert(views[i as int] == song@);
        let ghost before = documents@;
        let document = song_document(song);
        documents.push(document);
        assert(document_views(documents@) == document_views(before).push(song_entry(song@)));
        let mut known = false;
        let mut k: usize = 0;
        while k < indexed_artists.len()
            invariant
                k <= indexed_artists.len(),
                known <==> holds_name(indexed_artists@.subrange(0, k as int), song@.artist),
            decreases indexed_artists.len() - k,
        {
            let ghost seen = indexed_artists@.subrange(0, k as int);
            let ghost next = indexed_artists@.subrange(0, k + 1);
            if indexed_artists[k] == song.artist {
                known = true;
                assert(next[k as int]@ == song@.artist);
            } else {
                assert(holds_name(next, song@.artist) ==> holds_name(seen, song@.artist)) by {
                    if holds_name(next, song@.artist) {
                        let m = choose|m: int| 0 <= m < next.len() && (#[trigger] next[m])@ == song@.artist;
                        assert(seen[m]@ == song@.artist);
                    }
                }
            }
            assert(holds_name(seen, song@.artist) ==> holds_name(next, song@.artist)) by {
                if holds_name(seen, song@.artist) {
                    let m = choose|m: int| 0 <= m < seen.len() && (#[trigger] seen[m])@ == song@.artist;
                    assert(next[m]@ == song@.artist);
                }
            }
            k += 1;
        }
        assert(indexed_artists@.subrange(0, indexed_artists.len() as int) == indexed_artists@);
        assert(known <==> artist_seen_before(views, i as int)) by {
            if known {
                let m = choose|m: int| 0 <= m < indexed_artists.len() && (#[trigger] indexed_artists@[m])@ == song@.artist;
                assert(artist_among(views, i as int, indexed_artists@[m]@));
            }
            if artist_seen_before(views, i as int) {
                let j = choose|j: int| 0 <= j < i && (#[trigger] views[j]).artist == song@.artist;
                assert(holds_name(indexed_artists@, views[j].artist));
            }
        }
        if !known {
            let ghost with_song = documents@;
            let document = artist_document(song);
            documents.push(document);
            assert(document_views(documents@) == document_views(with_song).push(
                artist_entry(song@),
            ));
            let ghost names_before = indexed_artists@;
            indexed_artists.push(song.artist.clone());
            assert(indexed_artists@[indexed_artists.len() - 1]@ == views[i as int].artist);
            assert forall|j: int| 0 <= j < i implies holds_name(
                indexed_artists@,
                (#[trigger] views[j]).artist,
            ) by {
                let m = choose|m: int| 0 <= m < names_before.len() && (#[trigger] names_before[m])@ == views[j].artist;
                assert(indexed_artists@[m]@ == views[j].artist);
            }
        }
        assert(holds_name(indexed_artists@, views[i as int].artist)) by {
            if known {
            } else {
                assert(indexed_artists@[indexed_artists.len() - 1]@ == views[i as int].artist);
            }
        }
        assert forall|k: int| 0 <= k < indexed_artists.len() implies artist_among(
            views,
            i + 1,
            (#[trigger] indexed_artists@[k])@,
        ) by {
            if known || k < indexed_artists.len() - 1 {
                let j = choose|j: int| 0 <= j < i && (#[trigger] views[j]).artist == indexed_artists@[k]@;
                assert(views[j].artist == indexed_artists@[k]@);
            } else {
                assert(views[i as int].artist == indexed_artists@[k]@);
            }
        }
        i += 1;
    }
    let names = scale_names();
    let ghost of_songs = documents@;
    let ghost scale_views = names@.map_values(|name: &'static str| name@);
    let ghost entry = |scale: Seq<char>| scale_entry(scale);
    let mut n: usize = 0;
    assert(scale_views.subrange(0, 0).map_values(entry) == Seq::<Seq<(Field, Seq<char>)>>::empty());
    assert(document_views(of_songs) + Seq::<Seq<(Field, Seq<char>)>>::empty() == document_views(
        of_songs,
    ));
    while n < names.len()
        invariant
            n <= names.len(),
            scale_views == names@.map_values(|name: &'static str| name@),
            entry == |scale: Seq<char>| scale_entry(scale),
            document_views(documents@) == document_views(of_songs) + scale_views.subrange(
                0,
                n as int,
            ).map_values(entry),
        decreases names.len() - n,
    {
        let ghost before = documents@;
        let document = scale_document(names[n]);
        documents.push(document);
        assert(document_views(documents@) == document_views(before).push(
            scale_entry(scale_views[n as int]),
        ));
        assert(scale_views.subrange(0, n + 1).map_values(entry) == scale_views.subrange(
            0,
            n as int,
        ).map_values(entry).push(scale_entry(scale_views[n as int])));
        n += 1;
    }
    assert(scale_views.subrange(0, names.len() as int) == scale_views);
    documents
}

/// One stored field of a result: the field's name and its text.
pub struct Entry {
    pub name: String,
    pub value: String,
}

impl View for Entry {
    type V = (Seq<char>, Seq<char>);

    open spec fn view(&self) -> (Seq<char>, Seq<char>) {
        (self.name@, self.value@)
    }
}

/// What each of `entries` holds, in order.
pub open spec fn entry_views(entries: Seq<Entry>) -> Seq<(Seq<char>, Seq<char>)> {
    entries.map_values(|entry: Entry| entry@)
}

/// What each of `values` holds, in order.
pub open spec fn pair_views(values: Seq<(String, String)>) -> Seq<(Seq<char>, Seq<char>)> {
    values.map_values(|value: (String, String)| (value.0@, value.1@))
}

/// The mapping from names to texts that a run of named texts amounts to: where a
/// name comes twice, its later text stands.
pub open spec fn row_map(values: Seq<(Seq<char>, Seq<char>)>) -> Map<Seq<char>, Seq<char>>
    decreases values.len(),
{
    if values.len() == 0 {
        Map::empty()
    } else {
        row_map(values.drop_last()).insert(values.last().0, values.last().1)
    }
}

/// No name occurs twice among `values`.
pub open spec fn distinct_names(values: Seq<(Seq<char>, Seq<char>)>) -> bool {
    forall|i: int, j: int|
        0 <= i < j < values.len() ==> (#[trigger] values[i]).0 != (#[trigger] values[j]).0
}

/// A name is mapped exactly where it occurs.
pub proof fn lemma_row_map_domain(values: Seq<(Seq<char>, Seq<char>)>, name: Seq<char>)
    ensures
        row_map(values).contains_key(name) <==> exists|i: int|
            0 <= i < values.len() && (#[trigger] values[i]).0 == name,
    decreases values.len(),
{
    if values.len() > 0 {
        let before = values.drop_last();
        lemma_row_map_domain(before, name);
        if row_map(values).contains_key(name) {
            if values.last().0 == name {
                assert(values[values.len() - 1].0 == name);
            } else {
                let i = choose|i: int| 0 <= i < before.len() && (#[trigger] before[i]).0 == name;
                assert(values[i].0 == name);
            }
        }
        if exists|i: int| 0 <= i < values.len() && (#[trigger] values[i]).0 == name {
            let i = choose|i: int| 0 <= i < values.len() && (#[trigger] values[i]).0 == name;
            if i < values.len() - 1 {
                assert(before[i].0 == name);
            }
        }
    }
}

/// Where no name occurs twice, each name is mapped to the text beside it.
pub proof fn lemma_row_map_value(values: Seq<(Seq<char>, Seq<char>)>, at: int)
    requires
        distinct_names(values),
        0 <= at < values.len(),
    ensures
        row_map(values).contains_key(values[at].0),
        row_map(values)[values[at].0] == values[at].1,
    decreases values.len(),
{
    let before = values.drop_last();
    if at < values.len() - 1 {
        assert(distinct_names(before)) by {
            assert forall|i: int, j: int| 0 <= i < j < before.len() implies (#[trigger] before[i]).0
                != (#[trigger] before[j]).0 by {
                assert(values[i].0 != values[j].0);
            }
        }
        lemma_row_map_value(before, at);
        assert(before[at] == values[at]);
        assert(values[at].0 != values[values.len() - 1].0);
    }
}

/// Giving a name that occurs once another text, in place, amounts to mapping the
/// name anew.
pub proof fn lemma_row_map_update(
    values: Seq<(Seq<char>, Seq<char>)>,
    at: int,
    text: Seq<char>,
)
    requires
        distinct_names(values),
        0 <= at < values.len(),
    ensures
        distinct_names(values.update(at, (values[at].0, text))),
        row_map(values.update(at, (values[at].0, text))) == row_map(values).insert(
            values[at].0,
            text,
        ),
    decreases values.len(),
{
    let name = values[at].0;
    let updated = values.update(at, (name, text));
    assert(distinct_names(updated)) by {
        assert forall|i: int, j: int| 0 <= i < j < updated.len() implies (#[trigger] updated[i]).0
            != (#[trigger] updated[j]).0 by {
            assert(values[i].0 != values[j].0);
        }
    }
    let before = values.drop_last();
    if at == values.len() - 1 {
        assert(updated.drop_last() == before);
        assert(row_map(updated) =~= row_map(values).insert(name, text));
    } else {
        assert(distinct_names(before)) by {
            assert forall|i: int, j: int| 0 <= i < j < before.len() implies (#[trigger] before[i]).0
                != (#[trigger] before[j]).0 by {
                assert(values[i].0 != values[j].0);
            }
        }
        lemma_row_map_update(before, at, text);
        assert(before[at] == values[at]);
        assert(updated.drop_last() == before.update(at, (name, text)));
        assert(updated.last() == values.last());
        assert(values[at].0 != values[values.len() - 1].0);
        assert(row_map(updated) =~= row_map(values).insert(name, text));
    }
}

/// One row of a search result: the stored fields of a document, by name.
pub struct Row {
    pub entries: Vec<Entry>,
}

impl View for Row {
    type V = Map<Seq<char>, Seq<char>>;

    open spec fn view(&self) -> Map<Seq<char>, Seq<char>> {
        row_map(entry_views(self.entries@))
    }
}

impl Row {
    /// No field name occurs twice in the row.
    pub open spec fn wf(&self) -> bool {
        distinct_names(entry_views(self.entries@))
    }

    /// The row of a document's stored fields. Where the document gives a field's
    /// name twice, the later text stands.
    pub fn from_values(values: &Vec<(String, String)>) -> (row: Row)
        ensures
            row.wf(),
            row@ == row_map(pair_views(values@)),
    {
        let ghost given = pair_views(values@);
        let mut entries: Vec<Entry> = Vec::new();
        let mut i: usize = 0;
        assert(given.subrange(0, 0) == Seq::<(Seq<char>, Seq<char>)>::empty());
        while i < values.len()
            invariant
                i <= values.len(),
                given == pair_views(values@),
                distinct_names(entry_views(entries@)),
                row_map(entry_views(entries@)) == row_map(given.subrange(0, i as int)),
            decreases values.len() - i,
        {
            let ghost held = entry_views(entries@);
            let name = &values[i].0;
            let value = &values[i].1;
            proof {
                assert(given.subrange(0, i + 1).drop_last() == given.subrange(0, i as int));
                assert(given.subrange(0, i + 1).last() == (name@, value@));
            }
            let mut found: Option<usize> = None;
            let mut k: usize = 0;
            while k < entries.len()
                invariant
                    k <= entries.len(),
                    held == entry_views(entries@),
                    found matches Some(at) ==> at < k && held[at as int].0 == name@,
                    found is None ==> forall|m: int| 0 <= m < k ==> (#[trigger] held[m]).0 != name@,
                decreases entries.len() - k,
            {
                if entries[k].name == *name {
                    found = Some(k);
                }
                k += 1;
            }
            match found {
                Some(at) => {
                    proof {
                        lemma_row_map_update(held, at as int, value@);
                    }
                    let entry = Entry { name: name.clone(), value: value.clone() };
                    entries.set(at, entry);
                    assert(entry_views(entries@) == held.update(at as int, (name@, value@)));
                },
                None => {
                    let entry = Entry { name: name.clone(), value: value.clone() };
                    entries.push(entry);
                    assert(entry_views(entries@) == held.push((name@, value@)));
                    assert(entry_views(entries@).drop_last() == held);
                    assert(distinct_names(entry_views(entries@))) by {
                        let now = entry_views(entries@);
                        assert forall|a: int, b: int| 0 <= a < b < now.len() implies (
                        #[trigger] now[a]).0 != (#[trigger] now[b]).0 by {
                            if b < held.len() {
                                assert(held[a].0 != held[b].0);
                            } else {
                                assert(held[a].0 != name@);
                            }
                        }
                    }
                },
            }
            i += 1;
        }
        assert(given.subrange(0, values.len() as int) == given);
        Row { entries }
    }

    /// The text stored under `name`, if the row has that field.
    pub fn get(&self, name: &str) -> (value: Option<&String>)
        requires
            self.wf(),
        ensures
            match value {
                Some(text) => self@.contains_key(name@) && self@[name@] == text@,
                None => !self@.contains_key(name@),
            },
    {
        let ghost held = entry_views(self.entries@);
        let wanted = String::from_str(name);
        let mut k: usize = 0;
        while k < self.entries.len()
            invariant
                k <= self.entries.len(),
                self.wf(),
                wanted@ == name@,
                held == entry_views(self.entries@),
                forall|m: int| 0 <= m < k ==> (#[trigger] held[m]).0 != name@,
            decreases self.entries.len() - k,
        {
            if self.entries[k].name == wanted {
                proof {
                    lemma_row_map_value(held, k as int);
                }
                return Some(&self.entries[k].value);
            }
            k += 1;
        }
        proof {
            lemma_row_map_domain(held, name@);
        }
        None
    }
}

/// The rows of `rows` as mappings, in order.
pub open spec fn row_views(rows: Seq<Row>) -> Seq<Map<Seq<char>, Seq<char>>> {
    rows.map_values(|row: Row| row@)
}

/// The first `limit` of `hits`, each as the mapping that its stored fields amount to.
pub open spec fn capped_rows(limit: int, hits: Seq<Seq<(Seq<char>, Seq<char>)>>) -> Seq<
    Map<Seq<char>, Seq<char>>,
> {
    let shown = if hits.len() <= limit {
        hits
    } else {
        hits.subrange(0, limit)
    };
    shown.map_values(|hit: Seq<(Seq<char>, Seq<char>)>| row_map(hit))
}

/// What each of `hits` holds, in order.
pub open spec fn hit_views(hits: Seq<Vec<(String, String)>>) -> Seq<Seq<(Seq<char>, Seq<char>)>> {
    hits.map_values(|hit: Vec<(String, String)>| pair_views(hit@))
}

/// The rows that a search returns for the documents that the index found, best
/// first: a full search at most 1000, a search by prefix at most 15, and none
/// where nothing was found.
pub fn result_rows(full: bool, hits: &Vec<Vec<(String, String)>>) -> (rows: Vec<Row>)
    ensures
        row_views(rows@) == capped_rows(
            if full {
                FULL_SEARCH_LIMIT as int
            } else {
                PREFIX_SEARCH_LIMIT as int
            },
            hit_views(hits@),
        ),
        forall|i: int| 0 <= i < rows.len() ==> (#[trigger] rows@[i]).wf(),
        full ==> rows.len() <= 1000,
        !full ==> rows.len() <= 15,
        rows.len() <= hits.len(),
        hits.len() == 0 ==> rows.len() == 0,
{
    let limit = search_plan(full).limit;
    let shown = if hits.len() <= limit {
        hits.len()
    } else {
        limit
    };
    let ghost given = hit_views(hits@);
    let ghost as_map = |hit: Seq<(Seq<char>, Seq<char>)>| row_map(hit);
    let mut rows: Vec<Row> = Vec::new();
    let mut i: usize = 0;
    while i < shown
        invariant
            i <= shown <= hits.len(),
            given == hit_views(hits@),
            as_map == |hit: Seq<(Seq<char>, Seq<char>)>| row_map(hit),
            rows.len() == i,
            row_views(rows@) == given.subrange(0, i as int).map_values(as_map),
            forall|m: int| 0 <= m < rows.len() ==> (#[trigger] rows@[m]).wf(),
        decreases shown - i,
    {
        let row = Row::from_values(&hits[i]);
        let ghost before = rows@;
        rows.push(row);
        assert(row_views(rows@) == row_views(before).push(row_map(given[i as int])));
        assert(given.subrange(0, i + 1).map_values(as_map) == given.subrange(
            0,
            i as int,
        ).map_values(as_map).push(row_map(given[i as int])));
        i += 1;
    }
    assert(given.subrange(0, hits.len() as int) == given);
    rows
}

} // verus!
