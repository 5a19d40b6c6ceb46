use buzuki_search::song::{
    copy_range, join, split_lines, strip_metadata, trim_repeat_marks, FormatError, Song,
};

fn chars(text: &str) -> Vec<char> {
    text.chars().collect()
}

#[test]
fn chord_lines_leave_and_lyric_lines_stay() {
    let body = "Bm Bm F#\nΠερνούσα και σ' αντίκρυζα   | 2x\nEm\nκαι τό-τες πια";
    assert_eq!(
        strip_metadata(body),
        "Περνούσα και σ' αντίκρυζα\nκαι τότες πια"
    );
}

#[test]
fn a_line_needs_one_character_beyond_ascii_to_stay() {
    assert_eq!(strip_metadata("D α\nD a"), "D α");
    assert_eq!(strip_metadata("abc\n123\n"), "");
    assert_eq!(strip_metadata(""), "");
    assert_eq!(strip_metadata("\n\n"), "");
}

#[test]
fn repetition_marks_are_trimmed_at_the_end_only() {
    assert_eq!(strip_metadata("α | 2x"), "α");
    assert_eq!(strip_metadata("2x α x2"), "2x α");
    assert_eq!(strip_metadata("α|0123456789x | "), "α");
    assert_eq!(strip_metadata("αx"), "α");
    assert_eq!(strip_metadata("α y"), "α y");
}

#[test]
fn dashes_leave_everywhere() {
    assert_eq!(strip_metadata("α-α-\n-β"), "αα\nβ");
    assert_eq!(strip_metadata("α -"), "α ");
    assert!(!strip_metadata("ά-ά - | 2x\n--γ--\n-").contains('-'));
}

#[test]
fn blank_lines_inside_the_lyrics_leave() {
    assert_eq!(strip_metadata("α\n\nβ\n"), "α\nβ");
}

#[test]
fn every_line_left_is_a_lyric_line() {
    let body = "Em  F#\nστίχος ένα | 2x\n\nD\nστί-χος δύο\n| 4x\n";
    let lyrics = strip_metadata(body);
    assert_eq!(lyrics, "στίχος ένα\nστίχος δύο");
    for line in lyrics.split('\n') {
        assert!(!line.is_ascii());
    }
}

#[test]
fn helpers_on_lines() {
    let text = chars("ab\nc\n");
    assert_eq!(
        split_lines(&text, 0, text.len()),
        vec![chars("ab"), chars("c"), chars("")]
    );
    assert_eq!(split_lines(&text, 1, 4), vec![chars("b"), chars("c")]);
    assert_eq!(split_lines(&text, 2, 2), vec![chars("")]);
    assert_eq!(copy_range(&text, 1, 3), chars("b\n"));
    assert_eq!(join(&vec![chars("a"), chars(""), chars("b")]), chars("a\n\nb"));
    assert_eq!(join(&vec![]), chars(""));
    assert_eq!(trim_repeat_marks(&chars("la | 12x")), chars("la"));
    assert_eq!(trim_repeat_marks(&chars("x 9")), chars(""));
}

#[test]
fn a_header_of_two_lines_is_read() {
    let song = Song::parse("Όνομα\nΚαλλιτέχνης\n\nscale\n\nrhythm\n\nστίχος").unwrap();
    assert_eq!(song.name, "Όνομα");
    assert_eq!(song.slug, "onoma");
    assert_eq!(song.artist, "Καλλιτέχνης");
    assert_eq!(song.artist_slug, "kallitexnis");
    assert_eq!(song.body, "στίχος");
    assert_eq!(song.body_greeklish, "stixos");
}

#[test]
fn a_header_of_three_lines_is_read_and_its_third_line_dropped() {
    let song = Song::parse("Α\nΒ\nhttp://example.org/x\n\ns\n\nr\n\nγ").unwrap();
    assert_eq!(song.name, "Α");
    assert_eq!(song.artist, "Β");
    assert_eq!(song.body, "γ");
}

#[test]
fn a_header_of_one_line_is_refused() {
    assert_eq!(
        Song::parse("Α\n\ns\n\nr\n\nγ").err(),
        Some(FormatError::HeaderLines)
    );
    assert_eq!(
        Song::parse("\n\ns\n\nr\n\nγ").err(),
        Some(FormatError::HeaderLines)
    );
}

#[test]
fn a_header_of_four_lines_or_more_is_refused() {
    assert_eq!(
        Song::parse("Α\nΒ\nu\nv\n\ns\n\nr\n\nγ").err(),
        Some(FormatError::HeaderLines)
    );
    assert_eq!(
        Song::parse("Α\nΒ\nu\nv\nw\n\ns\n\nr\n\nγ").err(),
        Some(FormatError::HeaderLines)
    );
}

#[test]
fn a_file_without_three_blank_lines_is_refused() {
    assert_eq!(Song::parse("").err(), Some(FormatError::MissingBlocks));
    assert_eq!(Song::parse("Α\nΒ").err(), Some(FormatError::MissingBlocks));
    assert_eq!(
        Song::parse("Α\nΒ\n\ns").err(),
        Some(FormatError::MissingBlocks)
    );
    assert_eq!(
        Song::parse("Α\nΒ\n\ns\n\nr").err(),
        Some(FormatError::MissingBlocks)
    );
    assert_eq!(
        Song::parse("Α\nΒ\nu\nv\n\ns\n\nr").err(),
        Some(FormatError::MissingBlocks)
    );
}

#[test]
fn the_body_may_be_empty_or_hold_blank_lines() {
    let empty = Song::parse("Α\nΒ\n\ns\n\nr\n\n").unwrap();
    assert_eq!(empty.body, "");
    assert_eq!(empty.body_greeklish, "");
    let parted = Song::parse("Α\nΒ\n\ns\n\nr\n\nα\n\nβ\n\nγ").unwrap();
    assert_eq!(parted.body, "α\nβ\nγ");
}

#[test]
fn blank_lines_are_taken_from_the_left_and_do_not_overlap() {
    let song = Song::parse("Α\nΒ\n\n\n\ns\n\nγ").unwrap();
    assert_eq!(song.name, "Α");
    assert_eq!(song.body, "γ");
    assert_eq!(
        Song::parse("Α\nΒ\n\n\ns\n\nγ").err(),
        Some(FormatError::MissingBlocks)
    );
}
