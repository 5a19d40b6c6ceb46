use vstd::prelude::*;
use vstd::utf8::is_ascii_chars;

use crate::pattern::{compile, is_match, pattern_of, ASCII_ONLY};
use crate::text::{chars_of, string_of, string_of_range};
use crate::utils::{greeklish, to_greeklish};

verus! {

/// The lines of a text: its pieces between line feeds. A text without a line feed
/// is one line, the empty text too.
pub open spec fn lines(text: Seq<char>) -> Seq<Seq<char>>
    decreases text.len(),
{
    if text.len() == 0 {
        seq![Seq::empty()]
    } else {
        let before = lines(text.drop_last());
        if text.last() == '\n' {
            before.push(Seq::empty())
        } else {
            before.drop_last().push(before.last().push(text.last()))
        }
    }
}

/// The characters that mark a repetition at the end of a lyric line, as in `| 2x`.
pub open spec fn is_repeat_mark(c: char) -> bool {
    c == ' ' || c == '|' || ('0' <= c <= '9') || c == 'x'
}

/// `line` without the repetition marks at its end.
pub open spec fn trim_marks(line: Seq<char>) -> Seq<char>
    decreases line.len(),
{
    if line.len() > 0 && is_repeat_mark(line.last()) {
        trim_marks(line.drop_last())
    } else {
        line
    }
}

/// The lines that hold a character beyond ASCII, each without its repetition marks.
pub open spec fn lyric_lines(lines: Seq<Seq<char>>) -> Seq<Seq<char>> {
    lines.filter(|line: Seq<char>| !is_ascii_chars(line)).map_values(
        |line: Seq<char>| trim_marks(line),
    )
}

/// The lines joined by line feeds.
pub open spec fn join_lines(lines: Seq<Seq<char>>) -> Seq<char>
    decreases lines.len(),
{
    if lines.len() == 0 {
        Seq::empty()
    } else if lines.len() == 1 {
        lines[0]
    } else {
        join_lines(lines.drop_last()) + seq!['\n'] + lines.last()
    }
}

/// `text` without its dashes.
pub open spec fn without_dashes(text: Seq<char>) -> Seq<char> {
    text.filter(|c: char| c != '-')
}

/// The lyrics of a song body: its lyric lines joined again, dashes removed.
pub open spec fn stripped(text: Seq<char>) -> Seq<char> {
    without_dashes(join_lines(lyric_lines(lines(text))))
}

/// Whether `line` is free of line feeds.
pub open spec fn is_one_line(line: Seq<char>) -> bool {
    forall|i: int| 0 <= i < line.len() ==> #[trigger] line[i] != '\n'
}

/// A text has at least one line, and no line holds a line feed.
pub proof fn lemma_lines_are_lines(text: Seq<char>)
    ensures
        lines(text).len() >= 1,
        forall|i: int| 0 <= i < lines(text).len() ==> is_one_line(#[trigger] lines(text)[i]),
    decreases text.len(),
{
    if text.len() > 0 {
        lemma_lines_are_lines(text.drop_last());
        let before = lines(text.drop_last());
        assert forall|i: int| 0 <= i < lines(text).len() implies is_one_line(
            #[trigger] lines(text)[i],
        ) by {
            if i < before.len() - 1 {
                assert(lines(text)[i] == before[i]);
            } else if text.last() != '\n' && i == before.len() - 1 {
                assert(is_one_line(before[i]));
            }
        }
    }
}

/// A text without a line feed is its own single line.
pub proof fn lemma_lines_of_one_line(line: Seq<char>)
    requires
        is_one_line(line),
    ensures
        lines(line) == seq![line],
    decreases line.len(),
{
    if line.len() > 0 {
        let front = line.drop_last();
        assert(is_one_line(front)) by {
            assert forall|i: int| 0 <= i < front.len() implies #[trigger] front[i] != '\n' by {
                assert(front[i] == line[i]);
            }
        }
        lemma_lines_of_one_line(front);
        assert(line.last() == line[line.len() - 1]);
        assert(front.push(line.last()) == line);
        assert(seq![front].drop_last().push(line) =~= seq![line]);
    } else {
        assert(line == Seq::<char>::empty());
    }
}

/// One more line behind a line feed is one more line.
pub proof fn lemma_lines_of_appended_line(text: Seq<char>, line: Seq<char>)
    requires
        is_one_line(line),
    ensures
        lines(text + seq!['\n'] + line) == lines(text).push(line),
    decreases line.len(),
{
    let whole = text + seq!['\n'] + line;
    if line.len() == 0 {
        assert(whole.drop_last() == text);
        assert(line == Seq::<char>::empty());
    } else {
        let front = line.drop_last();
        assert(is_one_line(front)) by {
            assert forall|i: int| 0 <= i < front.len() implies #[trigger] front[i] != '\n' by {
                assert(front[i] == line[i]);
            }
        }
        lemma_lines_of_appended_line(text, front);
        assert(whole.drop_last() == text + seq!['\n'] + front);
        assert(whole.last() == line[line.len() - 1]);
        let before = lines(text).push(front);
        assert(before.drop_last() == lines(text));
        assert(front.push(line.last()) == line);
    }
}

/// Joining lines and splitting the result gives the lines back.
pub proof fn lemma_lines_of_joined(all: Seq<Seq<char>>)
    requires
        all.len() >= 1,
        forall|i: int| 0 <= i < all.len() ==> is_one_line(#[trigger] all[i]),
    ensures
        lines(join_lines(all)) == all,
    decreases all.len(),
{
    if all.len() == 1 {
        lemma_lines_of_one_line(all[0]);
        assert(seq![all[0]] =~= all);
    } else {
        let front = all.drop_last();
        assert forall|i: int| 0 <= i < front.len() implies is_one_line(#[trigger] front[i]) by {
            assert(front[i] == all[i]);
        }
        lemma_lines_of_joined(front);
        assert(is_one_line(all[all.len() - 1]));
        lemma_lines_of_appended_line(join_lines(front), all.last());
        assert(front.push(all.last()) == all);
    }
}

/// Taking the dashes out of a text takes them out of each of its lines.
pub proof fn lemma_lines_without_dashes(text: Seq<char>)
    ensures
        lines(without_dashes(text)) == lines(text).map_values(
            |line: Seq<char>| without_dashes(line),
        ),
    decreases text.len(),
{
    reveal(Seq::filter);
    let strip = |line: Seq<char>| without_dashes(line);
    if text.len() == 0 {
        assert(lines(text).map_values(strip) =~= seq![Seq::<char>::empty()]);
    } else {
        let front = text.drop_last();
        lemma_lines_without_dashes(front);
        lemma_lines_are_lines(front);
        let before = lines(front);
        let last = text.last();
        if last == '-' {
            assert(without_dashes(text) == without_dashes(front));
            assert(without_dashes(before.last().push(last)) == without_dashes(before.last())) by {
                assert(before.last().push(last).drop_last() == before.last());
            }
            assert(lines(text).map_values(strip) =~= before.map_values(strip));
        } else {
            let kept = without_dashes(front);
            assert(without_dashes(text) == kept.push(last));
            assert(kept.push(last).drop_last() == kept);
            if last == '\n' {
                assert(without_dashes(Seq::<char>::empty()) == Seq::<char>::empty());
                assert(lines(text).map_values(strip) =~= before.map_values(strip).push(
                    Seq::<char>::empty(),
                ));
            } else {
                assert(without_dashes(before.last().push(last)) == without_dashes(
                    before.last(),
                ).push(last)) by {
                    assert(before.last().push(last).drop_last() == before.last());
                }
                assert(lines(text).map_values(strip) =~= before.map_values(
                    strip,
                ).drop_last().push(before.map_values(strip).last().push(last)));
            }
        }
    }
}

/// Trimming keeps a beginning of the line, and with it every character that is
/// no repetition mark.
pub proof fn lemma_trim_marks_keeps(line: Seq<char>)
    ensures
        trim_marks(line).len() <= line.len(),
        trim_marks(line) == line.subrange(0, trim_marks(line).len() as int),
        forall|i: int|
            trim_marks(line).len() <= i < line.len() ==> is_repeat_mark(#[trigger] line[i]),
        trim_marks(line).len() > 0 ==> !is_repeat_mark(trim_marks(line).last()),
    decreases line.len(),
{
    if line.len() > 0 && is_repeat_mark(line.last()) {
        let front = line.drop_last();
        lemma_trim_marks_keeps(front);
        let kept = trim_marks(front).len() as int;
        assert(front.subrange(0, kept) == line.subrange(0, kept));
        assert forall|i: int| kept <= i < line.len() implies is_repeat_mark(
            #[trigger] line[i],
        ) by {
            if i < front.len() {
                assert(front[i] == line[i]);
            }
        }
    } else {
        assert(line.subrange(0, line.len() as int) == line);
    }
}

/// A line is a lyric line when it holds a character beyond ASCII and no line feed.
pub open spec fn is_lyric_line(line: Seq<char>) -> bool {
    is_one_line(line) && !is_ascii_chars(line)
}

/// Trimming a lyric line leaves a lyric line.
proof fn lemma_trimmed_lyric_line(line: Seq<char>)
    requires
        is_lyric_line(line),
    ensures
        is_lyric_line(trim_marks(line)),
{
    lemma_trim_marks_keeps(line);
    let kept = trim_marks(line);
    let at = choose|i: int| 0 <= i < line.len() && !('\0' <= #[trigger] line[i] <= '\u{7f}');
    assert(!is_repeat_mark(line[at]));
    assert(kept[at] == line[at]);
    assert forall|i: int| 0 <= i < kept.len() implies #[trigger] kept[i] != '\n' by {
        assert(kept[i] == line[i]);
    }
}

/// Taking the dashes out of a lyric line leaves a lyric line.
proof fn lemma_dashless_lyric_line(line: Seq<char>)
    requires
        is_lyric_line(line),
    ensures
        is_lyric_line(without_dashes(line)),
{
    let no_dash = |c: char| c != '-';
    let kept = without_dashes(line);
    let at = choose|i: int| 0 <= i < line.len() && !('\0' <= #[trigger] line[i] <= '\u{7f}');
    line.lemma_filter_contains(no_dash, at);
    let to = choose|i: int| 0 <= i < kept.len() && kept[i] == line[at];
    assert(!('\0' <= kept[to] <= '\u{7f}'));
    assert forall|i: int| 0 <= i < kept.len() implies #[trigger] kept[i] != '\n' by {
        line.lemma_filter_contains_rev(no_dash, kept[i]);
        let from = choose|j: int| 0 <= j < line.len() && line[j] == kept[i];
        assert(line[from] != '\n');
    }
}

/// What is kept of the lines of a text are lyric lines.
proof fn lemma_lyric_lines_are_lyric(all: Seq<Seq<char>>)
    requires
        forall|i: int| 0 <= i < all.len() ==> is_one_line(#[trigger] all[i]),
    ensures
        forall|i: int|
            0 <= i < lyric_lines(all).len() ==> is_lyric_line(#[trigger] lyric_lines(all)[i]),
{
    let lyric = |line: Seq<char>| !is_ascii_chars(line);
    let kept = all.filter(lyric);
    assert forall|i: int| 0 <= i < lyric_lines(all).len() implies is_lyric_line(
        #[trigger] lyric_lines(all)[i],
    ) by {
        all.lemma_filter_pred(lyric, i);
        all.lemma_filter_contains_rev(lyric, kept[i]);
        let from = choose|j: int| 0 <= j < all.len() && all[j] == kept[i];
        assert(is_one_line(all[from]));
        lemma_trimmed_lyric_line(kept[i]);
    }
}

/// The lyrics keep no line of chords and no dash: unless nothing is left, each of
/// their lines is a lyric line of the text, without its repetition marks and its
/// dashes, and so holds a character beyond ASCII.
pub proof fn lemma_stripped_lines(text: Seq<char>)
    ensures
        forall|i: int| 0 <= i < stripped(text).len() ==> #[trigger] stripped(text)[i] != '-',
        lyric_lines(lines(text)).len() == 0 ==> stripped(text).len() == 0,
        lyric_lines(lines(text)).len() > 0 ==> lines(stripped(text)) == lyric_lines(
            lines(text),
        ).map_values(|line: Seq<char>| without_dashes(line)),
        lyric_lines(lines(text)).len() > 0 ==> forall|i: int|
            0 <= i < lines(stripped(text)).len() ==> is_lyric_line(
                #[trigger] lines(stripped(text))[i],
            ),
{
    let kept = lyric_lines(lines(text));
    lemma_lines_are_lines(text);
    lemma_lyric_lines_are_lyric(lines(text));
    assert forall|i: int| 0 <= i < stripped(text).len() implies #[trigger] stripped(text)[i]
        != '-' by {
        join_lines(kept).lemma_filter_pred(|c: char| c != '-', i);
    }
    if kept.len() == 0 {
        reveal(Seq::filter);
        assert(join_lines(kept).len() == 0);
    } else {
        lemma_lines_of_joined(kept);
        lemma_lines_without_dashes(join_lines(kept));
        assert forall|i: int| 0 <= i < lines(stripped(text)).len() implies is_lyric_line(
            #[trigger] lines(stripped(text))[i],
        ) by {
            assert(is_lyric_line(kept[i]));
            lemma_dashless_lyric_line(kept[i]);
        }
    }
}

/// What each of `lines` holds, in order.
pub open spec fn line_views(lines: Seq<Vec<char>>) -> Seq<Seq<char>> {
    lines.map_values(|line: Vec<char>| line@)
}

/// The characters of `chars` from index `from` up to `to`.
pub fn copy_range(chars: &Vec<char>, from: usize, to: usize) -> (copy: Vec<char>)
    requires
        from <= to <= chars.len(),
    ensures
        copy@ == chars@.subrange(from as int, to as int),
{
    let mut copy: Vec<char> = Vec::new();
    let mut i: usize = from;
    while i < to
        invariant
            from <= i <= to <= chars.len(),
            copy@ == chars@.subrange(from as int, i as int),
        decreases to - i,
    {
        copy.push(chars[i]);
        i += 1;
    }
    copy
}

/// Splits the characters from `from` up to `to` into lines.
pub fn split_lines(chars: &Vec<char>, from: usize, to: usize) -> (split: Vec<Vec<char>>)
    requires
        from <= to <= chars.len(),
    ensures
        line_views(split@) == lines(chars@.subrange(from as int, to as int)),
{
    let mut done: Vec<Vec<char>> = Vec::new();
    let mut current: Vec<char> = Vec::new();
    let mut i: usize = from;
    assert(line_views(done@).push(current@) == lines(chars@.subrange(from as int, from as int)));
    while i < to
        invariant
            from <= i <= to <= chars.len(),
            line_views(done@).push(current@) == lines(chars@.subrange(from as int, i as int)),
        decreases to - i,
    {
        let c = chars[i];
        let ghost before = lines(chars@.subrange(from as int, i as int));
        proof {
            let next = chars@.subrange(from as int, i + 1);
            assert(next.drop_last() == chars@.subrange(from as int, i as int));
            assert(next.last() == c);
            assert(before.drop_last() == line_views(done@));
            assert(before.last() == current@);
        }
        if c == '\n' {
            let ghost done_before = done@;
            done.push(current);
            current = Vec::new();
            assert(line_views(done@) == line_views(done_before).push(before.last()));
        } else {
            current.push(c);
        }
        i += 1;
    }
    let ghost done_before = done@;
    let ghost last = current@;
    done.push(current);
    assert(line_views(done@) == line_views(done_before).push(last));
    done
}

/// Whether `c` is a repetition mark.
fn is_repeat_mark_of(c: char) -> (mark: bool)
    ensures
        mark == is_repeat_mark(c),
{
    c == ' ' || c == '|' || ('0' <= c && c <= '9') || c == 'x'
}

/// `line` without the repetition marks at its end.
pub fn trim_repeat_marks(line: &Vec<char>) -> (trimmed: Vec<char>)
    ensures
        trimmed@ == trim_marks(line@),
{
    let mut end: usize = line.len();
    assert(line@.subrange(0, end as int) == line@);
    while end > 0 && is_repeat_mark_of(line[end - 1])
        invariant
            end <= line.len(),
            trim_marks(line@.subrange(0, end as int)) == trim_marks(line@),
        decreases end,
    {
        assert(line@.subrange(0, end as int).drop_last() == line@.subrange(0, end - 1));
        end -= 1;
    }
    copy_range(line, 0, end)
}

/// Joins `lines` by line feeds.
pub fn join(lines: &Vec<Vec<char>>) -> (joined: Vec<char>)
    ensures
        joined@ == join_lines(line_views(lines@)),
{
    let mut joined: Vec<char> = Vec::new();
    let mut i: usize = 0;
    let ghost views = line_views(lines@);
    assert(views.subrange(0, 0) == Seq::<Seq<char>>::empty());
    while i < lines.len()
        invariant
            i <= lines.len(),
            views == line_views(lines@),
            joined@ == join_lines(views.subrange(0, i as int)),
        decreases lines.len() - i,
    {
        let ghost before = joined@;
        if i > 0 {
            joined.push('\n');
        }
        let ghost start = joined@;
        let line = &lines[i];
        let mut k: usize = 0;
        while k < line.len()
            invariant
                k <= line.len(),
                joined@ == start + line@.subrange(0, k as int),
            decreases line.len() - k,
        {
            joined.push(line[k]);
            k += 1;
        }
        proof {
            assert(line@.subrange(0, line.len() as int) == line@);
            let next = views.subrange(0, i + 1);
            assert(next.drop_last() == views.subrange(0, i as int));
            assert(next.last() == line@);
            if i == 0 {
                assert(start == Seq::<char>::empty());
                assert(start + line@ == line@);
            }
        }
        i += 1;
    }
    assert(views.subrange(0, lines.len() as int) == views);
    joined
}

/// Remove lines that contain only chords and symbols and trim unneeded characters.
pub fn strip_metadata(string: &str) -> (lyrics: String)
    ensures
        lyrics@ == stripped(string@),
        forall|i: int| 0 <= i < lyrics@.len() ==> #[trigger] lyrics@[i] != '-',
{
    let ascii_only = compile(ASCII_ONLY);
    let chars = chars_of(string);
    let all = split_lines(&chars, 0, chars.len());
    assert(chars@.subrange(0, chars.len() as int) == chars@);
    let ghost views = line_views(all@);
    let ghost lyric = |line: Seq<char>| !is_ascii_chars(line);
    let ghost trim = |line: Seq<char>| trim_marks(line);
    let mut kept: Vec<Vec<char>> = Vec::new();
    let mut i: usize = 0;
    assert(views.subrange(0, 0).filter(lyric) == Seq::<Seq<char>>::empty()) by {
        reveal(Seq::filter);
    }
    while i < all.len()
        invariant
            i <= all.len(),
            views == line_views(all@),
            lyric == |line: Seq<char>| !is_ascii_chars(line),
            trim == |line: Seq<char>| trim_marks(line),
            pattern_of(ascii_only) == ASCII_ONLY@,
            line_views(kept@) == views.subrange(0, i as int).filter(lyric).map_values(trim),
        decreases all.len() - i,
    {
        let line = string_of(&all[i]);
        proof {
            reveal(Seq::filter);
            assert(views.subrange(0, i + 1).drop_last() == views.subrange(0, i as int));
            assert(views.subrange(0, i + 1).last() == all@[i as int]@);
        }
        if !is_match(&ascii_only, line.as_str()) {
            let trimmed = trim_repeat_marks(&all[i]);
            let ghost before = kept@;
            kept.push(trimmed);
            assert(line_views(kept@) == line_views(before).push(trim_marks(all@[i as int]@)));
            assert(views.subrange(0, i + 1).filter(lyric).map_values(trim) == views.subrange(
                0,
                i as int,
            ).filter(lyric).map_values(trim).push(trim_marks(all@[i as int]@)));
        }
        i += 1;
    }
    assert(views.subrange(0, all.len() as int) == views);
    let joined = join(&kept);
    let ghost no_dash = |c: char| c != '-';
    let mut lyrics: Vec<char> = Vec::new();
    let mut k: usize = 0;
    assert(joined@.subrange(0, 0).filter(no_dash) == Seq::<char>::empty()) by {
        reveal(Seq::filter);
    }
    while k < joined.len()
        invariant
            k <= joined.len(),
            no_dash == |c: char| c != '-',
            lyrics@ == joined@.subrange(0, k as int).filter(no_dash),
            forall|j: int| 0 <= j < lyrics@.len() ==> #[trigger] lyrics@[j] != '-',
        decreases joined.len() - k,
    {
        proof {
            reveal(Seq::filter);
            assert(joined@.subrange(0, k + 1).drop_last() == joined@.subrange(0, k as int));
        }
        if joined[k] != '-' {
            lyrics.push(joined[k]);
        }
        k += 1;
    }
    assert(joined@.subrange(0, joined.len() as int) == joined@);
    string_of(&lyrics)
}

/// A song as the index takes it: its name, its artist and its lyrics, each beside
/// its greeklish form.
pub struct Song {
    pub name: String,
    pub slug: String,
    pub artist: String,
    pub artist_slug: String,
    pub body: String,
    pub body_greeklish: String,
}

/// What a `Song` holds, as sequences of characters.
pub struct SongView {
    pub name: Seq<char>,
    pub slug: Seq<char>,
    pub artist: Seq<char>,
    pub artist_slug: Seq<char>,
    pub body: Seq<char>,
    pub body_greeklish: Seq<char>,
}

impl View for Song {
    type V = SongView;

    open spec fn view(&self) -> SongView {
        SongView {
            name: self.name@,
            slug: self.slug@,
            artist: self.artist@,
            artist_slug: self.artist_slug@,
            body: self.body@,
            body_greeklish: self.body_greeklish@,
        }
    }
}

/// Why a song file is refused.
#[derive(Debug, PartialEq, Eq, Clone, Copy)]
pub enum FormatError {
    /// The file has fewer than three blank lines, so one of its four blocks is missing.
    MissingBlocks,
    /// The first block has neither two lines nor three.
    HeaderLines,
}

/// The index at or behind `from` where the first blank line begins, that is two
/// line feeds in a row; the length of the text where there is none.
pub open spec fn next_blank_line(text: Seq<char>, from: int) -> int
    decreases text.len() - from,
{
    if from < 0 || from + 1 >= text.len() {
        text.len() as int
    } else if text[from] == '\n' && text[from + 1] == '\n' {
        from
    } else {
        next_blank_line(text, from + 1)
    }
}

/// Where the header block ends.
pub open spec fn header_end(text: Seq<char>) -> int {
    next_blank_line(text, 0)
}

/// Where the body block begins: behind the third blank line.
pub open spec fn body_start(text: Seq<char>) -> int {
    next_blank_line(text, next_blank_line(text, header_end(text) + 2) + 2) + 2
}

/// Whether the text has the three blank lines that part its four blocks.
pub open spec fn has_four_blocks(text: Seq<char>) -> bool {
    body_start(text) <= text.len()
}

/// The lines of the header block.
pub open spec fn header_lines(text: Seq<char>) -> Seq<Seq<char>> {
    lines(text.subrange(0, header_end(text)))
}

/// The song with the given name, artist and lyrics.
pub open spec fn song_of(name: Seq<char>, artist: Seq<char>, body: Seq<char>) -> SongView {
    SongView {
        name,
        slug: greeklish(name),
        artist,
        artist_slug: greeklish(artist),
        body,
        body_greeklish: greeklish(body),
    }
}

/// What a song file holds: header, scale, rhythm and body, parted by the first
/// three blank lines. The header names the song and its artist, and may add a
/// third line, which is not kept.
pub open spec fn parsed(text: Seq<char>) -> Result<SongView, FormatError> {
    if !has_four_blocks(text) {
        Err(FormatError::MissingBlocks)
    } else if header_lines(text).len() != 2 && header_lines(text).len() != 3 {
        Err(FormatError::HeaderLines)
    } else {
        Ok(
            song_of(
                header_lines(text)[0],
                header_lines(text)[1],
                stripped(text.skip(body_start(text))),
            ),
        )
    }
}

/// Where the first blank line at or behind `from` begins.
fn find_blank_line(chars: &Vec<char>, from: usize) -> (at: usize)
    ensures
        at == next_blank_line(chars@, from as int),
        at == chars.len() || at + 2 <= chars.len(),
        from <= chars.len() ==> from <= at,
{
    if from >= chars.len() {
        return chars.len();
    }
    let mut i: usize = from;
    while i + 1 < chars.len()
        invariant
            from <= i < chars.len(),
            next_blank_line(chars@, i as int) == next_blank_line(chars@, from as int),
        decreases chars.len() - i,
    {
        if chars[i] == '\n' && chars[i + 1] == '\n' {
            return i;
        }
        i += 1;
    }
    chars.len()
}

impl Song {
    /// Reads a song from the contents of its file.
    pub fn parse(contents: &str) -> (song: Result<Song, FormatError>)
        ensures
            match parsed(contents@) {
                Ok(expected) => song matches Ok(read) && read@ == expected,
                Err(error) => song matches Err(found) && found == error,
            },
            song is Ok <==> has_four_blocks(contents@) && (header_lines(contents@).len() == 2
                || header_lines(contents@).len() == 3),
    {
        let chars = chars_of(contents);
        let head_end = find_blank_line(&chars, 0);
        if head_end >= chars.len() {
            return Err(FormatError::MissingBlocks);
        }
        let scale_end = find_blank_line(&chars, head_end + 2);
        if scale_end >= chars.len() {
            return Err(FormatError::MissingBlocks);
        }
        let rhythm_end = find_blank_line(&chars, scale_end + 2);
        if rhythm_end >= chars.len() {
            return Err(FormatError::MissingBlocks);
        }
        let header = split_lines(&chars, 0, head_end);
        if header.len() != 2 && header.len() != 3 {
            return Err(FormatError::HeaderLines);
        }
        let name = string_of(&header[0]);
        let artist = string_of(&header[1]);
        let raw_body = string_of_range(&chars, rhythm_end + 2, chars.len());
        let body = strip_metadata(raw_body.as_str());
        let slug = to_greeklish(name.as_str());
        let artist_slug = to_greeklish(artist.as_str());
        let body_greeklish = to_greeklish(body.as_str());
        Ok(Song { name, slug, artist, artist_slug, body, body_greeklish })
    }
}

} // verus!
