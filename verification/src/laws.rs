//! What holds of the library as a whole.
use vstd::prelude::*;
use vstd::utf8::{decode_utf8, decode_utf8_encode_utf8, encode_utf8, valid_utf8};
use crate::archive::{
    cdg_key, distinct_names, entry_named, entry_numbered, first_entry, sheet_in_zip, zip_bin,
    zip_resolution, EntryView,
};
use crate::config::{saves, SaveAction};
use crate::cue::{cut, sample, samples, FetchView, Track, ZipEntry, SECTOR_BYTES};
use crate::disc::{
    disc_start, ends_track, holds_track, in_sectors, index01_before, indices_fit, laid_out, layout_fits,
    length, lemma_files_ascend, lemma_listing_is_read, lemma_same_fit, lemma_same_listing,
    lemma_same_starts, lemma_starts_grow, place_fits, placed, reading, resolution, same_sizes,
    shares_file, sheet_fits, sheet_listing, sheet_tracks, size_of, Listed, Reading, ResolvedBin,
};
use crate::library::{
    is_cue_file, lemma_only_zips_push, only_zips, title_key, title_keys, DiscSource, DiscView, FileView,
    ScanView,
};
use crate::names::{
    bin_named, digits_number, disk_bin, first_track_word, first_where, folded, is_track_word,
    leading_digits, lemma_first_where, lemma_first_where_is, track_number,
};
use crate::order::{comes_before, key_le, lemma_key_le_both, sorted_by, stable_order};
use crate::paths::path_bytes;
use crate::sheet::{command, commands, file_names, line_command, CommandView, Msf};
use crate::text::{
    all_digits, ascii_lower, ascii_lowercase, digits_len, ends_with, field_len, find_from,
    from_first_digit, is_ascii_char, is_digit, is_white_space, lemma_digits_len_is, lemma_field_len,
    lemma_field_len_is, lines, lowercase, occurs_at, trim, trim_end, trim_start, uppercase,
};
use std::path::PathBuf;

verus! {

// ---- Names -------------------------------------------------------------------------------------
/// Folding leaves nothing but ASCII characters, and no capital letters.
pub proof fn law_fold_is_small_ascii(s: Seq<char>, i: int)
    requires
        0 <= i < folded(s).len(),
    ensures
        is_ascii_char(folded(s)[i]),
        !('A' <= folded(s)[i] && folded(s)[i] <= 'Z'),
{
    let ascii = |c: char| is_ascii_char(c);
    s.lemma_filter_pred(ascii, i);
}

/// The fold of two texts in a row is the fold of the one, then the fold of the other.
pub proof fn law_fold_joins(a: Seq<char>, b: Seq<char>)
    ensures
        folded(a + b) == folded(a) + folded(b),
{
    let ascii = |c: char| is_ascii_char(c);
    Seq::filter_distributes_over_add(a, b, ascii);
    assert(folded(a + b) =~= folded(a) + folded(b));
}

/// A character outside ASCII, wherever it stands, changes nothing in the fold.
pub proof fn law_fold_skips_non_ascii(a: Seq<char>, c: char, b: Seq<char>)
    requires
        !is_ascii_char(c),
    ensures
        folded(a + seq![c] + b) == folded(a + b),
{
    law_fold_joins(a + seq![c], b);
    law_fold_joins(a, seq![c]);
    law_fold_joins(a, b);
    lemma_fold_last(seq![c]);
    assert(folded(seq![c].drop_last()) =~= Seq::empty()) by {
        reveal(Seq::filter);
    }
    assert(folded(a) + folded(seq![c]) =~= folded(a));
}

/// Texts that differ only in the case of ASCII letters have the same fold.
pub proof fn law_fold_ignores_case(a: Seq<char>, b: Seq<char>)
    requires
        ascii_lowercase(a) == ascii_lowercase(b),
    ensures
        folded(a) == folded(b),
    decreases a.len(),
{
    assert(ascii_lowercase(a).len() == a.len() && ascii_lowercase(b).len() == b.len());
    reveal(Seq::filter);
    if a.len() > 0 {
        let n = a.len() - 1;
        assert(ascii_lowercase(a)[n] == ascii_lower(a[n]));
        assert(ascii_lowercase(b)[n] == ascii_lower(b[n]));
        assert(ascii_lowercase(a.drop_last()) =~= ascii_lowercase(a).drop_last());
        assert(ascii_lowercase(b.drop_last()) =~= ascii_lowercase(b).drop_last());
        law_fold_ignores_case(a.drop_last(), b.drop_last());
        lemma_fold_last(a);
        lemma_fold_last(b);
    } else {
        assert(a =~= b);
    }
}

proof fn lemma_fold_last(s: Seq<char>)
    requires
        s.len() > 0,
    ensures
        folded(s) == (if is_ascii_char(s.last()) {
            folded(s.drop_last()).push(ascii_lower(s.last()))
        } else {
            folded(s.drop_last())
        }),
{
    reveal(Seq::filter);
    if is_ascii_char(s.last()) {
        assert(folded(s) =~= folded(s.drop_last()).push(ascii_lower(s.last())));
    } else {
        assert(folded(s) =~= folded(s.drop_last()));
    }
}

/// Folding twice is folding once: the keys of an archive's entries stand for themselves.
pub proof fn law_fold_twice(s: Seq<char>)
    ensures
        folded(folded(s)) == folded(s),
    decreases s.len(),
{
    reveal(Seq::filter);
    if s.len() == 0 {
        assert(folded(s) =~= Seq::empty());
    } else {
        law_fold_twice(s.drop_last());
        lemma_fold_last(s);
        if is_ascii_char(s.last()) {
            let f = folded(s);
            assert(f.drop_last() =~= folded(s.drop_last()));
            lemma_fold_last(f);
        }
    }
}

pub(crate) proof fn lemma_find_from(s: Seq<char>, part: Seq<char>, i: int, at: int)
    requires
        0 <= i <= at,
        occurs_at(s, part, at),
        forall|j: int| i <= j < at ==> !#[trigger] occurs_at(s, part, j),
    ensures
        find_from(s, part, i) == Some(at),
    decreases at - i,
{
    if i < at {
        assert(!occurs_at(s, part, i));
        lemma_find_from(s, part, i + 1, at);
    }
}

proof fn lemma_find_nothing(s: Seq<char>, part: Seq<char>, i: int)
    requires
        0 <= i,
        forall|j: int| !#[trigger] occurs_at(s, part, j),
    ensures
        find_from(s, part, i) is None,
    decreases s.len() + 1 - i,
{
    if i + part.len() <= s.len() {
        lemma_find_nothing(s, part, i + 1);
    }
}

/// A number with nothing but white space before it begins with the first digit.
proof fn lemma_first_digit(s: Seq<char>)
    requires
        digits_len(trim_start(s)) > 0,
    ensures
        from_first_digit(s) == trim_start(s),
    decreases s.len(),
{
    if s.len() > 0 && is_white_space(s[0]) {
        lemma_first_digit(s.drop_first());
    }
}

/// A name with the word "track" in it once has the number that the first digits behind the word
/// write, whatever stands between; none where there are no digits or too many.
pub proof fn law_number_behind_track(lower: Seq<char>, at: int)
    requires
        occurs_at(lower, "track"@, at),
        forall|j: int| j != at ==> !#[trigger] occurs_at(lower, "track"@, j),
    ensures
        track_number(lower) == digits_number(
            leading_digits(from_first_digit(lower.skip(at + "track"@.len()))),
        ),
{
    reveal_strlit("track");
    let positions = Seq::new(lower.len(), |i: int| i);
    lemma_find_from(lower, "track"@, 0, at);
    lemma_first_where(positions, is_track_word(lower));
    if let Some(i) = first_track_word(lower) {
        assert(is_track_word(lower)(positions[i]));
        assert(occurs_at(lower, "track"@, i));
        lemma_first_digit(lower.skip(at + "track"@.len()));
    }
}

/// A name without the word "track" has no number.
pub proof fn law_no_track_no_number(lower: Seq<char>)
    requires
        forall|j: int| !#[trigger] occurs_at(lower, "track"@, j),
    ensures
        track_number(lower) is None,
{
    let positions = Seq::new(lower.len(), |i: int| i);
    lemma_find_nothing(lower, "track"@, 0);
    lemma_first_where(positions, is_track_word(lower));
    if let Some(i) = first_track_word(lower) {
        assert(is_track_word(lower)(positions[i]));
        assert(occurs_at(lower, "track"@, i));
    }
}

/// A number behind white space is there whatever follows.
proof fn lemma_digits_before(s: Seq<char>, rest: Seq<char>)
    requires
        rest.len() > 0,
        !is_white_space(rest[0]),
        !is_digit(rest[0]),
        digits_len(trim_start(s + rest)) > 0,
    ensures
        digits_len(trim_start(s)) > 0,
    decreases s.len(),
{
    if s.len() == 0 {
        assert(s + rest =~= rest);
    } else if is_white_space(s[0]) {
        assert((s + rest).drop_first() =~= s.drop_first() + rest);
        lemma_digits_before(s.drop_first(), rest);
    }
}

/// A name that holds "(track N)" has the track number N, unless another "track N" stands before it.
pub proof fn law_number_in_parentheses(a: Seq<char>, digits: Seq<char>, b: Seq<char>)
    requires
        digits.len() > 0,
        all_digits(digits),
        forall|j: int| !#[trigger] is_track_word(a)(j),
    ensures
        track_number(a + "(track "@ + digits + ")"@ + b) == digits_number(digits),
{
    reveal_strlit("(track ");
    reveal_strlit("track");
    reveal_strlit(")");
    let lower = a + "(track "@ + digits + ")"@ + b;
    let at = a.len() as int + 1;
    let n = digits.len() as int;
    let spaced = lower.skip(at + 5);
    let tail = digits + ")"@ + b;
    assert(lower.subrange(at, at + 5) =~= "track"@);
    assert(spaced[0] == ' ');
    assert(spaced.drop_first() =~= tail);
    assert(is_digit(tail[0])) by {
        assert(is_digit(digits[0]));
    }
    assert(trim_start(tail) == tail);
    assert(trim_start(spaced) == tail);
    assert forall|j: int| 0 <= j < n implies is_digit(tail[j]) by {
        assert(is_digit(digits[j]));
    }
    assert(tail[n] == ')');
    lemma_digits_len_is(tail, n);
    assert(tail.take(n) =~= digits);
    let p = is_track_word(lower);
    assert(lower[at - 1] == '(');
    assert(p(at));
    let positions = Seq::new(lower.len(), |i: int| i);
    assert forall|j: int| 0 <= j < at implies !p(#[trigger] positions[j]) by {
        if p(j) {
            let word = lower.subrange(j, j + 5);
            assert(word == "track"@);
            if j + 5 <= a.len() {
                let rest = lower.skip(a.len() as int);
                assert(a.subrange(j, j + 5) =~= word);
                assert(lower.skip(j + 5) =~= a.skip(j + 5) + rest);
                assert(rest[0] == '(');
                lemma_digits_before(a.skip(j + 5), rest);
                assert(is_track_word(a)(j));
            } else {
                let k = a.len() - j;
                assert(lower[a.len() as int] == '(');
                if k >= 0 {
                    assert(word[k] == lower[a.len() as int]);
                }
            }
        }
    }
    assert(positions[at] == at);
    lemma_first_where_is(positions, p, at);
}

/// A name that an archive holds in folded ASCII stands for that entry, however it is accented
/// and whatever its case: two names with the same fold stand for the same entries.
pub proof fn law_same_fold_same_entries(
    a: Seq<char>,
    b: Seq<char>,
    archive: PathBuf,
    entries: Seq<EntryView>,
)
    requires
        folded(a) == folded(b),
        first_entry(entries, entry_named(folded(a))) is Some,
    ensures
        zip_resolution(a, archive, entries) == zip_resolution(b, archive, entries),
{
}

/// Two names with the same fold and the same track number stand for the same file on disk.
pub proof fn law_same_fold_same_file(a: Seq<char>, b: Seq<char>, files: Seq<Seq<char>>)
    requires
        folded(a) == folded(b),
        track_number(lowercase(a)) == track_number(lowercase(b)),
    ensures
        disk_bin(a, files) == disk_bin(b, files),
{
    assert(bin_named(a) =~= bin_named(b));
}

/// Where every entry has a name of its own and at most one `.bin` entry has the track number that
/// is asked for, the order in which an archive's entries are listed does not matter.
pub proof fn law_entry_order(
    name: Seq<char>,
    archive: PathBuf,
    a: Seq<EntryView>,
    b: Seq<EntryView>,
)
    requires
        forall|e: EntryView| a.contains(e) <==> b.contains(e),
        distinct_names(a),
        track_number(lowercase(name)) matches Some(n) ==> forall|i: int, j: int|
            #![trigger a[i], a[j]]
            0 <= i < a.len() && 0 <= j < a.len() && entry_numbered(n)(a[i]) && entry_numbered(n)(a[j])
                ==> a[i] == a[j],
    ensures
        zip_resolution(name, archive, a) == zip_resolution(name, archive, b),
{
    lemma_only_entry(a, b, entry_named(folded(name)));
    if let Some(cdg) = cdg_key(folded(name)) {
        lemma_only_entry(a, b, entry_named(cdg));
    }
    if let Some(n) = track_number(lowercase(name)) {
        lemma_only_entry(a, b, entry_numbered(n));
    }
}

/// An entry that has a name in folded ASCII to itself is the bin of every sheet name with that
/// fold, wherever it is listed.
pub proof fn law_named_entry_is_found(name: Seq<char>, entries: Seq<EntryView>, i: int)
    requires
        distinct_names(entries),
        0 <= i < entries.len(),
        entries[i].name == folded(name),
    ensures
        zip_bin(name, entries) == Some(entries[i]),
{
    lemma_first_where(entries, entry_named(folded(name)));
    assert(entry_named(folded(name))(entries[i]));
}

proof fn lemma_only_entry(a: Seq<EntryView>, b: Seq<EntryView>, p: spec_fn(EntryView) -> bool)
    requires
        forall|e: EntryView| a.contains(e) <==> b.contains(e),
        forall|i: int, j: int|
            #![trigger a[i], a[j]]
            0 <= i < a.len() && 0 <= j < a.len() && p(a[i]) && p(a[j]) ==> a[i] == a[j],
    ensures
        first_entry(a, p) == first_entry(b, p),
{
    lemma_first_where(a, p);
    lemma_first_where(b, p);
    if let Some(i) = first_where(a, p) {
        assert(b.contains(a[i])) by {
            assert(a.contains(a[i]));
        }
        let k = choose|k: int| 0 <= k < b.len() && b[k] == a[i];
        assert(p(b[k]));
    }
    if let Some(j) = first_where(b, p) {
        assert(a.contains(b[j])) by {
            assert(b.contains(b[j]));
        }
        let k = choose|k: int| 0 <= k < a.len() && a[k] == b[j];
        assert(p(a[k]));
    }
}

// ---- Sheets ------------------------------------------------------------------------------------
/// The keywords of a sheet may be written in any case: lines that are the same in capital letters
/// give commands of the same kind, which differ at most in the file name or the track number.
pub proof fn law_keywords_in_any_case(a: Seq<char>, b: Seq<char>, upper: Seq<char>)
    ensures
        match command(a, upper) {
            CommandView::File(_) => command(b, upper) is File,
            CommandView::Track { audio, .. } => {
                &&& command(b, upper) is Track
                &&& command(b, upper)->Track_audio == audio
            },
            c => command(b, upper) == c,
        },
{
}

proof fn lemma_trim_start_push(s: Seq<char>, c: char)
    requires
        is_white_space(c),
    ensures
        trim_end(trim_start(s.push(c))) == trim(s),
    decreases s.len(),
{
    if s.len() > 0 && is_white_space(s[0]) {
        assert(s.push(c).drop_first() =~= s.drop_first().push(c));
        lemma_trim_start_push(s.drop_first(), c);
    } else if s.len() > 0 {
        assert(s.push(c).drop_last() =~= s);
    } else {
        assert(s.push(c).drop_first() =~= s);
        assert(trim_start(s.push(c)) == trim_start(s));
    }
}

/// White space at the end of a line changes nothing. In particular lines may end in a carriage
/// return and a line feed.
pub proof fn law_space_after_line(line: Seq<char>, c: char)
    requires
        is_white_space(c),
    ensures
        line_command(line.push(c)) == line_command(line),
{
    lemma_trim_start_push(line, c);
}

/// White space before a line changes nothing.
pub proof fn law_space_before_line(line: Seq<char>, c: char)
    requires
        is_white_space(c),
    ensures
        line_command(seq![c] + line) == line_command(line),
{
    assert((seq![c] + line).drop_first() =~= line);
}

/// Every number of sectors is the position of exactly one reading with less than 60 seconds and
/// less than 75 frames.
pub proof fn law_position_of_sectors(n: u64, p: Msf)
    requires
        p.seconds < 60,
        p.frames < 75,
    ensures
        p.sectors() == n <==> p.minutes == n / 4500 && p.seconds == (n / 75) % 60 && p.frames == n % 75,
{
    let m = p.minutes as int;
    let s = p.seconds as int;
    let f = p.frames as int;
    let total = (m * 60 + s) * 75 + f;
    assert(total == m * 4500 + s * 75 + f);
    assert(n / 4500 == (n / 75) / 60);
    assert(n as int == (n / 75) * 75 + n % 75);
    assert((n / 75) as int == ((n / 75) / 60) * 60 + (n / 75) % 60);
}

/// A line that starts with none of the keywords says nothing.
pub proof fn law_no_keyword_no_command(line: Seq<char>)
    requires
        !occurs_at(uppercase(trim(line)), "FILE "@, 0),
        !occurs_at(uppercase(trim(line)), "TRACK "@, 0),
        !occurs_at(uppercase(trim(line)), "INDEX "@, 0),
    ensures
        line_command(line) is Other,
{
}

/// The lines of one text and another, with a line feed between them.
proof fn lemma_joined_lines(a: Seq<char>, b: Seq<char>)
    ensures
        lines(a + seq!['\n'] + b) == lines(a) + (if a.len() == 0 || a.last() == '\n' {
            seq![Seq::<char>::empty()]
        } else {
            Seq::empty()
        }) + lines(b),
    decreases a.len(),
{
    let joined = a + seq!['\n'] + b;
    let n = field_len(a, '\n') as int;
    lemma_field_len(a, '\n');
    lemma_field_len_is(joined, '\n', n);
    if n < a.len() {
        let rest = a.skip(n + 1);
        lemma_joined_lines(rest, b);
        assert(joined.take(n) =~= a.take(n));
        assert(joined.skip(n + 1) =~= rest + seq!['\n'] + b);
        if rest.len() > 0 {
            assert(rest.last() == a.last());
        }
        assert(lines(joined) =~= lines(a) + (if a.len() == 0 || a.last() == '\n' {
            seq![Seq::<char>::empty()]
        } else {
            Seq::empty()
        }) + lines(b));
    } else {
        assert(joined.take(n) =~= a);
        assert(joined.skip(n + 1) =~= b);
        if a.len() == 0 {
            assert(a =~= Seq::empty());
            assert(lines(joined) =~= lines(a) + seq![Seq::<char>::empty()] + lines(b));
        } else {
            assert(a.last() != '\n');
            assert(lines(joined) =~= lines(a) + Seq::empty() + lines(b));
        }
    }
}

/// The commands that say something.
pub open spec fn telling(list: Seq<CommandView>) -> Seq<CommandView> {
    list.filter(|c: CommandView| !(c is Other))
}

/// The lines of a sheet that say something.
pub open spec fn telling_lines(text: Seq<char>) -> Seq<Seq<char>> {
    lines(text).filter(|line: Seq<char>| !(line_command(line) is Other))
}

proof fn lemma_telling_last(list: Seq<CommandView>)
    requires
        list.len() > 0,
    ensures
        telling(list) == (if list.last() is Other {
            telling(list.drop_last())
        } else {
            telling(list.drop_last()).push(list.last())
        }),
{
    reveal(Seq::filter);
}

proof fn lemma_telling_lines(text: Seq<Seq<char>>)
    ensures
        telling(text.map_values(|line: Seq<char>| line_command(line))) == text.filter(
            |line: Seq<char>| !(line_command(line) is Other),
        ).map_values(|line: Seq<char>| line_command(line)),
    decreases text.len(),
{
    reveal(Seq::filter);
    let read = |line: Seq<char>| line_command(line);
    let tells = |line: Seq<char>| !(line_command(line) is Other);
    let list = text.map_values(read);
    if text.len() > 0 {
        lemma_telling_lines(text.drop_last());
        lemma_telling_last(list);
        assert(list.drop_last() =~= text.drop_last().map_values(read));
        assert(list.last() == line_command(text.last()));
        if tells(text.last()) {
            assert(text.filter(tells) == text.drop_last().filter(tells).push(text.last()));
            assert(text.filter(tells).map_values(read) =~= text.drop_last().filter(tells).map_values(
                read,
            ).push(line_command(text.last())));
        }
    } else {
        assert(telling(list) =~= text.filter(tells).map_values(read));
    }
}

proof fn lemma_telling_reading(list: Seq<CommandView>, resolved: Seq<Option<ResolvedBin>>)
    ensures
        reading(list, resolved) == reading(telling(list), resolved),
        file_names(list) == file_names(telling(list)),
        indices_fit(list) == indices_fit(telling(list)),
    decreases list.len(),
{
    if list.len() == 0 {
        reveal(Seq::filter);
        assert(telling(list) =~= list);
    } else {
        let before = list.drop_last();
        let short = telling(before);
        lemma_telling_reading(before, resolved);
        lemma_telling_last(list);
        assert(list =~= before.push(list.last()));
        lemma_indices_fit_push(before, list.last());
        if !(list.last() is Other) {
            lemma_indices_fit_push(short, list.last());
            assert(short.push(list.last()).drop_last() =~= short);
        }
    }
}

proof fn lemma_indices_fit_push(list: Seq<CommandView>, c: CommandView)
    ensures
        indices_fit(list.push(c)) == (indices_fit(list) && (c matches CommandView::Index {
            position,
            ..
        } ==> position.sectors() <= u64::MAX)),
{
    let longer = list.push(c);
    if indices_fit(longer) {
        assert forall|i: int| 0 <= i < list.len() implies (#[trigger] list[i] matches CommandView::Index {
            position,
            ..
        } ==> position.sectors() <= u64::MAX) by {
            assert(longer[i] == list[i]);
        }
        assert(longer[list.len() as int] == c);
    }
}

/// Commands that say nothing change nothing, wherever they stand.
pub proof fn law_other_commands(
    a: Seq<CommandView>,
    b: Seq<CommandView>,
    resolved: Seq<Option<ResolvedBin>>,
)
    requires
        telling(a) == telling(b),
    ensures
        file_names(a) == file_names(b),
        sheet_fits(a, resolved) == sheet_fits(b, resolved),
        sheet_tracks(a, resolved) == sheet_tracks(b, resolved),
{
    lemma_telling_reading(a, resolved);
    lemma_telling_reading(b, resolved);
    lemma_listing_is_read(a, resolved);
    lemma_listing_is_read(b, resolved);
}

/// Lines of other kinds change nothing, wherever they stand: sheets that differ only in lines that
/// are no FILE, TRACK or INDEX lines name the same files and have the same tracks.
pub proof fn law_other_lines(
    a: Seq<char>,
    b: Seq<char>,
    resolved: Seq<Option<ResolvedBin>>,
)
    requires
        telling_lines(a) == telling_lines(b),
    ensures
        file_names(commands(a)) == file_names(commands(b)),
        sheet_fits(commands(a), resolved) == sheet_fits(commands(b), resolved),
        sheet_tracks(commands(a), resolved) == sheet_tracks(commands(b), resolved),
{
    lemma_telling_lines(lines(a));
    lemma_telling_lines(lines(b));
    law_other_commands(commands(a), commands(b), resolved);
}

/// A line that says nothing may be put into a sheet before any line, or behind the last one.
pub proof fn law_other_line_put_in(
    before: Seq<Seq<char>>,
    line: Seq<char>,
    after: Seq<Seq<char>>,
    a: Seq<char>,
    b: Seq<char>,
)
    requires
        lines(a) == before + after,
        lines(b) == before + seq![line] + after,
        line_command(line) is Other,
    ensures
        telling_lines(a) == telling_lines(b),
{
    let tells = |line: Seq<char>| !(line_command(line) is Other);
    Seq::filter_distributes_over_add(before, after, tells);
    Seq::filter_distributes_over_add(before + seq![line], after, tells);
    Seq::filter_distributes_over_add(before, seq![line], tells);
    assert(seq![line].filter(tells) =~= Seq::empty()) by {
        reveal(Seq::filter);
        let none = Seq::<Seq<char>>::empty();
        assert(none.filter(tells) =~= none);
        assert(seq![line].drop_last() =~= none);
        assert(seq![line].last() == line);
    }
    assert(before.filter(tells) + seq![line].filter(tells) =~= before.filter(tells));
}

// ---- Tracks ------------------------------------------------------------------------------------
/// A sheet of which no file can be resolved has no tracks.
pub proof fn law_unresolved_files_are_skipped(
    list: Seq<CommandView>,
    resolved: Seq<Option<ResolvedBin>>,
)
    requires
        forall|i: int| 0 <= i < resolved.len() ==> #[trigger] resolved[i] is None,
    ensures
        sheet_tracks(list, resolved).len() == 0,
{
    lemma_listing_is_read(list, resolved);
    lemma_files_ascend(list, resolved);
    let tracks = sheet_listing(list, resolved);
    if tracks.len() > 0 {
        assert(resolution(resolved, tracks[0].file) is Some);
    }
}

/// The commands from `a` to before `b` are a FILE line and all that belongs to that file.
pub open spec fn file_block(list: Seq<CommandView>, a: int, b: int) -> bool {
    &&& 0 <= a < b <= list.len()
    &&& list[a] matches CommandView::File(Some(_))
    &&& forall|j: int| a < j < b ==> !(#[trigger] list[j] is File)
    &&& b < list.len() ==> (list[b] matches CommandView::File(Some(_)))
}

/// A list of commands without those from `a` to before `b`.
pub open spec fn without(list: Seq<CommandView>, a: int, b: int) -> Seq<CommandView> {
    list.take(a) + list.skip(b)
}

/// A file number in a sheet, given the number without the `k`-th file.
spec fn renumbered(file: int, k: int) -> int {
    if file < k {
        file
    } else {
        file + 1
    }
}

spec fn renumbered_track(track: Listed, k: int) -> Listed {
    Listed { file: renumbered(track.file, k), ..track }
}

spec fn renumbered_tracks(tracks: Seq<Listed>, k: int) -> Seq<Listed> {
    tracks.map_values(|t: Listed| renumbered_track(t, k))
}

/// Tracks that differ in the numbers of their files only, with the same files at the same sectors
/// behind the numbers, have the same place.
proof fn lemma_same_places(
    a: Seq<Listed>,
    ra: Seq<Option<ResolvedBin>>,
    b: Seq<Listed>,
    rb: Seq<Option<ResolvedBin>>,
    n: int,
)
    requires
        a.len() == b.len(),
        n <= a.len(),
        forall|i: int|
            0 <= i < a.len() ==> (#[trigger] a[i]) == (Listed { file: a[i].file, ..b[i] }),
        forall|i: int, j: int|
            #![trigger a[i], a[j]]
            0 <= i < a.len() && 0 <= j < a.len() ==> (a[i].file == a[j].file <==> b[i].file == b[j].file),
        forall|i: int|
            0 <= i < a.len() ==> resolution(ra, (#[trigger] a[i]).file) == resolution(rb, b[i].file)
                && disc_start(a, ra, a[i].file) == disc_start(b, rb, b[i].file),
    ensures
        laid_out(a, ra, n) == laid_out(b, rb, n),
    decreases n,
{
    if n > 0 {
        lemma_same_places(a, ra, b, rb, n - 1);
        let i = n - 1;
        assert(a[i].is_audio == b[i].is_audio);
        lemma_same_company(a, b, i);
        if i + 1 < a.len() {
            assert(a[i + 1].index01 == b[i + 1].index01);
        }
        assert(placed(a, ra, i) == placed(b, rb, i));
    }
}

proof fn lemma_same_company(a: Seq<Listed>, b: Seq<Listed>, i: int)
    requires
        a.len() == b.len(),
        0 <= i < a.len(),
        forall|i: int, j: int|
            #![trigger a[i], a[j]]
            0 <= i < a.len() && 0 <= j < a.len() ==> (a[i].file == a[j].file <==> b[i].file == b[j].file),
    ensures
        shares_file(a, i) == shares_file(b, i),
{
    if shares_file(a, i) {
        let j = choose|j: int| 0 <= j < a.len() && j != i && (#[trigger] a[j]).file == a[i].file;
        assert(b[j].file == b[i].file);
    }
    if shares_file(b, i) {
        let j = choose|j: int| 0 <= j < b.len() && j != i && (#[trigger] b[j]).file == b[i].file;
        assert(a[j].file == a[i].file);
    }
}

/// What is read of a sheet depends on the files that it names alone.
proof fn lemma_reading_of_files(
    list: Seq<CommandView>,
    a: Seq<Option<ResolvedBin>>,
    b: Seq<Option<ResolvedBin>>,
    k: int,
)
    requires
        file_names(list).len() <= k,
        forall|i: int| 0 <= i < k ==> #[trigger] resolution(a, i) == resolution(b, i),
    ensures
        reading(list, a) == reading(list, b),
        reading(list, a).ended(a) == reading(list, b).ended(b),
    decreases list.len(),
{
    if list.len() > 0 {
        lemma_reading_of_files(list.drop_last(), a, b, k);
    }
    lemma_listing_is_read(list, a);
    lemma_files_ascend(list, a);
    if let Some(file) = reading(list, a).file {
        assert(resolution(a, file) == resolution(b, file));
    }
}

/// The lines of a file that is not resolved add no track.
proof fn lemma_in_block(
    list: Seq<CommandView>,
    resolved: Seq<Option<ResolvedBin>>,
    a: int,
    b: int,
    n: int,
)
    requires
        file_block(list, a, b),
        file_names(list.take(a)).len() < resolved.len(),
        resolved[file_names(list.take(a)).len() as int] is None,
        a < n <= b,
    ensures
        ({
            let r = reading(list.take(n), resolved);
            &&& r.files == file_names(list.take(a)).len() + 1
            &&& r.file == Some(file_names(list.take(a)).len() as int)
            &&& r.tracks == reading(list.take(a), resolved).ended(resolved)
        }),
    decreases n,
{
    assert(list.take(n).drop_last() =~= list.take(n - 1));
    assert(list.take(n).last() == list[n - 1]);
    if n > a + 1 {
        lemma_in_block(list, resolved, a, b, n - 1);
        assert(!(list[n - 1] is File));
    } else {
        lemma_listing_is_read(list.take(a), resolved);
    }
}

/// Behind a file that is skipped, the sheets with and without it read the same but for the numbers
/// of the files.
proof fn lemma_behind_block(
    list: Seq<CommandView>,
    resolved: Seq<Option<ResolvedBin>>,
    a: int,
    b: int,
    n: int,
)
    requires
        file_block(list, a, b),
        file_names(list.take(a)).len() < resolved.len(),
        resolved[file_names(list.take(a)).len() as int] is None,
        a < n <= without(list, a, b).len(),
    ensures
        ({
            let k = file_names(list.take(a)).len() as int;
            let long = reading(list.take(n + b - a), resolved);
            let short = reading(without(list, a, b).take(n), resolved.remove(k));
            &&& long.tracks == renumbered_tracks(short.tracks, k)
            &&& long.files == short.files + 1
            &&& short.files > k
            &&& match (long.file, short.file) {
                (Some(x), Some(y)) => x == renumbered(y, k) && y >= 0,
                (None, None) => true,
                _ => false,
            }
            &&& long.number == short.number
            &&& long.audio == short.audio
            &&& long.index01 == short.index01
        }),
    decreases n,
{
    let k = file_names(list.take(a)).len() as int;
    let short_files = resolved.remove(k);
    let s = without(list, a, b);
    let m = n + b - a;
    assert(s[n - 1] == list[m - 1]);
    assert(list.take(m).drop_last() =~= list.take(m - 1));
    assert(list.take(m).last() == list[m - 1]);
    assert(s.take(n).drop_last() =~= s.take(n - 1));
    assert(s.take(n).last() == s[n - 1]);
    if n == a + 1 {
        lemma_in_block(list, resolved, a, b, b);
        assert(s.take(a) =~= list.take(a));
        assert forall|i: int| 0 <= i < k implies #[trigger] resolution(resolved, i) == resolution(
            short_files,
            i,
        ) by {}
        lemma_reading_of_files(list.take(a), resolved, short_files, k);
        lemma_listing_is_read(list.take(a), resolved);
        lemma_files_ascend(list.take(a), resolved);
        let tracks = reading(list.take(a), resolved).ended(resolved);
        assert(renumbered_tracks(tracks, k) =~= tracks);
        let long = reading(list.take(m - 1), resolved);
        assert(long.ended(resolved) == long.tracks);
    } else {
        lemma_behind_block(list, resolved, a, b, n - 1);
        let long = reading(list.take(m - 1), resolved);
        let short = reading(s.take(n - 1), short_files);
        lemma_ended_renumbered(long, short, resolved, k);
    }
}

proof fn lemma_ended_renumbered(
    long: Reading,
    short: Reading,
    resolved: Seq<Option<ResolvedBin>>,
    k: int,
)
    requires
        0 <= k < resolved.len(),
        long.tracks == renumbered_tracks(short.tracks, k),
        match (long.file, short.file) {
            (Some(x), Some(y)) => x == renumbered(y, k) && y >= 0,
            (None, None) => true,
            _ => false,
        },
        long.number == short.number,
        long.audio == short.audio,
        long.index01 == short.index01,
    ensures
        long.ended(resolved) == renumbered_tracks(short.ended(resolved.remove(k)), k),
{
    if let Some(y) = short.file {
        assert(resolution(resolved, renumbered(y, k)) == resolution(resolved.remove(k), y));
    }
    assert(long.ended(resolved) =~= renumbered_tracks(short.ended(resolved.remove(k)), k));
}

proof fn lemma_renumbered_use(tracks: Seq<Listed>, k: int, file: int)
    ensures
        holds_track(renumbered_tracks(tracks, k), renumbered(file, k)) == holds_track(tracks, file),
{
    let long = renumbered_tracks(tracks, k);
    if holds_track(tracks, file) {
        let i = choose|i: int| 0 <= i < tracks.len() && (#[trigger] tracks[i]).file == file;
        assert(long[i].file == renumbered(file, k));
    }
    if holds_track(long, renumbered(file, k)) {
        let i = choose|i: int| 0 <= i < long.len() && (#[trigger] long[i]).file == renumbered(file, k);
        assert(tracks[i].file == file);
    }
}

proof fn lemma_starts_without(
    tracks: Seq<Listed>,
    resolved: Seq<Option<ResolvedBin>>,
    k: int,
    file: int,
)
    requires
        0 <= k < resolved.len(),
        resolved[k] is None,
        0 <= file,
    ensures
        disc_start(renumbered_tracks(tracks, k), resolved, renumbered(file, k)) == disc_start(
            tracks,
            resolved.remove(k),
            file,
        ),
        resolution(resolved, renumbered(file, k)) == resolution(resolved.remove(k), file),
    decreases file,
{
    let long = renumbered_tracks(tracks, k);
    if file > 0 {
        lemma_starts_without(tracks, resolved, k, file - 1);
        lemma_renumbered_use(tracks, k, file - 1);
        if file == k {
            assert(disc_start(long, resolved, k + 1) == disc_start(long, resolved, k));
        }
    } else if k == 0 {
        assert(disc_start(long, resolved, 1) == disc_start(long, resolved, 0));
    }
}

/// A file that cannot be resolved is skipped: the sheet has the tracks that it would have without
/// the lines of that file.
pub proof fn law_unresolved_file_is_skipped(
    list: Seq<CommandView>,
    resolved: Seq<Option<ResolvedBin>>,
    a: int,
    b: int,
)
    requires
        file_block(list, a, b),
        file_names(list.take(a)).len() < resolved.len(),
        resolved[file_names(list.take(a)).len() as int] is None,
    ensures
        sheet_tracks(list, resolved) == sheet_tracks(
            without(list, a, b),
            resolved.remove(file_names(list.take(a)).len() as int),
        ),
{
    let k = file_names(list.take(a)).len() as int;
    let s = without(list, a, b);
    let short_files = resolved.remove(k);
    let long = sheet_listing(list, resolved);
    let short = sheet_listing(s, short_files);
    lemma_listing_is_read(list, resolved);
    lemma_listing_is_read(s, short_files);
    lemma_files_ascend(s, short_files);
    assert(list.take(list.len() as int) =~= list);
    assert(s.take(s.len() as int) =~= s);
    if b < list.len() {
        lemma_behind_block(list, resolved, a, b, s.len() as int);
        lemma_ended_renumbered(reading(list, resolved), reading(s, short_files), resolved, k);
    } else {
        lemma_in_block(list, resolved, a, b, b);
        assert(s =~= list.take(a));
        assert forall|i: int| 0 <= i < k implies #[trigger] resolution(resolved, i) == resolution(
            short_files,
            i,
        ) by {}
        lemma_reading_of_files(s, resolved, short_files, k);
        assert(renumbered_tracks(short, k) =~= short);
    }
    assert(long == renumbered_tracks(short, k));
    assert forall|i: int| 0 <= i < long.len() implies resolution(resolved, (#[trigger] long[i]).file)
        == resolution(short_files, short[i].file) && disc_start(long, resolved, long[i].file) == disc_start(
        short,
        short_files,
        short[i].file,
    ) by {
        assert(long[i] == renumbered_track(short[i], k));
        lemma_starts_without(short, resolved, k, short[i].file);
    }
    assert forall|i: int, j: int|
        #![trigger long[i], long[j]]
        0 <= i < long.len() && 0 <= j < long.len() implies (long[i].file == long[j].file <==> short[i].file
        == short[j].file) by {
        assert(long[i] == renumbered_track(short[i], k));
        assert(long[j] == renumbered_track(short[j], k));
    }
    lemma_same_places(long, resolved, short, short_files, long.len() as int);
}

/// A track `offset` sectors further on the disc.
pub open spec fn moved(track: Track, offset: nat) -> Track {
    Track { abs_sector: (track.abs_sector + offset) as u64, ..track }
}

pub open spec fn all_moved(tracks: Seq<Track>, offset: nat) -> Seq<Track> {
    tracks.map_values(|t: Track| moved(t, offset))
}

pub open spec fn shifted(tracks: Seq<Listed>, by: int) -> Seq<Listed> {
    tracks.map_values(|t: Listed| Listed { file: t.file + by, ..t })
}

/// A second sheet reads behind a first one as it does alone, but for the numbers of its files.
proof fn lemma_second_reading(
    one: Seq<CommandView>,
    r1: Seq<Option<ResolvedBin>>,
    two: Seq<CommandView>,
    r2: Seq<Option<ResolvedBin>>,
    n: int,
)
    requires
        file_names(one).len() == r1.len(),
        two.len() > 0,
        two[0] matches CommandView::File(Some(_)),
        0 < n <= two.len(),
    ensures
        ({
            let first = reading(one, r1).ended(r1);
            let alone = reading(two.take(n), r2);
            let behind = reading(one + two.take(n), r1 + r2);
            &&& behind.tracks == first + shifted(alone.tracks, r1.len() as int)
            &&& behind.files == alone.files + r1.len()
            &&& match (behind.file, alone.file) {
                (Some(x), Some(y)) => x == y + r1.len() && y >= 0,
                (None, None) => true,
                _ => false,
            }
            &&& behind.number == alone.number
            &&& behind.audio == alone.audio
            &&& behind.index01 == alone.index01
        }),
    decreases n,
{
    let k = r1.len() as int;
    let joined = one + two.take(n);
    let first = reading(one, r1).ended(r1);
    assert(joined.drop_last() =~= one + two.take(n - 1));
    assert(joined.last() == two[n - 1]);
    assert(two.take(n).drop_last() =~= two.take(n - 1));
    assert(two.take(n).last() == two[n - 1]);
    if n == 1 {
        assert(one + two.take(0) =~= one);
        assert(two.take(0) =~= Seq::empty());
        assert forall|i: int| 0 <= i < k implies #[trigger] resolution(r1, i) == resolution(
            r1 + r2,
            i,
        ) by {}
        lemma_reading_of_files(one, r1, r1 + r2, k);
        lemma_listing_is_read(one, r1);
        let alone = reading(two.take(1), r2);
        assert(alone.tracks =~= Seq::empty());
        assert(first + shifted(alone.tracks, k) =~= first);
    } else {
        lemma_second_reading(one, r1, two, r2, n - 1);
        let alone = reading(two.take(n - 1), r2);
        let behind = reading(one + two.take(n - 1), r1 + r2);
        lemma_ended_shifted(behind, first, alone, r1, r2);
    }
}

proof fn lemma_ended_shifted(
    behind: Reading,
    first: Seq<Listed>,
    alone: Reading,
    r1: Seq<Option<ResolvedBin>>,
    r2: Seq<Option<ResolvedBin>>,
)
    requires
        behind.tracks == first + shifted(alone.tracks, r1.len() as int),
        match (behind.file, alone.file) {
            (Some(x), Some(y)) => x == y + r1.len() && y >= 0,
            (None, None) => true,
            _ => false,
        },
        behind.number == alone.number,
        behind.audio == alone.audio,
        behind.index01 == alone.index01,
    ensures
        behind.ended(r1 + r2) == first + shifted(alone.ended(r2), r1.len() as int),
{
    if let Some(y) = alone.file {
        assert(resolution(r1 + r2, y + r1.len()) == resolution(r2, y));
    }
    assert(behind.ended(r1 + r2) =~= first + shifted(alone.ended(r2), r1.len() as int));
}

/// Which files of two sheets in a row hold tracks.
proof fn lemma_joined_use(a: Seq<Listed>, b: Seq<Listed>, n: int, k: int)
    requires
        forall|i: int| 0 <= i < a.len() ==> 0 <= (#[trigger] a[i]).file < n,
        forall|i: int| 0 <= i < b.len() ==> 0 <= (#[trigger] b[i]).file,
        0 <= k,
    ensures
        k < n ==> holds_track(a + shifted(b, n), k) == holds_track(a, k),
        holds_track(a + shifted(b, n), n + k) == holds_track(b, k),
{
    let all = a + shifted(b, n);
    assert forall|i: int| 0 <= i < all.len() implies (#[trigger] all[i]).file == (if i < a.len() {
        a[i].file
    } else {
        b[i - a.len()].file + n
    }) by {}
    if k < n && holds_track(a, k) {
        let i = choose|i: int| 0 <= i < a.len() && (#[trigger] a[i]).file == k;
        assert(all[i].file == k);
    }
    if k < n && holds_track(all, k) {
        let i = choose|i: int| 0 <= i < all.len() && (#[trigger] all[i]).file == k;
        if i >= a.len() {
            assert(b[i - a.len()].file >= 0);
        }
        assert(a[i].file == k);
    }
    if holds_track(b, k) {
        let i = choose|i: int| 0 <= i < b.len() && (#[trigger] b[i]).file == k;
        assert(all[a.len() + i].file == n + k);
    }
    if holds_track(all, n + k) {
        let i = choose|i: int| 0 <= i < all.len() && (#[trigger] all[i]).file == n + k;
        if i < a.len() {
            assert(a[i].file < n);
        }
        assert(b[i - a.len()].file == k);
    }
}

/// The files of a second sheet start behind those of the first.
pub(crate) proof fn lemma_joined_starts(
    a: Seq<Listed>,
    r1: Seq<Option<ResolvedBin>>,
    b: Seq<Listed>,
    r2: Seq<Option<ResolvedBin>>,
    k: int,
)
    requires
        forall|i: int| 0 <= i < a.len() ==> 0 <= (#[trigger] a[i]).file < r1.len(),
        forall|i: int| 0 <= i < b.len() ==> 0 <= (#[trigger] b[i]).file,
        0 <= k,
    ensures
        ({
            let all = a + shifted(b, r1.len() as int);
            &&& k <= r1.len() ==> disc_start(all, r1 + r2, k) == disc_start(a, r1, k)
            &&& disc_start(all, r1 + r2, r1.len() + k) == disc_start(a, r1, r1.len() as int)
                + disc_start(b, r2, k)
            &&& k < r1.len() ==> resolution(r1 + r2, k) == resolution(r1, k)
            &&& resolution(r1 + r2, r1.len() + k) == resolution(r2, k)
        }),
    decreases k,
{
    if k > 0 {
        lemma_joined_starts(a, r1, b, r2, k - 1);
        lemma_joined_use(a, b, r1.len() as int, k - 1);
    } else {
        lemma_prefix_starts(a, r1, b, r2, r1.len() as int);
    }
}

proof fn lemma_prefix_starts(
    a: Seq<Listed>,
    r1: Seq<Option<ResolvedBin>>,
    b: Seq<Listed>,
    r2: Seq<Option<ResolvedBin>>,
    k: int,
)
    requires
        forall|i: int| 0 <= i < a.len() ==> 0 <= (#[trigger] a[i]).file < r1.len(),
        forall|i: int| 0 <= i < b.len() ==> 0 <= (#[trigger] b[i]).file,
        0 <= k <= r1.len(),
    ensures
        disc_start(a + shifted(b, r1.len() as int), r1 + r2, k) == disc_start(a, r1, k),
    decreases k,
{
    if k > 0 {
        lemma_prefix_starts(a, r1, b, r2, k - 1);
        lemma_joined_use(a, b, r1.len() as int, k - 1);
    }
}

proof fn lemma_first_places(
    a: Seq<Listed>,
    r1: Seq<Option<ResolvedBin>>,
    b: Seq<Listed>,
    r2: Seq<Option<ResolvedBin>>,
    n: int,
)
    requires
        0 <= n <= a.len(),
        forall|i: int| 0 <= i < a.len() ==> 0 <= (#[trigger] a[i]).file < r1.len(),
        forall|i: int| 0 <= i < b.len() ==> 0 <= (#[trigger] b[i]).file,
    ensures
        laid_out(a + shifted(b, r1.len() as int), r1 + r2, n) == laid_out(a, r1, n),
    decreases n,
{
    if n > 0 {
        lemma_first_places(a, r1, b, r2, n - 1);
        let all = a + shifted(b, r1.len() as int);
        let i = n - 1;
        assert(all[i] == a[i]);
        assert(0 <= a[i].file < r1.len());
        lemma_joined_starts(a, r1, b, r2, a[i].file);
        assert forall|j: int| a.len() <= j < all.len() implies (#[trigger] all[j]).file >= r1.len() by {
            assert(b[j - a.len()].file >= 0);
        }
        assert(shares_file(all, i) == shares_file(a, i)) by {
            if shares_file(all, i) {
                let j = choose|j: int| 0 <= j < all.len() && j != i && (#[trigger] all[j]).file == all[i].file;
                assert(a[j].file == a[i].file);
            }
            if shares_file(a, i) {
                let j = choose|j: int| 0 <= j < a.len() && j != i && (#[trigger] a[j]).file == a[i].file;
                assert(all[j].file == all[i].file);
            }
        }
        assert(placed(all, r1 + r2, i) == placed(a, r1, i)) by {
            if i + 1 < a.len() {
                assert(all[i + 1] == a[i + 1]);
            } else if i + 1 < all.len() {
                assert(all[i + 1].file >= r1.len());
            }
        }
    }
}

proof fn lemma_second_places(
    a: Seq<Listed>,
    r1: Seq<Option<ResolvedBin>>,
    b: Seq<Listed>,
    r2: Seq<Option<ResolvedBin>>,
    n: int,
)
    requires
        0 <= n <= b.len(),
        forall|i: int| 0 <= i < a.len() ==> 0 <= (#[trigger] a[i]).file < r1.len(),
        forall|i: int| 0 <= i < b.len() ==> 0 <= (#[trigger] b[i]).file,
        layout_fits(a + shifted(b, r1.len() as int), r1 + r2),
    ensures
        laid_out(a + shifted(b, r1.len() as int), r1 + r2, a.len() + n) == laid_out(
            a,
            r1,
            a.len() as int,
        ) + all_moved(laid_out(b, r2, n), disc_start(a, r1, r1.len() as int)),
    decreases n,
{
    let all = a + shifted(b, r1.len() as int);
    let offset = disc_start(a, r1, r1.len() as int);
    if n == 0 {
        lemma_first_places(a, r1, b, r2, a.len() as int);
        assert(laid_out(a, r1, a.len() as int) + all_moved(laid_out(b, r2, n), offset) =~= laid_out(
            a,
            r1,
            a.len() as int,
        ));
    } else {
        lemma_second_places(a, r1, b, r2, n - 1);
        let i = n - 1;
        let m = a.len() + i;
        assert(all[m] == (Listed { file: b[i].file + r1.len(), ..b[i] }));
        assert(0 <= b[i].file);
        lemma_joined_starts(a, r1, b, r2, b[i].file);
        if b[i].is_audio {
            assert(place_fits(all, r1 + r2, m));
            assert(shares_file(all, m) == shares_file(b, i)) by {
                if shares_file(all, m) {
                    let j = choose|j: int| 0 <= j < all.len() && j != m && (#[trigger] all[j]).file
                        == all[m].file;
                    if j < a.len() {
                        assert(a[j].file < r1.len());
                    }
                    assert(b[j - a.len()].file == b[i].file);
                }
                if shares_file(b, i) {
                    let j = choose|j: int| 0 <= j < b.len() && j != i && (#[trigger] b[j]).file == b[i].file;
                    assert(all[a.len() + j].file == all[m].file);
                }
            }
            if i + 1 < b.len() {
                assert(all[m + 1] == (Listed { file: b[i + 1].file + r1.len(), ..b[i + 1] }));
            }
            assert(placed(all, r1 + r2, m) == moved(placed(b, r2, i), offset));
            assert(all_moved(laid_out(b, r2, n), offset) =~= all_moved(
                laid_out(b, r2, n - 1),
                offset,
            ).push(moved(placed(b, r2, i), offset)));
            assert(laid_out(a, r1, a.len() as int) + all_moved(laid_out(b, r2, n), offset) =~= (laid_out(
                a,
                r1,
                a.len() as int,
            ) + all_moved(laid_out(b, r2, n - 1), offset)).push(moved(placed(b, r2, i), offset)));
        }
    }
}

proof fn lemma_joined_names(one: Seq<CommandView>, two: Seq<CommandView>)
    ensures
        file_names(one + two) == file_names(one) + file_names(two),
    decreases two.len(),
{
    if two.len() == 0 {
        assert(one + two =~= one);
        assert(file_names(one) + file_names(two) =~= file_names(one));
    } else {
        lemma_joined_names(one, two.drop_last());
        assert((one + two).drop_last() =~= one + two.drop_last());
        assert((one + two).last() == two.last());
        assert(file_names(one + two) =~= file_names(one) + file_names(two));
    }
}

/// How many sectors the files of a sheet take up on the disc.
pub open spec fn disc_size(list: Seq<CommandView>, resolved: Seq<Option<ResolvedBin>>) -> nat {
    disc_start(sheet_listing(list, resolved), resolved, resolved.len() as int)
}

/// Two lists of commands in a row list the tracks of the one, then those of the other.
pub(crate) proof fn lemma_joined_listing(
    one: Seq<CommandView>,
    r1: Seq<Option<ResolvedBin>>,
    two: Seq<CommandView>,
    r2: Seq<Option<ResolvedBin>>,
)
    requires
        file_names(one).len() == r1.len(),
        two.len() > 0,
        two[0] matches CommandView::File(Some(_)),
    ensures
        sheet_listing(one + two, r1 + r2) == sheet_listing(one, r1) + shifted(
            sheet_listing(two, r2),
            r1.len() as int,
        ),
{
    lemma_listing_is_read(one, r1);
    lemma_listing_is_read(two, r2);
    lemma_listing_is_read(one + two, r1 + r2);
    assert(two.take(two.len() as int) =~= two);
    lemma_second_reading(one, r1, two, r2, two.len() as int);
    lemma_ended_shifted(
        reading(one + two, r1 + r2),
        sheet_listing(one, r1),
        reading(two, r2),
        r1,
        r2,
    );
}

/// Two lists of commands in a row, of which the second begins with a quoted FILE line, give the
/// tracks of the first, then those of the second, which lie behind all files of the first.
pub proof fn law_commands_in_a_row(
    one: Seq<CommandView>,
    r1: Seq<Option<ResolvedBin>>,
    two: Seq<CommandView>,
    r2: Seq<Option<ResolvedBin>>,
)
    requires
        file_names(one).len() == r1.len(),
        two.len() > 0,
        two[0] matches CommandView::File(Some(_)),
        sheet_fits(one + two, r1 + r2),
    ensures
        file_names(one + two) == file_names(one) + file_names(two),
        sheet_tracks(one + two, r1 + r2) == sheet_tracks(one, r1) + all_moved(
            sheet_tracks(two, r2),
            disc_size(one, r1),
        ),
{
    let a = sheet_listing(one, r1);
    let b = sheet_listing(two, r2);
    lemma_joined_names(one, two);
    lemma_joined_listing(one, r1, two, r2);
    lemma_listing_is_read(one, r1);
    lemma_listing_is_read(two, r2);
    lemma_files_ascend(one, r1);
    lemma_files_ascend(two, r2);
    lemma_second_places(a, r1, b, r2, b.len() as int);
}

/// Two sheets in a row, of which the second begins with a FILE line that quotes a name, have the
/// tracks of the first, then those of the second. What is added to the sectors of the second
/// depends on the first alone; all else stays as it is.
pub proof fn law_sheets_in_a_row(
    one: Seq<char>,
    r1: Seq<Option<ResolvedBin>>,
    two: Seq<char>,
    r2: Seq<Option<ResolvedBin>>,
)
    requires
        file_names(commands(one)).len() == r1.len(),
        commands(two).len() > 0,
        commands(two)[0] matches CommandView::File(Some(_)),
        sheet_fits(commands(one + seq!['\n'] + two), r1 + r2),
    ensures
        file_names(commands(one + seq!['\n'] + two)) == file_names(commands(one)) + file_names(
            commands(two),
        ),
        sheet_tracks(commands(one + seq!['\n'] + two), r1 + r2) == sheet_tracks(commands(one), r1)
            + all_moved(sheet_tracks(commands(two), r2), disc_size(commands(one), r1)),
{
    let read = |line: Seq<char>| line_command(line);
    let blank = if one.len() == 0 || one.last() == '\n' {
        seq![Seq::<char>::empty()]
    } else {
        Seq::empty()
    };
    let joined = one + seq!['\n'] + two;
    let tells = |c: CommandView| !(c is Other);
    lemma_joined_lines(one, two);
    assert(commands(joined) =~= commands(one) + blank.map_values(read) + commands(two));
    Seq::filter_distributes_over_add(commands(one) + blank.map_values(read), commands(two), tells);
    Seq::filter_distributes_over_add(commands(one), blank.map_values(read), tells);
    Seq::filter_distributes_over_add(commands(one), commands(two), tells);
    assert(telling(blank.map_values(read)) =~= Seq::empty()) by {
        reveal(Seq::filter);
        let none = Seq::<CommandView>::empty();
        assert(telling(none) =~= none);
        if blank.len() > 0 {
            assert(blank.map_values(read).drop_last() =~= none);
            assert(trim(Seq::<char>::empty()).len() == 0);
            lemma_telling_last(blank.map_values(read));
        } else {
            assert(blank.map_values(read) =~= none);
        }
    }
    assert(telling(commands(one)) + telling(blank.map_values(read)) =~= telling(commands(one)));
    law_other_commands(commands(joined), commands(one) + commands(two), r1 + r2);
    law_commands_in_a_row(commands(one), r1, commands(two), r2);
}

/// The data of every track comes from one of the files that the sheet names.
pub proof fn law_tracks_come_from_files(
    list: Seq<CommandView>,
    resolved: Seq<Option<ResolvedBin>>,
    i: int,
)
    requires
        0 <= i < sheet_tracks(list, resolved).len(),
    ensures
        exists|k: int|
            0 <= k < resolved.len() && from_file(
                sheet_tracks(list, resolved)[i],
                #[trigger] resolved[k],
            ),
{
    let tracks = sheet_listing(list, resolved);
    lemma_listing_is_read(list, resolved);
    lemma_files_ascend(list, resolved);
    lemma_origin(tracks, resolved, tracks.len() as int, i);
    let k = tracks[origin(tracks, resolved, tracks.len() as int, i)].file;
    assert(resolution(resolved, k) is Some);
    assert(from_file(sheet_tracks(list, resolved)[i], resolved[k]));
}

/// Whether a track takes its data from `file`.
pub open spec fn from_file(track: Track, file: Option<ResolvedBin>) -> bool {
    &&& file matches Some(f)
    &&& track.bin_path == f.bin_path
    &&& track.bin_zip == f.bin_zip
    &&& track.cdg_path is Some ==> track.cdg_path == f.cdg_path
    &&& track.cdg_zip is Some ==> track.cdg_zip == f.cdg_zip
}

/// The CDG data beside a file are a track's own where the track has the file to itself, and nobody's
/// where several tracks lie in the file.
pub proof fn law_own_cdg(tracks: Seq<Listed>, resolved: Seq<Option<ResolvedBin>>, i: int, j: int)
    requires
        0 <= i < tracks.len(),
        0 <= j < tracks.len(),
        i != j,
    ensures
        tracks[i].file == tracks[j].file ==> placed(tracks, resolved, i).cdg_path is None && placed(
            tracks,
            resolved,
            i,
        ).cdg_zip is None,
        !shares_file(tracks, i) ==> placed(tracks, resolved, i).cdg_path == resolution(
            resolved,
            tracks[i].file,
        )->0.cdg_path && placed(tracks, resolved, i).cdg_zip == resolution(
            resolved,
            tracks[i].file,
        )->0.cdg_zip,
{
    if tracks[i].file == tracks[j].file {
        assert(shares_file(tracks, i));
    }
}

/// A track of a sheet in a ZIP has no path on disk; its data are entries of that ZIP.
pub proof fn law_zip_tracks_are_zip_backed(
    text: Seq<char>,
    archive: PathBuf,
    entries: Seq<EntryView>,
    i: int,
)
    requires
        0 <= i < sheet_tracks(commands(text), sheet_in_zip(text, archive, entries)).len(),
    ensures
        sheet_tracks(commands(text), sheet_in_zip(text, archive, entries))[i].bin_path is None,
        sheet_tracks(commands(text), sheet_in_zip(text, archive, entries))[i].cdg_path is None,
        exists|k: int|
            0 <= k < entries.len() && sheet_tracks(
                commands(text),
                sheet_in_zip(text, archive, entries),
            )[i].bin_zip == Some((#[trigger] entries[k]).located(archive)),
{
    let list = commands(text);
    let resolved = sheet_in_zip(text, archive, entries);
    law_tracks_come_from_files(list, resolved, i);
    let k = choose|k: int|
        0 <= k < resolved.len() && from_file(
            sheet_tracks(list, resolved)[i],
            #[trigger] resolved[k],
        );
    let name = file_names(list)[k];
    assert(resolved[k] == zip_resolution(name, archive, entries));
    lemma_first_where(entries, entry_named(folded(name)));
    if let Some(n) = track_number(lowercase(name)) {
        lemma_first_where(entries, entry_numbered(n));
    }
}

/// The CDG entry of a name in a ZIP is the entry called as the name is, with `.cdg` in the place of
/// `.bin`. A name that does not end in `.bin` has none.
pub proof fn law_zip_cdg_is_beside_bin(
    name: Seq<char>,
    archive: PathBuf,
    entries: Seq<EntryView>,
)
    requires
        zip_resolution(name, archive, entries) is Some,
    ensures
        !ends_with(folded(name), ".bin"@) ==> zip_resolution(name, archive, entries)->0.cdg_zip is None,
        zip_resolution(name, archive, entries)->0.cdg_zip matches Some(cdg) ==> exists|i: int|
            0 <= i < entries.len() && (#[trigger] entries[i]).located(archive) == cdg && Some(
                entries[i].name,
            ) == cdg_key(folded(name)),
{
    if let Some(cdg) = cdg_key(folded(name)) {
        lemma_first_where(entries, entry_named(cdg));
    }
}

/// Every track has a number.
pub proof fn law_tracks_are_numbered(
    list: Seq<CommandView>,
    resolved: Seq<Option<ResolvedBin>>,
    i: int,
)
    requires
        0 <= i < sheet_tracks(list, resolved).len(),
    ensures
        sheet_tracks(list, resolved)[i].number != 0,
{
    let tracks = sheet_listing(list, resolved);
    lemma_listing_is_read(list, resolved);
    lemma_files_ascend(list, resolved);
    lemma_origin(tracks, resolved, tracks.len() as int, i);
    assert(tracks[origin(tracks, resolved, tracks.len() as int, i)].number != 0);
}

/// Which of the listed tracks the `i`-th audio track is.
pub open spec fn origin(
    tracks: Seq<Listed>,
    resolved: Seq<Option<ResolvedBin>>,
    n: int,
    i: int,
) -> int
    decreases n,
{
    if n <= 0 {
        0
    } else if tracks[n - 1].is_audio && i == laid_out(tracks, resolved, n - 1).len() {
        n - 1
    } else {
        origin(tracks, resolved, n - 1, i)
    }
}

/// An audio track is one of the listed tracks, at its place on the disc.
pub proof fn lemma_origin(tracks: Seq<Listed>, resolved: Seq<Option<ResolvedBin>>, n: int, i: int)
    requires
        0 <= n <= tracks.len(),
        0 <= i < laid_out(tracks, resolved, n).len(),
    ensures
        0 <= origin(tracks, resolved, n, i) < n,
        tracks[origin(tracks, resolved, n, i)].is_audio,
        laid_out(tracks, resolved, n)[i] == placed(tracks, resolved, origin(tracks, resolved, n, i)),
    decreases n,
{
    if n > 0 && !(tracks[n - 1].is_audio && i == laid_out(tracks, resolved, n - 1).len()) {
        lemma_origin(tracks, resolved, n - 1, i);
    }
}

/// The audio tracks keep the order in which they are listed.
proof fn lemma_origin_order(
    tracks: Seq<Listed>,
    resolved: Seq<Option<ResolvedBin>>,
    n: int,
    i: int,
    j: int,
)
    requires
        0 <= n <= tracks.len(),
        0 <= i < j < laid_out(tracks, resolved, n).len(),
    ensures
        origin(tracks, resolved, n, i) < origin(tracks, resolved, n, j),
    decreases n,
{
    if n > 0 {
        if tracks[n - 1].is_audio && j == laid_out(tracks, resolved, n - 1).len() {
            lemma_origin(tracks, resolved, n - 1, i);
        } else {
            lemma_origin_order(tracks, resolved, n - 1, i, j);
        }
    }
}

/// Whether the sound of the track at `a` begins inside its file and, where the track at `b` lies in
/// the same file, the INDEX 01 positions ascend from the one to the other.
pub open spec fn ascends(
    tracks: Seq<Listed>,
    resolved: Seq<Option<ResolvedBin>>,
    a: int,
    b: int,
) -> bool {
    &&& tracks[a].start() <= size_of(resolution(resolved, tracks[a].file))
    &&& tracks[a].file == tracks[b].file ==> forall|m: int|
        a < m <= b ==> tracks[m - 1].start() < (#[trigger] tracks[m]).start()
}

proof fn lemma_ascends(tracks: Seq<Listed>, a: int, b: int)
    requires
        0 <= a <= b < tracks.len(),
        forall|m: int| a < m <= b ==> tracks[m - 1].start() < (#[trigger] tracks[m]).start(),
    ensures
        tracks[a].start() <= tracks[b].start(),
    decreases b - a,
{
    if a < b {
        lemma_ascends(tracks, a, b - 1);
        assert(tracks[b - 1].start() < tracks[b].start());
    }
}

/// The tracks of a disc follow one another: where INDEX 01 positions ascend within a file, a track
/// ends before every later one begins.
pub proof fn law_tracks_do_not_overlap(
    list: Seq<CommandView>,
    resolved: Seq<Option<ResolvedBin>>,
    i: int,
    j: int,
)
    requires
        sheet_fits(list, resolved),
        0 <= i < j < sheet_tracks(list, resolved).len(),
        ({
            let tracks = sheet_listing(list, resolved);
            let n = tracks.len() as int;
            ascends(tracks, resolved, origin(tracks, resolved, n, i), origin(tracks, resolved, n, j))
        }),
    ensures
        sheet_tracks(list, resolved)[i].abs_sector + sheet_tracks(list, resolved)[i].sectors
            <= sheet_tracks(list, resolved)[j].abs_sector,
{
    let tracks = sheet_listing(list, resolved);
    let n = tracks.len() as int;
    lemma_listing_is_read(list, resolved);
    lemma_files_ascend(list, resolved);
    lemma_origin(tracks, resolved, n, i);
    lemma_origin(tracks, resolved, n, j);
    lemma_origin_order(tracks, resolved, n, i, j);
    let a = origin(tracks, resolved, n, i);
    let b = origin(tracks, resolved, n, j);
    assert(place_fits(tracks, resolved, a) && place_fits(tracks, resolved, b));
    lemma_length_fits(tracks, resolved, a);
    assert(tracks[a].file <= tracks[b].file);
    if tracks[a].file == tracks[b].file {
        assert(tracks[a].file <= tracks[a + 1].file && tracks[a + 1].file <= tracks[b].file);
        assert(tracks[a].start() < tracks[a + 1].start());
        lemma_ascends(tracks, a + 1, b);
    } else {
        assert(holds_track(tracks, tracks[a].file));
        lemma_starts_grow(tracks, resolved, tracks[a].file + 1, tracks[b].file);
    }
}

/// A track is no longer than its file.
proof fn lemma_length_fits(tracks: Seq<Listed>, resolved: Seq<Option<ResolvedBin>>, i: int)
    ensures
        length(tracks, resolved, i) <= size_of(resolution(resolved, tracks[i].file)) <= u64::MAX,
{
}

/// A track of a file reaches to the INDEX 01 of the next track of that file.
pub proof fn law_track_reaches_the_next(
    tracks: Seq<Listed>,
    resolved: Seq<Option<ResolvedBin>>,
    i: int,
)
    requires
        layout_fits(tracks, resolved),
        0 <= i < tracks.len() - 1,
        tracks[i].is_audio && tracks[i + 1].is_audio,
        tracks[i].file == tracks[i + 1].file,
        tracks[i].start() < tracks[i + 1].start() <= size_of(resolution(resolved, tracks[i].file)),
    ensures
        placed(tracks, resolved, i).abs_sector + placed(tracks, resolved, i).sectors == placed(
            tracks,
            resolved,
            i + 1,
        ).abs_sector,
{
    assert(place_fits(tracks, resolved, i) && place_fits(tracks, resolved, i + 1));
    lemma_length_fits(tracks, resolved, i);
}

/// Two tracks that differ at most in where their data comes from.
pub open spec fn same_place(a: Track, b: Track) -> bool {
    &&& a.number == b.number
    &&& a.bin_audio_offset == b.bin_audio_offset
    &&& a.abs_sector == b.abs_sector
    &&& a.sectors == b.sectors
}

proof fn lemma_same_layout(
    tracks: Seq<Listed>,
    a: Seq<Option<ResolvedBin>>,
    b: Seq<Option<ResolvedBin>>,
    n: int,
)
    requires
        same_sizes(a, b),
    ensures
        laid_out(tracks, a, n).len() == laid_out(tracks, b, n).len(),
        forall|i: int|
            0 <= i < laid_out(tracks, a, n).len() ==> same_place(
                #[trigger] laid_out(tracks, a, n)[i],
                laid_out(tracks, b, n)[i],
            ),
    decreases n,
{
    if n > 0 {
        lemma_same_layout(tracks, a, b, n - 1);
        lemma_same_starts(tracks, a, b, tracks[n - 1].file);
    }
}

/// Where the files of a sheet lie, on disk or in an archive, decides nothing about its tracks but
/// where their data comes from: files of the same lengths give the same tracks.
pub proof fn law_layout_ignores_source(
    list: Seq<CommandView>,
    a: Seq<Option<ResolvedBin>>,
    b: Seq<Option<ResolvedBin>>,
)
    requires
        same_sizes(a, b),
    ensures
        sheet_fits(list, a) == sheet_fits(list, b),
        sheet_tracks(list, a).len() == sheet_tracks(list, b).len(),
        forall|i: int|
            0 <= i < sheet_tracks(list, a).len() ==> same_place(
                #[trigger] sheet_tracks(list, a)[i],
                sheet_tracks(list, b)[i],
            ),
{
    let tracks = sheet_listing(list, a);
    lemma_same_fit(list, a, b);
    lemma_same_listing(list, a, b, list.len() as int);
    lemma_same_layout(tracks, a, b, tracks.len() as int);
}

/// A sheet in the multi-bin style: every file is resolved and has one TRACK line, with a number.
/// The `i`-th FILE line stands at `files[i]` and its TRACK line at `starts[i]`; the last of `files`
/// is the end of the sheet. INDEX lines and lines of other kinds may stand anywhere.
pub open spec fn multi_bin(
    list: Seq<CommandView>,
    resolved: Seq<Option<ResolvedBin>>,
    files: Seq<int>,
    starts: Seq<int>,
) -> bool {
    &&& files.len() == resolved.len() + 1
    &&& starts.len() == resolved.len()
    &&& files.last() == list.len()
    &&& 0 <= files[0] <= list.len()
    &&& forall|j: int| 0 <= j < files[0] ==> !ends_track(#[trigger] list[j])
    &&& forall|i: int| 0 <= i < resolved.len() ==> #[trigger] bin_block(list, resolved, files, starts, i)
}

/// The `i`-th file of such a sheet.
pub open spec fn bin_block(
    list: Seq<CommandView>,
    resolved: Seq<Option<ResolvedBin>>,
    files: Seq<int>,
    starts: Seq<int>,
    i: int,
) -> bool {
    &&& 0 <= files[i] < starts[i] < files[i + 1] <= list.len()
    &&& list[files[i]] matches CommandView::File(Some(_))
    &&& list[starts[i]] matches CommandView::Track { number, .. } && number != 0
    &&& forall|j: int|
        files[i] < j < files[i + 1] && j != starts[i] ==> !ends_track(#[trigger] list[j])
    &&& resolved[i] is Some
}

/// How many sectors the first `n` files take up.
pub open spec fn files_size(resolved: Seq<Option<ResolvedBin>>, n: int) -> nat
    decreases n,
{
    if n <= 0 {
        0
    } else {
        files_size(resolved, n - 1) + size_of(resolved[n - 1])
    }
}

/// The track of the `i`-th file of such a sheet: its sound begins at the last INDEX 01 behind the
/// TRACK line, or with the file where there is none, and reaches to the end of the file.
pub open spec fn bin_track(
    list: Seq<CommandView>,
    resolved: Seq<Option<ResolvedBin>>,
    files: Seq<int>,
    starts: Seq<int>,
    i: int,
) -> Track {
    let file = resolved[i]->0;
    let index01 = match index01_before(list, files[i + 1]) {
        Some(position) => position.sectors(),
        None => 0,
    };
    Track {
        number: list[starts[i]]->Track_number,
        bin_path: file.bin_path,
        bin_zip: file.bin_zip,
        bin_audio_offset: (index01 * SECTOR_BYTES) as u64,
        abs_sector: (files_size(resolved, i) + index01) as u64,
        sectors: if file.size_sectors > index01 {
            (file.size_sectors - index01) as u64
        } else {
            0
        },
        cdg_path: file.cdg_path,
        cdg_zip: file.cdg_zip,
    }
}

/// The audio tracks of the first `n` files of such a sheet.
pub open spec fn bin_tracks(
    list: Seq<CommandView>,
    resolved: Seq<Option<ResolvedBin>>,
    files: Seq<int>,
    starts: Seq<int>,
    n: int,
) -> Seq<Track>
    decreases n,
{
    if n <= 0 {
        Seq::empty()
    } else if list[starts[n - 1]]->audio {
        bin_tracks(list, resolved, files, starts, n - 1).push(
            bin_track(list, resolved, files, starts, n - 1),
        )
    } else {
        bin_tracks(list, resolved, files, starts, n - 1)
    }
}

/// The `i`-th track that such a sheet lists.
spec fn bin_listed(list: Seq<CommandView>, files: Seq<int>, starts: Seq<int>, i: int) -> Listed {
    Listed {
        number: list[starts[i]]->Track_number,
        file: i,
        index01: in_sectors(index01_before(list, files[i + 1])),
        is_audio: list[starts[i]]->audio,
    }
}

/// What has been read of such a sheet up to a place in its `i`-th file.
proof fn lemma_in_bin_block(
    list: Seq<CommandView>,
    resolved: Seq<Option<ResolvedBin>>,
    files: Seq<int>,
    starts: Seq<int>,
    i: int,
    n: int,
)
    requires
        multi_bin(list, resolved, files, starts),
        0 <= i < resolved.len(),
        files[i] < n <= files[i + 1],
        reading(list.take(files[i]), resolved).files == i,
    ensures
        ({
            let r = reading(list.take(n), resolved);
            &&& r.files == i + 1
            &&& r.file == Some(i)
            &&& r.tracks == reading(list.take(files[i]), resolved).ended(resolved)
            &&& r.index01 == in_sectors(index01_before(list, n))
            &&& n <= starts[i] ==> r.number == 0
            &&& n > starts[i] ==> r.number == list[starts[i]]->Track_number && r.audio
                == list[starts[i]]->audio
        }),
    decreases n,
{
    assert(bin_block(list, resolved, files, starts, i));
    assert(list.take(n).drop_last() =~= list.take(n - 1));
    assert(list.take(n).last() == list[n - 1]);
    if n > files[i] + 1 {
        lemma_in_bin_block(list, resolved, files, starts, i, n - 1);
        if n - 1 != starts[i] {
            assert(!ends_track(list[n - 1]));
        }
    }
}

proof fn lemma_before_files(list: Seq<CommandView>, resolved: Seq<Option<ResolvedBin>>, n: int)
    requires
        0 <= n <= list.len(),
        forall|j: int| 0 <= j < n ==> !ends_track(#[trigger] list[j]),
    ensures
        ({
            let r = reading(list.take(n), resolved);
            r.files == 0 && r.file is None && r.number == 0 && r.tracks == Seq::<Listed>::empty()
        }),
    decreases n,
{
    if n > 0 {
        lemma_before_files(list, resolved, n - 1);
        assert(list.take(n).drop_last() =~= list.take(n - 1));
        assert(!ends_track(list[n - 1]));
    } else {
        assert(list.take(0) =~= Seq::empty());
    }
}

proof fn lemma_multi_bin(
    list: Seq<CommandView>,
    resolved: Seq<Option<ResolvedBin>>,
    files: Seq<int>,
    starts: Seq<int>,
    n: int,
)
    requires
        multi_bin(list, resolved, files, starts),
        0 <= n <= resolved.len(),
    ensures
        ({
            let r = reading(list.take(files[n]), resolved);
            &&& r.files == n
            &&& r.ended(resolved).len() == n
            &&& forall|i: int|
                0 <= i < n ==> #[trigger] r.ended(resolved)[i] == bin_listed(list, files, starts, i)
        }),
    decreases n,
{
    if n == 0 {
        lemma_before_files(list, resolved, files[0]);
    } else {
        lemma_multi_bin(list, resolved, files, starts, n - 1);
        assert(bin_block(list, resolved, files, starts, n - 1));
        lemma_in_bin_block(list, resolved, files, starts, n - 1, files[n]);
    }
}

/// A sheet in the multi-bin style has a track for each file whose track is an audio track. It
/// starts at its INDEX 01, behind the sectors of all files before it, data files too.
pub proof fn law_multi_bin_sheet(
    list: Seq<CommandView>,
    resolved: Seq<Option<ResolvedBin>>,
    files: Seq<int>,
    starts: Seq<int>,
)
    requires
        multi_bin(list, resolved, files, starts),
    ensures
        sheet_tracks(list, resolved) == bin_tracks(
            list,
            resolved,
            files,
            starts,
            resolved.len() as int,
        ),
{
    let n = resolved.len() as int;
    lemma_multi_bin(list, resolved, files, starts, n);
    lemma_listing_is_read(list, resolved);
    assert(list.take(files[n]) =~= list);
    lemma_bins_laid_out(list, resolved, files, starts, n);
}

proof fn lemma_bins_laid_out(
    list: Seq<CommandView>,
    resolved: Seq<Option<ResolvedBin>>,
    files: Seq<int>,
    starts: Seq<int>,
    n: int,
)
    requires
        multi_bin(list, resolved, files, starts),
        0 <= n <= resolved.len(),
        sheet_listing(list, resolved).len() == resolved.len(),
        forall|i: int|
            0 <= i < resolved.len() ==> #[trigger] sheet_listing(list, resolved)[i] == bin_listed(
                list,
                files,
                starts,
                i,
            ),
    ensures
        disc_start(sheet_listing(list, resolved), resolved, n) == files_size(resolved, n),
        laid_out(sheet_listing(list, resolved), resolved, n) == bin_tracks(
            list,
            resolved,
            files,
            starts,
            n,
        ),
    decreases n,
{
    if n > 0 {
        let tracks = sheet_listing(list, resolved);
        let i = n - 1;
        lemma_bins_laid_out(list, resolved, files, starts, i);
        assert(bin_block(list, resolved, files, starts, i));
        assert(tracks[i].file == i);
        assert(holds_track(tracks, i));
        assert forall|j: int| 0 <= j < tracks.len() implies (#[trigger] tracks[j]).file == j by {}
        assert(!shares_file(tracks, i));
        if i + 1 < tracks.len() {
            assert(tracks[i + 1].file == i + 1);
        }
        assert(placed(tracks, resolved, i) == bin_track(list, resolved, files, starts, i));
    }
}

/// The sound of a track lies inside its file: from where it begins, the track's sectors never reach
/// beyond the end of the file's last whole sector.
pub proof fn law_sound_lies_in_file(
    tracks: Seq<Listed>,
    resolved: Seq<Option<ResolvedBin>>,
    i: int,
)
    requires
        tracks[i].start() * SECTOR_BYTES <= u64::MAX,
        tracks[i].start() <= size_of(resolution(resolved, tracks[i].file)),
    ensures
        placed(tracks, resolved, i).bin_audio_offset + placed(tracks, resolved, i).sectors * SECTOR_BYTES
            <= size_of(resolution(resolved, tracks[i].file)) * SECTOR_BYTES,
{
    lemma_length_fits(tracks, resolved, i);
    assert(tracks[i].start() + length(tracks, resolved, i) <= size_of(
        resolution(resolved, tracks[i].file),
    ));
}

/// The sound of a track with its bin in a ZIP lies inside the ZIP entry.
pub proof fn law_sound_lies_in_entry(
    name: Seq<char>,
    archive: PathBuf,
    entries: Seq<EntryView>,
    tracks: Seq<Listed>,
    resolved: Seq<Option<ResolvedBin>>,
    i: int,
)
    requires
        resolution(resolved, tracks[i].file) is Some,
        resolution(resolved, tracks[i].file) == zip_resolution(name, archive, entries),
        tracks[i].start() <= size_of(resolution(resolved, tracks[i].file)),
    ensures
        placed(tracks, resolved, i).bin_zip is Some,
        placed(tracks, resolved, i).bin_audio_offset + placed(tracks, resolved, i).sectors * SECTOR_BYTES
            <= placed(tracks, resolved, i).bin_zip->0.data_size,
{
    let file = resolution(resolved, tracks[i].file)->0;
    let size = file.bin_zip->0.data_size;
    assert(size == zip_bin(name, entries)->0.data_size);
    assert(file.size_sectors == size / 2352);
    vstd::arithmetic::div_mod::lemma_fundamental_div_mod(size as int, 2352);
    assert((size / 2352) * 2352 <= size);
    assert(tracks[i].start() * SECTOR_BYTES <= file.size_sectors * SECTOR_BYTES);
    law_sound_lies_in_file(tracks, resolved, i);
}

// ---- Reads -------------------------------------------------------------------------------------
proof fn lemma_as_usize(n: u64)
    ensures
        (n as usize) <= n,
{
    assert((n as usize) <= n) by (bit_vector);
}

/// A read of an entry's data never leaves the entry.
pub proof fn law_read_stays_in_entry(entry: ZipEntry, offset: u64, len: usize)
    requires
        offset <= entry.data_size,
        entry.data_start + entry.data_size <= u64::MAX,
    ensures
        entry.data_start <= entry.range(offset, len).start,
        entry.range(offset, len).start + entry.range(offset, len).len <= entry.data_start
            + entry.data_size,
        entry.range(offset, len).len <= len,
{
    lemma_as_usize(entry.bytes_after(offset));
}

/// A file that holds `data` as the uncompressed data of `entry`.
pub open spec fn holds(file: Seq<u8>, entry: ZipEntry, data: Seq<u8>) -> bool {
    &&& data.len() == entry.data_size
    &&& entry.data_start + entry.data_size <= file.len()
    &&& file.len() <= u64::MAX
    &&& file.subrange(entry.data_start as int, entry.data_start + entry.data_size) == data
}

/// A read of an entry gives the data that the entry holds, cut to the stretch that is asked for.
pub proof fn law_read_gives_data(
    entry: ZipEntry,
    file: Seq<u8>,
    data: Seq<u8>,
    offset: u64,
    len: usize,
)
    requires
        holds(file, entry, data),
        data.len() <= usize::MAX,
        entry.data_start + offset <= u64::MAX,
    ensures
        entry.range(offset, len).content(file) == cut(data, offset as int, len as int),
{
    let range = entry.range(offset, len);
    assert(entry.bytes_after(offset) as usize == entry.bytes_after(offset));
    assert forall|i: int| 0 <= i < data.len() implies data[i] == file[entry.data_start + i] by {
        assert(file.subrange(
            entry.data_start as int,
            entry.data_start + entry.data_size,
        )[i] == file[entry.data_start + i]);
    }
    assert(range.content(file) =~= cut(data, offset as int, len as int));
}

/// Reading all of an entry gives all of its data.
pub proof fn law_read_all_gives_data(entry: ZipEntry, file: Seq<u8>, data: Seq<u8>)
    requires
        holds(file, entry, data),
        data.len() <= usize::MAX,
    ensures
        entry.range(0, entry.data_size as usize).content(file) == data,
{
    law_read_gives_data(entry, file, data, 0, entry.data_size as usize);
    assert(cut(data, 0, data.len() as int) =~= data);
}

/// A track sounds the same whether its bin lies in a ZIP or on disk.
pub proof fn law_zip_sounds_like_disk(
    zipped: Track,
    on_disk: Track,
    file: Seq<u8>,
    data: Seq<u8>,
)
    requires
        zipped.bin_zip is Some,
        on_disk.bin_zip is None,
        on_disk.bin_path is Some,
        zipped.bin_audio_offset == on_disk.bin_audio_offset,
        zipped.sectors == on_disk.sectors,
        zipped.audio_fetch_fits(),
        on_disk.bin_audio_offset <= usize::MAX,
        data.len() <= usize::MAX,
        holds(file, zipped.bin_zip->0, data),
    ensures
        zipped.audio_fetch() is Range,
        samples(zipped.audio_bytes(zipped.audio_fetch()->Range_0.content(file))) == samples(
            on_disk.audio_bytes(data),
        ),
{
    law_read_gives_data(
        zipped.bin_zip->0,
        file,
        data,
        zipped.bin_audio_offset,
        zipped.audio_len() as usize,
    );
}

/// A track has the same CDG bytes whether the monolithic .cdg lies in a ZIP or is at hand.
pub proof fn law_zip_cdg_like_raw(track: Track, zip: ZipEntry, file: Seq<u8>, data: Seq<u8>)
    requires
        track.cdg_zip is None,
        track.cdg_path is None,
        track.cdg_fits(true, Some(zip)),
        track.cdg_start() <= usize::MAX,
        data.len() <= usize::MAX,
        holds(file, zip, data),
    ensures
        track.cdg_fetch(Some(data), Some(zip)) is Range,
        track.cdg_fetch(Some(data), None) == FetchView::Bytes(
            track.cdg_fetch(Some(data), Some(zip))->Range_0.content(file),
        ),
{
    law_read_gives_data(
        zip,
        file,
        data,
        track.cdg_start() as u64,
        track.cdg_len() as usize,
    );
}

/// The sources of CDG bytes in their order of priority: an entry of a ZIP for this track, a file
/// for this track, a monolithic .cdg in a ZIP, a monolithic .cdg at hand. Without any of them
/// there are no bytes.
pub proof fn law_priority_of_cdg(track: Track, raw: Option<Seq<u8>>, zip: Option<ZipEntry>)
    ensures
        track.cdg_zip matches Some(own) ==> track.cdg_fetch(raw, zip) == FetchView::Range(
            own.range(0, own.data_size as usize),
        ),
        track.cdg_zip is None ==> (track.cdg_path matches Some(path) ==> track.cdg_fetch(raw, zip)
            == FetchView::File(path)),
        track.cdg_zip is None && track.cdg_path is None && zip is Some ==> track.cdg_fetch(raw, zip)
            == track.cdg_fetch(None, zip),
        track.cdg_zip is Some || track.cdg_path is Some ==> track.cdg_fetch(raw, zip)
            == track.cdg_fetch(None, None),
        !(track.cdg_zip is Some || track.cdg_path is Some || raw is Some || zip is Some)
            ==> track.cdg_fetch(raw, zip) == FetchView::Bytes(Seq::empty()),
{
}

/// A bin in a ZIP takes priority over one on disk: the path on disk then does not matter.
pub proof fn law_priority_of_bin(track: Track, other: Track, fetched: Seq<u8>)
    requires
        track.bin_zip is Some,
        other == (Track { bin_path: other.bin_path, ..track }),
    ensures
        track.audio_fetch() == other.audio_fetch(),
        track.audio_bytes(fetched) == other.audio_bytes(fetched),
{
}

/// The two bytes that write a sample.
pub open spec fn sample_bytes(s: i16) -> (u8, u8) {
    let n = if s >= 0 {
        s as int
    } else {
        s + 65536
    };
    ((n % 256) as u8, (n / 256) as u8)
}

/// The bytes that write a list of samples.
pub open spec fn encoded(list: Seq<i16>) -> Seq<u8> {
    Seq::new(
        2 * list.len(),
        |i: int|
            if i % 2 == 0 {
                sample_bytes(list[i / 2]).0
            } else {
                sample_bytes(list[i / 2]).1
            },
    )
}

/// Samples that are written as bytes are read back.
pub proof fn law_samples_are_read_back(list: Seq<i16>)
    ensures
        samples(encoded(list)) == list,
{
    assert forall|i: int| 0 <= i < list.len() implies samples(encoded(list))[i] == list[i] by {
        let (low, high) = sample_bytes(list[i]);
        assert(encoded(list)[2 * i] == low);
        assert(encoded(list)[2 * i + 1] == high);
        assert(sample(low, high) == list[i]);
    }
    assert(samples(encoded(list)) =~= list);
}

// ---- The library -------------------------------------------------------------------------------
/// A scan after all its pending archives have been looked into, where `contains` tells which of
/// them contain a .cue.
pub open spec fn explored(scan: ScanView, contains: spec_fn(DiscView) -> bool) -> ScanView
    decreases scan.pending.len(),
{
    if scan.pending.len() == 0 {
        scan
    } else {
        proof {
            lemma_fewer_zips(scan.pending.drop_first());
        }
        explored(scan.probed(contains(scan.pending[0])), contains)
    }
}

/// The discs among `pending`: every ZIP archive that contains a .cue, and a 7z archive that does
/// where none before it does.
pub open spec fn hits(
    pending: Seq<DiscView>,
    contains: spec_fn(DiscView) -> bool,
    matched: bool,
) -> Seq<DiscView>
    decreases pending.len(),
{
    if pending.len() == 0 {
        Seq::empty()
    } else if contains(pending[0]) && (pending[0].source is Zip || !matched) {
        seq![pending[0]] + hits(pending.drop_first(), contains, true)
    } else {
        hits(pending.drop_first(), contains, matched)
    }
}

/// There are no more ZIP archives than archives.
pub proof fn lemma_fewer_zips(discs: Seq<DiscView>)
    ensures
        only_zips(discs).len() <= discs.len(),
    decreases discs.len(),
{
    if discs.len() > 0 {
        lemma_fewer_zips(discs.drop_last());
        assert(discs =~= discs.drop_last().push(discs.last()));
        lemma_only_zips_push(discs.drop_last(), discs.last());
    } else {
        reveal(Seq::filter);
    }
}

proof fn lemma_only_zips_first(discs: Seq<DiscView>)
    requires
        discs.len() > 0,
    ensures
        only_zips(discs) == (if discs[0].source is Zip {
            seq![discs[0]] + only_zips(discs.drop_first())
        } else {
            only_zips(discs.drop_first())
        }),
    decreases discs.len(),
{
    let last = discs.last();
    let before = discs.drop_last();
    assert(discs =~= before.push(last));
    lemma_only_zips_push(before, last);
    if discs.len() == 1 {
        assert(only_zips(before) =~= Seq::empty()) by {
            reveal(Seq::filter);
        }
        assert(only_zips(discs.drop_first()) =~= Seq::empty()) by {
            reveal(Seq::filter);
        }
        assert(only_zips(discs) =~= (if discs[0].source is Zip {
            seq![discs[0]] + only_zips(discs.drop_first())
        } else {
            only_zips(discs.drop_first())
        }));
    } else {
        lemma_only_zips_first(before);
        assert(discs.drop_first() =~= before.drop_first().push(last));
        lemma_only_zips_push(before.drop_first(), last);
        assert(only_zips(discs) =~= (if discs[0].source is Zip {
            seq![discs[0]] + only_zips(discs.drop_first())
        } else {
            only_zips(discs.drop_first())
        }));
    }
}

/// Behind a match, the 7z archives play no part.
proof fn lemma_hits_are_zips(pending: Seq<DiscView>, contains: spec_fn(DiscView) -> bool)
    ensures
        hits(only_zips(pending), contains, true) == hits(pending, contains, true),
        hits(only_zips(pending), contains, false) == hits(only_zips(pending), contains, true),
    decreases pending.len(),
{
    if pending.len() == 0 {
        reveal(Seq::filter);
        assert(only_zips(pending) =~= pending);
    } else {
        let rest = pending.drop_first();
        lemma_hits_are_zips(rest, contains);
        lemma_only_zips_first(pending);
        if pending[0].source is Zip {
            assert((seq![pending[0]] + only_zips(rest)).drop_first() =~= only_zips(rest));
        }
    }
}

/// Every pending ZIP archive is looked into, and each that contains a .cue is a disc; so is the
/// first archive of any kind that contains one. Nothing else is.
pub proof fn law_archives_are_explored(scan: ScanView, contains: spec_fn(DiscView) -> bool)
    ensures
        explored(scan, contains) == (ScanView {
            discs: scan.discs + hits(scan.pending, contains, false),
            pending: Seq::empty(),
        }),
    decreases scan.pending.len(),
{
    if scan.pending.len() == 0 {
        assert(scan.pending =~= Seq::empty());
        assert(scan.discs + hits(scan.pending, contains, false) =~= scan.discs);
    } else {
        let first = scan.pending[0];
        let rest = scan.pending.drop_first();
        let next = scan.probed(contains(first));
        lemma_fewer_zips(rest);
        law_archives_are_explored(next, contains);
        lemma_hits_are_zips(rest, contains);
        assert(next.discs + hits(next.pending, contains, false) =~= scan.discs + hits(
            scan.pending,
            contains,
            false,
        ));
    }
}

/// Every ZIP archive that contains a .cue is among the discs.
pub proof fn law_every_zip_is_found(
    pending: Seq<DiscView>,
    contains: spec_fn(DiscView) -> bool,
    matched: bool,
    i: int,
)
    requires
        0 <= i < pending.len(),
        pending[i].source is Zip,
        contains(pending[i]),
    ensures
        hits(pending, contains, matched).contains(pending[i]),
    decreases pending.len(),
{
    let taken = contains(pending[0]) && (pending[0].source is Zip || !matched);
    let rest = hits(pending.drop_first(), contains, matched || taken);
    let all = hits(pending, contains, matched);
    if i == 0 {
        assert(all[0] == pending[0]);
    } else {
        assert(pending.drop_first()[i - 1] == pending[i]);
        law_every_zip_is_found(pending.drop_first(), contains, matched || taken, i - 1);
        let k = choose|k: int| 0 <= k < rest.len() && rest[k] == pending[i];
        if taken {
            assert(all[k + 1] == pending[i]);
        } else {
            assert(all[k] == pending[i]);
        }
    }
}

/// Where no pending archive contains a .cue, there is no disc among them; where one does, the
/// first that does is the first disc.
pub proof fn law_first_archive_is_found(
    pending: Seq<DiscView>,
    contains: spec_fn(DiscView) -> bool,
)
    ensures
        match first_where(pending, contains) {
            Some(i) => hits(pending, contains, false).len() > 0 && hits(pending, contains, false)[0]
                == pending[i],
            None => hits(pending, contains, false).len() == 0,
        },
    decreases pending.len(),
{
    lemma_first_where(pending, contains);
    if pending.len() > 0 {
        if contains(pending[0]) {
            lemma_first_where_is(pending, contains, 0);
        } else {
            let rest = pending.drop_first();
            law_first_archive_is_found(rest, contains);
            lemma_first_where(rest, contains);
            match first_where(rest, contains) {
                Some(k) => {
                    assert forall|j: int| 0 <= j < k + 1 implies !contains(#[trigger] pending[j]) by {
                        if j > 0 {
                            assert(!contains(rest[j - 1]));
                        }
                    }
                    assert(rest[k] == pending[k + 1]);
                    lemma_first_where_is(pending, contains, k + 1);
                },
                None => {
                    assert forall|j: int| 0 <= j < pending.len() implies !contains(
                        #[trigger] pending[j],
                    ) by {
                        if j > 0 {
                            assert(!contains(rest[j - 1]));
                        }
                    }
                    lemma_first_where_is(pending, contains, pending.len() as int);
                },
            }
        }
    }
}

/// A folder with a .cue file is a disc by its first .cue file, and its archives are left alone.
pub proof fn law_cue_before_archives(scan: ScanView, title: Seq<char>, files: Seq<FileView>, i: int)
    requires
        0 <= i < files.len(),
        is_cue_file()(files[i]),
        forall|j: int| 0 <= j < i ==> !is_cue_file()(#[trigger] files[j]),
    ensures
        scan.folder(title, files) == (ScanView {
            discs: scan.discs.push(DiscView { title, source: DiscSource::Cue(files[i].path) }),
            pending: Seq::empty(),
        }),
{
    lemma_first_where_is(files, is_cue_file(), i);
}

/// A list of `n` different positions below `n` names all of them.
pub(crate) proof fn lemma_all_positions(p: Seq<int>, n: int)
    requires
        p.len() == n,
        p.no_duplicates(),
        forall|i: int| 0 <= i < p.len() ==> 0 <= #[trigger] p[i] < n,
    ensures
        forall|i: int| 0 <= i < n ==> #[trigger] p.contains(i),
{
    let all = vstd::set_lib::set_int_range(0, n);
    vstd::set_lib::lemma_int_range(0, n);
    p.unique_seq_to_set();
    assert(p.to_set().subset_of(all)) by {
        assert forall|x: int| p.to_set().contains(x) implies all.contains(x) by {
            let k = choose|k: int| 0 <= k < p.len() && p[k] == x;
            assert(0 <= p[k] < n);
        }
    }
    vstd::set_lib::lemma_subset_equality(p.to_set(), all);
    assert forall|i: int| 0 <= i < n implies #[trigger] p.contains(i) by {
        assert(all.contains(i));
        assert(p.to_set().contains(i));
    }
}

/// Every position is named in a stable order.
proof fn lemma_order_is_complete(keys: Seq<Seq<u32>>, p: Seq<int>, i: int)
    requires
        stable_order(keys, p),
        0 <= i < keys.len(),
    ensures
        p.contains(i),
{
    lemma_all_positions(p, keys.len() as int);
}

/// There is one stable order only.
proof fn lemma_order_is_unique(keys: Seq<Seq<u32>>, p: Seq<int>, q: Seq<int>, n: int)
    requires
        stable_order(keys, p),
        stable_order(keys, q),
        0 <= n <= keys.len(),
    ensures
        forall|i: int| 0 <= i < n ==> p[i] == q[i],
    decreases n,
{
    if n > 0 {
        lemma_order_is_unique(keys, p, q, n - 1);
        let i = n - 1;
        if p[i] != q[i] {
            assert(0 <= p[i] < keys.len() && 0 <= q[i] < keys.len());
            lemma_order_is_complete(keys, q, p[i]);
            lemma_order_is_complete(keys, p, q[i]);
            let j = choose|j: int| 0 <= j < q.len() && q[j] == p[i];
            let k = choose|k: int| 0 <= k < p.len() && p[k] == q[i];
            assert(j > i) by {
                if j < i {
                    assert(p[j] == q[j]);
                }
            }
            assert(k > i) by {
                if k < i {
                    assert(p[k] == q[k]);
                }
            }
            assert(comes_before(keys[q[i]], q[i], keys[q[j]], q[j]));
            assert(comes_before(keys[p[i]], p[i], keys[p[k]], p[k]));
            lemma_key_le_both(keys[p[i]], keys[q[i]]);
        }
    }
}

/// Sorting has one result only, whatever the way in which it is done.
pub proof fn law_sort_is_unique<A>(
    input: Seq<A>,
    keys: Seq<Seq<u32>>,
    one: Seq<A>,
    other: Seq<A>,
)
    requires
        sorted_by(input, keys, one),
        sorted_by(input, keys, other),
    ensures
        one == other,
{
    let p = choose|p: Seq<int>|
        #[trigger] stable_order(keys, p) && one == p.map_values(|i: int| input[i]);
    let q = choose|q: Seq<int>|
        #[trigger] stable_order(keys, q) && other == q.map_values(|i: int| input[i]);
    lemma_order_is_unique(keys, p, q, keys.len() as int);
    assert(one =~= other);
}

/// Sorting loses nothing and adds nothing.
pub proof fn law_sort_keeps_items<A>(input: Seq<A>, keys: Seq<Seq<u32>>, output: Seq<A>, item: A)
    requires
        input.len() == keys.len(),
        sorted_by(input, keys, output),
    ensures
        output.len() == input.len(),
        output.contains(item) <==> input.contains(item),
{
    let p = choose|p: Seq<int>|
        #[trigger] stable_order(keys, p) && output == p.map_values(|i: int| input[i]);
    if input.contains(item) {
        let i = choose|i: int| 0 <= i < input.len() && input[i] == item;
        lemma_order_is_complete(keys, p, i);
        let k = choose|k: int| 0 <= k < p.len() && p[k] == i;
        assert(output[k] == item);
    }
    if output.contains(item) {
        let k = choose|k: int| 0 <= k < output.len() && output[k] == item;
        assert(0 <= p[k] < keys.len());
        assert(input[p[k]] == item);
    }
}

/// The discs of a finished scan are in the order of their titles.
pub proof fn law_discs_are_sorted(found: Seq<DiscView>, sorted: Seq<DiscView>, i: int, j: int)
    requires
        sorted_by(found, title_keys(found), sorted),
        0 <= i < j < sorted.len(),
    ensures
        key_le(title_key(sorted[i]), title_key(sorted[j])),
{
    let keys = title_keys(found);
    let p = choose|p: Seq<int>|
        #[trigger] stable_order(keys, p) && sorted == p.map_values(|i: int| found[i]);
    assert(comes_before(keys[p[i]], p[i], keys[p[j]], p[j]));
    assert(0 <= p[i] < keys.len() && 0 <= p[j] < keys.len());
}

// ---- Settings ----------------------------------------------------------------------------------
/// A library folder that is saved is found again when the settings are loaded, provided that its
/// path is UTF-8 text without white space at either end.
pub proof fn law_saved_library_is_loaded(path: PathBuf, action: SaveAction, loaded: PathBuf)
    requires
        valid_utf8(path_bytes(path)),
        trim(decode_utf8(path_bytes(path))) == decode_utf8(path_bytes(path)),
        saves(action, Some(path)),
        path_bytes(loaded) == encode_utf8(trim(action->Write_0@)),
    ensures
        path_bytes(loaded) == path_bytes(path),
{
    decode_utf8_encode_utf8(path_bytes(path));
}

} // verus!
