//! What file names mean, said of the characters in them.
use vstd::prelude::*;
use crate::laws::{law_fold_joins, law_no_track_no_number, law_number_behind_track, lemma_find_from};
use crate::names::{
    bin_named, bin_numbered, digits_number, disk_bin, disk_path, first_track_word, folded,
    is_track_word, leading_digits, lemma_first_where, lemma_first_where_is, texts, track_number,
};
use crate::text::{
    ascii_lower, digits_len, from_first_digit, has_extension, is_ascii_char, is_digit,
    is_white_space, lemma_digits_len_is, lowercase, occurs_at, trim_start,
};
use crate::text_laws::{
    all_blank, are_digits, blank, lacks, law_ascii_case, law_has_extension, law_number,
    law_white_space, place_value, same_letter, same_letters, written,
};
use std::path::PathBuf;

verus! {

// ---- Folding -----------------------------------------------------------------------------------
/// The fold of a single character: an ASCII character is kept, as a small letter where it is a
/// capital one, and any other is dropped.
pub proof fn law_fold_of_one(c: char)
    ensures
        folded(Seq::<char>::empty()) == Seq::<char>::empty(),
        c as u32 >= 0x80 ==> folded(seq![c]) == Seq::<char>::empty(),
        0x41 <= c as u32 <= 0x5a ==> folded(seq![c]).len() == 1 && folded(seq![c])[0] as u32 == c as u32
            + 32,
        (c as u32) < 0x80 && !(0x41 <= c as u32 <= 0x5a) ==> folded(seq![c]) == seq![c],
{
    reveal(Seq::filter);
    let none = Seq::<char>::empty();
    let ascii = |c: char| is_ascii_char(c);
    assert(none.filter(ascii) =~= none);
    assert(folded(none) =~= none);
    assert(seq![c].drop_last() =~= none);
    assert(seq![c].last() == c);
    law_ascii_case(c);
    if is_ascii_char(c) {
        assert(seq![c].filter(ascii) =~= seq![c]);
        assert(folded(seq![c]) =~= seq![ascii_lower(c)]);
    } else {
        assert(seq![c].filter(ascii) =~= none);
        assert(folded(seq![c]) =~= none);
    }
}

/// A text in ASCII is kept whole by folding, letter by letter.
pub proof fn law_fold_of_ascii(s: Seq<char>)
    requires
        forall|i: int| 0 <= i < s.len() ==> (#[trigger] s[i]) as u32 <= 0x7f,
    ensures
        same_letters(folded(s), s),
        forall|i: int| 0 <= i < s.len() ==> !(0x41 <= (#[trigger] folded(s)[i]) as u32 <= 0x5a),
    decreases s.len(),
{
    if s.len() == 0 {
        law_fold_of_one('a');
        assert(s =~= Seq::empty());
    } else {
        let before = s.drop_last();
        let c = s.last();
        assert(s[s.len() - 1] as u32 <= 0x7f);
        assert forall|i: int| 0 <= i < before.len() implies (#[trigger] before[i]) as u32 <= 0x7f by {
            assert(s[i] as u32 <= 0x7f);
        }
        law_fold_of_ascii(before);
        law_fold_of_one(c);
        law_fold_joins(before, seq![c]);
        assert(s =~= before + seq![c]);
        let f = folded(s);
        assert(f =~= folded(before) + folded(seq![c]));
        assert forall|i: int| 0 <= i < f.len() implies same_letter(#[trigger] f[i], s[i]) && !(0x41
            <= f[i] as u32 <= 0x5a) by {
            if i < before.len() {
                assert(f[i] == folded(before)[i]);
                assert(same_letter(folded(before)[i], before[i]));
            }
        }
    }
}

/// A text in ASCII without capital letters is its own fold.
pub proof fn law_fold_of_small(s: Seq<char>)
    requires
        forall|i: int|
            0 <= i < s.len() ==> (#[trigger] s[i]) as u32 <= 0x7f && !(0x41 <= s[i] as u32 <= 0x5a),
    ensures
        folded(s) == s,
{
    law_fold_of_ascii(s);
    assert forall|i: int| 0 <= i < s.len() implies folded(s)[i] == s[i] by {
        assert(same_letter(folded(s)[i], s[i]));
        assert(s[i] as u32 <= 0x7f);
        assert(!(0x41 <= folded(s)[i] as u32 <= 0x5a));
    }
    assert(folded(s) =~= s);
}

// ---- Track numbers -----------------------------------------------------------------------------
/// Whether no character of `s` is a decimal digit.
pub open spec fn no_digit(s: Seq<char>) -> bool {
    forall|i: int| 0 <= i < s.len() ==> !(0x30 <= (#[trigger] s[i]) as u32 <= 0x39)
}

pub open spec fn no_digit_first(s: Seq<char>) -> bool {
    s.len() > 0 ==> !(0x30 <= s[0] as u32 <= 0x39)
}

/// Whether "track" stands in `s` at `j`, behind no small letter, with nothing but white space between
/// it and the digit at `k`.
pub open spec fn numbered_word(s: Seq<char>, j: int, k: int) -> bool {
    &&& 0 <= j
    &&& j + 5 <= k < s.len()
    &&& s.subrange(j, j + 5) == seq!['t', 'r', 'a', 'c', 'k']
    &&& j > 0 ==> !('a' <= s[j - 1] <= 'z')
    &&& all_blank(s.subrange(j + 5, k))
    &&& '0' <= s[k] <= '9'
}

/// Whether no "track N" stands in `s` at a place before `at`.
pub open spec fn no_numbered_word_before(s: Seq<char>, at: int) -> bool {
    forall|j: int, k: int| 0 <= j < at ==> !#[trigger] numbered_word(s, j, k)
}

/// Whether "track" stands in `s` at no place before `at`.
pub open spec fn no_track_before(s: Seq<char>, at: int) -> bool {
    forall|j: int|
        0 <= j < at && j + 5 <= s.len() ==> #[trigger] s.subrange(j, j + 5) != seq![
            't',
            'r',
            'a',
            'c',
            'k',
        ]
}

proof fn lemma_track()
    ensures
        "track"@ == seq!['t', 'r', 'a', 'c', 'k'],
        "track"@.len() == 5,
{
    reveal_strlit("track");
    assert("track"@ =~= seq!['t', 'r', 'a', 'c', 'k']);
}

proof fn lemma_leading(d: Seq<nat>, b: Seq<char>)
    requires
        are_digits(d),
        no_digit_first(b),
    ensures
        leading_digits(written(d) + b) == written(d),
        digits_len(written(d) + b) == d.len(),
{
    let s = written(d) + b;
    let n = d.len() as int;
    assert forall|j: int| 0 <= j < n implies is_digit(s[j]) by {
        assert(d[j] < 10);
        assert(s[j] == written(d)[j]);
    }
    if n < s.len() {
        assert(s[n] == b[0]);
    }
    lemma_digits_len_is(s, n);
    assert(s.take(n) =~= written(d));
}

proof fn lemma_skip_gap(gap: Seq<char>, s: Seq<char>)
    requires
        no_digit(gap),
        s.len() > 0 ==> is_digit(s[0]),
    ensures
        from_first_digit(gap + s) == s,
    decreases gap.len(),
{
    if gap.len() == 0 {
        assert(gap + s =~= s);
    } else {
        assert(!(0x30 <= gap[0] as u32 <= 0x39));
        assert((gap + s).drop_first() =~= gap.drop_first() + s);
        assert forall|i: int| 0 <= i < gap.len() - 1 implies !(0x30 <= (
        #[trigger] gap.drop_first()[i]) as u32 <= 0x39) by {
            assert(!(0x30 <= gap[i + 1] as u32 <= 0x39));
        }
        lemma_skip_gap(gap.drop_first(), s);
    }
}

/// A name with the word "track" in it once has the number that the first digits behind the word
/// write, each digit by its place, whatever stands between.
pub proof fn law_number_behind_the_word(
    a: Seq<char>,
    gap: Seq<char>,
    d: Seq<nat>,
    b: Seq<char>,
)
    requires
        no_digit(gap),
        are_digits(d),
        no_digit_first(b),
        ({
            let lower = a + seq!['t', 'r', 'a', 'c', 'k'] + gap + written(d) + b;
            forall|j: int|
                0 <= j <= lower.len() - 5 && #[trigger] lower.subrange(j, j + 5) == seq![
                    't',
                    'r',
                    'a',
                    'c',
                    'k',
                ] ==> j == a.len()
        }),
    ensures
        track_number(a + seq!['t', 'r', 'a', 'c', 'k'] + gap + written(d) + b) == (if place_value(d)
            <= u32::MAX {
            Some(place_value(d) as u32)
        } else {
            None
        }),
{
    lemma_track();
    let lower = a + seq!['t', 'r', 'a', 'c', 'k'] + gap + written(d) + b;
    let at = a.len() as int;
    assert(lower.subrange(at, at + 5) =~= "track"@);
    assert forall|j: int| j != at implies !#[trigger] occurs_at(lower, "track"@, j) by {
        if occurs_at(lower, "track"@, j) {
            assert(lower.subrange(j, j + 5) == seq!['t', 'r', 'a', 'c', 'k']);
        }
    }
    law_number_behind_track(lower, at);
    let tail = written(d) + b;
    assert(lower.skip(at + 5) =~= gap + tail);
    assert(d[0] < 10);
    assert(tail[0] == written(d)[0]);
    lemma_skip_gap(gap, tail);
    lemma_leading(d, b);
    law_number(d, u32::MAX as nat);
}

/// The N of the first "track N" counts, in parentheses or not, whatever stands around it.
pub proof fn law_number_of_the_word(
    a: Seq<char>,
    g: Seq<char>,
    d: Seq<nat>,
    b: Seq<char>,
)
    requires
        a.len() > 0 ==> !('a' <= a.last() <= 'z'),
        all_blank(g),
        are_digits(d),
        no_digit_first(b),
        no_numbered_word_before(
            a + seq!['t', 'r', 'a', 'c', 'k'] + g + written(d) + b,
            a.len() as int,
        ),
    ensures
        track_number(a + seq!['t', 'r', 'a', 'c', 'k'] + g + written(d) + b) == (if place_value(d)
            <= u32::MAX {
            Some(place_value(d) as u32)
        } else {
            None
        }),
{
    let lower = a + seq!['t', 'r', 'a', 'c', 'k'] + g + written(d) + b;
    let at = a.len() as int;
    assert(lower.subrange(at, at + 5) =~= seq!['t', 'r', 'a', 'c', 'k']);
    assert(lower.skip(at + 5) =~= g + (written(d) + b));
    if at > 0 {
        assert(lower[at - 1] == a.last());
    }
    lemma_word_number(lower, at, g, d, b);
}

proof fn lemma_word_number(lower: Seq<char>, at: int, g: Seq<char>, d: Seq<nat>, b: Seq<char>)
    requires
        0 <= at,
        at + 5 <= lower.len(),
        lower.subrange(at, at + 5) == seq!['t', 'r', 'a', 'c', 'k'],
        at > 0 ==> !('a' <= lower[at - 1] <= 'z'),
        lower.skip(at + 5) == g + (written(d) + b),
        all_blank(g),
        are_digits(d),
        no_digit_first(b),
        no_numbered_word_before(lower, at),
    ensures
        track_number(lower) == (if place_value(d) <= u32::MAX {
            Some(place_value(d) as u32)
        } else {
            None
        }),
{
    lemma_track();
    let p = is_track_word(lower);
    let positions = Seq::new(lower.len(), |i: int| i);
    let tail = written(d) + b;
    assert(!blank(tail[0])) by {
        assert(d[0] < 10);
        assert(tail[0] == written(d)[0]);
    }
    lemma_trim_blank(g, tail);
    lemma_leading(d, b);
    assert(p(at));
    assert forall|j: int| 0 <= j < at implies !p(#[trigger] positions[j]) by {
        assert(positions[j] == j);
        if p(j) {
            lemma_numbered_word(lower, j);
        }
    }
    assert(positions[at] == at);
    lemma_first_where_is(positions, p, at);
    law_number(d, u32::MAX as nat);
}

proof fn lemma_numbered_word(lower: Seq<char>, j: int)
    requires
        0 <= j < lower.len(),
        is_track_word(lower)(j),
    ensures
        exists|k: int| numbered_word(lower, j, k),
{
    lemma_track();
    let tail = lower.skip(j + 5);
    let n = lemma_blank_start(tail);
    assert(lower.subrange(j + 5, j + 5 + n) =~= tail.take(n));
    assert(tail[n] == lower[j + 5 + n]);
    assert(numbered_word(lower, j, j + 5 + n));
}

proof fn lemma_blank_start(s: Seq<char>) -> (n: int)
    requires
        digits_len(trim_start(s)) > 0,
    ensures
        0 <= n < s.len(),
        all_blank(s.take(n)),
        '0' <= s[n] <= '9',
    decreases s.len(),
{
    law_white_space(s[0]);
    if s.len() > 0 && is_white_space(s[0]) {
        let rest = s.drop_first();
        let n = lemma_blank_start(rest);
        assert forall|i: int| 0 <= i < n + 1 implies blank(#[trigger] s.take(n + 1)[i]) by {
            if i > 0 {
                assert(rest.take(n)[i - 1] == s[i]);
            }
        }
        assert(rest[n] == s[n + 1]);
        n + 1
    } else {
        0
    }
}

/// Where a name holds no "track N", the first digits behind its first "track" count, whatever
/// stands between.
pub proof fn law_number_behind_the_first_track(
    a: Seq<char>,
    gap: Seq<char>,
    d: Seq<nat>,
    b: Seq<char>,
)
    requires
        no_digit(gap),
        are_digits(d),
        no_digit_first(b),
        ({
            let lower = a + seq!['t', 'r', 'a', 'c', 'k'] + gap + written(d) + b;
            no_track_before(lower, a.len() as int) && no_numbered_word_before(
                lower,
                lower.len() as int,
            )
        }),
    ensures
        track_number(a + seq!['t', 'r', 'a', 'c', 'k'] + gap + written(d) + b) == (if place_value(d)
            <= u32::MAX {
            Some(place_value(d) as u32)
        } else {
            None
        }),
{
    let lower = a + seq!['t', 'r', 'a', 'c', 'k'] + gap + written(d) + b;
    let at = a.len() as int;
    let tail = written(d) + b;
    assert(lower.subrange(at, at + 5) =~= seq!['t', 'r', 'a', 'c', 'k']);
    lemma_first_track(lower, at);
    assert(lower.skip(at + 5) =~= gap + tail);
    assert(d[0] < 10);
    assert(tail[0] == written(d)[0]);
    lemma_skip_gap(gap, tail);
    lemma_leading(d, b);
    law_number(d, u32::MAX as nat);
}

/// A name with "track" in it, and no digit behind the first, has no number.
pub proof fn law_no_number_behind_the_first_track(a: Seq<char>, gap: Seq<char>)
    requires
        no_digit(gap),
        no_track_before(a + seq!['t', 'r', 'a', 'c', 'k'] + gap, a.len() as int),
    ensures
        track_number(a + seq!['t', 'r', 'a', 'c', 'k'] + gap) is None,
{
    let lower = a + seq!['t', 'r', 'a', 'c', 'k'] + gap;
    let at = a.len() as int;
    assert(lower.subrange(at, at + 5) =~= seq!['t', 'r', 'a', 'c', 'k']);
    assert forall|j: int, k: int| 0 <= j < lower.len() implies !#[trigger] numbered_word(lower, j, k) by {
        if numbered_word(lower, j, k) {
            assert(at <= j);
            assert(lower[k] == gap[k - at - 5]);
        }
    }
    lemma_first_track(lower, at);
    let none = Seq::<char>::empty();
    assert(lower.skip(at + 5) =~= gap + none);
    lemma_skip_gap(gap, none);
    assert(leading_digits(none) =~= none);
}

proof fn lemma_first_track(lower: Seq<char>, at: int)
    requires
        0 <= at,
        at + 5 <= lower.len(),
        lower.subrange(at, at + 5) == seq!['t', 'r', 'a', 'c', 'k'],
        no_track_before(lower, at),
        no_numbered_word_before(lower, lower.len() as int),
    ensures
        track_number(lower) == digits_number(leading_digits(from_first_digit(lower.skip(at + 5)))),
{
    lemma_track();
    let p = is_track_word(lower);
    let positions = Seq::new(lower.len(), |i: int| i);
    assert forall|j: int| 0 <= j < at implies !#[trigger] occurs_at(lower, "track"@, j) by {
        if occurs_at(lower, "track"@, j) {
            assert(lower.subrange(j, j + 5) == seq!['t', 'r', 'a', 'c', 'k']);
        }
    }
    lemma_find_from(lower, "track"@, 0, at);
    lemma_first_where(positions, p);
    if let Some(i) = first_track_word(lower) {
        assert(p(positions[i]));
        lemma_numbered_word(lower, i);
    }
}

proof fn lemma_trim_blank(g: Seq<char>, s: Seq<char>)
    requires
        all_blank(g),
        s.len() > 0 ==> !blank(s[0]),
    ensures
        trim_start(g + s) == s,
    decreases g.len(),
{
    if g.len() == 0 {
        assert(g + s =~= s);
        if s.len() > 0 {
            law_white_space(s[0]);
        }
    } else {
        assert(blank(g[0]));
        law_white_space(g[0]);
        assert((g + s).drop_first() =~= g.drop_first() + s);
        assert(all_blank(g.drop_first())) by {
            assert forall|i: int| 0 <= i < g.len() - 1 implies blank(#[trigger] g.drop_first()[i]) by {
                assert(blank(g[i + 1]));
            }
        }
        lemma_trim_blank(g.drop_first(), s);
    }
}

/// A name without "track", or without a digit behind it, has no number.
pub proof fn law_name_without_number(lower: Seq<char>, a: Seq<char>, gap: Seq<char>)
    requires
        forall|j: int|
            0 <= j <= lower.len() - 5 ==> #[trigger] lower.subrange(j, j + 5) != seq![
                't',
                'r',
                'a',
                'c',
                'k',
            ],
        no_digit(gap),
        ({
            let name = a + seq!['t', 'r', 'a', 'c', 'k'] + gap;
            forall|j: int|
                0 <= j <= name.len() - 5 && #[trigger] name.subrange(j, j + 5) == seq![
                    't',
                    'r',
                    'a',
                    'c',
                    'k',
                ] ==> j == a.len()
        }),
    ensures
        track_number(lower) is None,
        track_number(a + seq!['t', 'r', 'a', 'c', 'k'] + gap) is None,
{
    lemma_track();
    assert forall|j: int| !#[trigger] occurs_at(lower, "track"@, j) by {
        if occurs_at(lower, "track"@, j) {
            assert(lower.subrange(j, j + 5) == seq!['t', 'r', 'a', 'c', 'k']);
        }
    }
    law_no_track_no_number(lower);
    let name = a + seq!['t', 'r', 'a', 'c', 'k'] + gap;
    let at = a.len() as int;
    assert(name.subrange(at, at + 5) =~= "track"@);
    assert forall|j: int| j != at implies !#[trigger] occurs_at(name, "track"@, j) by {
        if occurs_at(name, "track"@, j) {
            assert(name.subrange(j, j + 5) == seq!['t', 'r', 'a', 'c', 'k']);
        }
    }
    law_number_behind_track(name, at);
    let none = Seq::<char>::empty();
    assert(name.skip(at + 5) =~= gap + none);
    lemma_skip_gap(gap, none);
    assert(leading_digits(none) =~= none);
}

// ---- Files on disk -----------------------------------------------------------------------------
/// The texts of strings are those of each, in order.
pub proof fn law_texts(strings: Seq<String>, i: int)
    requires
        0 <= i < strings.len(),
    ensures
        texts(strings).len() == strings.len(),
        texts(strings)[i] == strings[i]@,
{
}

proof fn lemma_bin(stem: Seq<char>, ext: Seq<char>)
    requires
        stem.len() > 0,
        same_letters(ext, seq!['b', 'i', 'n']),
    ensures
        has_extension(stem + seq!['.'] + ext, "bin"@),
{
    reveal_strlit("bin");
    assert("bin"@ =~= seq!['b', 'i', 'n']);
    assert(lacks(ext, '.')) by {
        assert forall|i: int| 0 <= i < ext.len() implies #[trigger] ext[i] != '.' by {
            assert(same_letter(ext[i], seq!['b', 'i', 'n'][i]));
        }
    }
    law_has_extension(stem, ext, "bin"@);
}

/// A file is found by its name: the first `.bin` file whose name reads the same in folded ASCII.
pub proof fn law_disk_file_by_name(
    name: Seq<char>,
    files: Seq<Seq<char>>,
    i: int,
    stem: Seq<char>,
    ext: Seq<char>,
)
    requires
        0 <= i < files.len(),
        files[i] == stem + seq!['.'] + ext,
        stem.len() > 0,
        same_letters(ext, seq!['b', 'i', 'n']),
        folded(files[i]) == folded(name),
        forall|j: int| 0 <= j < i ==> folded(#[trigger] files[j]) != folded(name),
    ensures
        disk_bin(name, files) == Some(i),
{
    lemma_bin(stem, ext);
    lemma_first_where_is(files, bin_named(name), i);
}

/// Where no file has the name, the first `.bin` file with the same track number is found.
pub proof fn law_disk_file_by_number(
    name: Seq<char>,
    files: Seq<Seq<char>>,
    i: int,
    stem: Seq<char>,
    ext: Seq<char>,
    n: u32,
)
    requires
        0 <= i < files.len(),
        files[i] == stem + seq!['.'] + ext,
        stem.len() > 0,
        same_letters(ext, seq!['b', 'i', 'n']),
        forall|j: int| 0 <= j < files.len() ==> folded(#[trigger] files[j]) != folded(name),
        track_number(lowercase(name)) == Some(n),
        track_number(lowercase(files[i])) == Some(n),
        forall|j: int| 0 <= j < i ==> track_number(lowercase(#[trigger] files[j])) != Some(n),
    ensures
        disk_bin(name, files) == Some(i),
{
    lemma_bin(stem, ext);
    lemma_first_where_is(files, bin_named(name), files.len() as int);
    lemma_first_where_is(files, bin_numbered(n), i);
}

/// What is found is a `.bin` file of the folder, with the name in folded ASCII or with the same
/// track number. Where there is no such file, none is found.
pub proof fn law_disk_file_found(name: Seq<char>, files: Seq<Seq<char>>)
    ensures
        match disk_bin(name, files) {
            Some(i) => {
                &&& 0 <= i < files.len()
                &&& has_extension(files[i], seq!['b', 'i', 'n'])
                &&& folded(files[i]) == folded(name) || (track_number(lowercase(name)) is Some
                    && track_number(lowercase(files[i])) == track_number(lowercase(name)))
            },
            None => forall|i: int|
                0 <= i < files.len() && has_extension(#[trigger] files[i], seq!['b', 'i', 'n']) ==> {
                    &&& folded(files[i]) != folded(name)
                    &&& track_number(lowercase(name)) is Some ==> track_number(lowercase(files[i]))
                        != track_number(lowercase(name))
                },
        },
{
    reveal_strlit("bin");
    assert("bin"@ =~= seq!['b', 'i', 'n']);
    lemma_first_where(files, bin_named(name));
    if let Some(n) = track_number(lowercase(name)) {
        lemma_first_where(files, bin_numbered(n));
        if disk_bin(name, files) is None {
            assert forall|i: int|
                0 <= i < files.len() && has_extension(#[trigger] files[i], seq!['b', 'i', 'n']) implies {
                &&& folded(files[i]) != folded(name)
                &&& track_number(lowercase(files[i])) != track_number(lowercase(name))
            } by {
                assert(!bin_named(name)(files[i]));
                assert(!bin_numbered(n)(files[i]));
            }
        }
    } else if disk_bin(name, files) is None {
        assert forall|i: int|
            0 <= i < files.len() && has_extension(#[trigger] files[i], seq!['b', 'i', 'n']) implies folded(
            files[i],
        ) != folded(name) by {
            assert(!bin_named(name)(files[i]));
        }
    }
}

/// A name that exists means itself; otherwise the file that is found, or else itself again.
pub proof fn law_disk_path(
    name: Seq<char>,
    path: PathBuf,
    files: Seq<Seq<char>>,
    paths: Seq<PathBuf>,
)
    ensures
        disk_path(name, path, true, files, paths) == path,
        disk_bin(name, files) is None ==> disk_path(name, path, false, files, paths) == path,
        disk_bin(name, files) matches Some(i) ==> disk_path(name, path, false, files, paths) == paths[i],
{
}

} // verus!
