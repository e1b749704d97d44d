//! File names of a disc image: comparing them in ASCII, reading track numbers from them, and
//! finding the file that a cue sheet means.
use vstd::prelude::*;
use vstd::slice::slice_subrange;
use vstd::utf8::is_ascii_chars;
use crate::text::{
    ascii_lower, ascii_lowercase, chars_of, digits_len, find_extension, find_from, from_first_digit,
    has_extension, is_ascii_char, is_digit, lemma_digits_len_is, lower_char, lower_chars, lowercase,
    number, number_u32, occurs_at, position_of, same_chars, stands_at, to_lowercase, trim_start,
    white_space,
};
use std::path::PathBuf;

verus! {

/// The ASCII characters of `s`, with capital letters made small.
pub open spec fn folded(s: Seq<char>) -> Seq<char> {
    s.filter(|c: char| is_ascii_char(c)).map_values(|c: char| ascii_lower(c))
}

/// The digits that `s` starts with.
pub open spec fn leading_digits(s: Seq<char>) -> Seq<char> {
    s.take(digits_len(s) as int)
}

/// Whether the word "track" stands at position `at` of `lower`, behind no letter, and its number
/// follows it, with nothing or white space between: the form "track N", in parentheses or not.
pub open spec fn is_track_word(lower: Seq<char>) -> spec_fn(int) -> bool {
    |at: int|
        {
            &&& occurs_at(lower, "track"@, at)
            &&& at > 0 ==> !('a' <= lower[at - 1] && lower[at - 1] <= 'z')
            &&& digits_len(trim_start(lower.skip(at + "track"@.len()))) > 0
        }
}

/// The first position of `lower` with the word "track" and its number.
pub open spec fn first_track_word(lower: Seq<char>) -> Option<int> {
    first_where(Seq::new(lower.len(), |i: int| i), is_track_word(lower))
}

/// The digits of the track number in `lower`: those of the first "track N" or, where there is none,
/// the first digits behind the first "track", whatever stands between.
pub open spec fn track_digits(lower: Seq<char>) -> Option<Seq<char>> {
    match (first_track_word(lower), find_from(lower, "track"@, 0)) {
        (Some(at), _) => Some(leading_digits(trim_start(lower.skip(at + "track"@.len())))),
        (None, Some(at)) => Some(
            leading_digits(from_first_digit(lower.skip(at + "track"@.len()))),
        ),
        (None, None) => None,
    }
}

/// The number that a run of digits writes, where it fits in a `u32`.
pub open spec fn digits_number(digits: Seq<char>) -> Option<u32> {
    match number(digits, u32::MAX as nat) {
        Some(n) => Some(n as u32),
        None => None,
    }
}

/// The track number that a file name, given in small letters, holds.
pub open spec fn track_number(lower: Seq<char>) -> Option<u32> {
    match track_digits(lower) {
        Some(digits) => digits_number(digits),
        None => None,
    }
}

/// The position of the first element of `s` that meets `p`.
pub open spec fn first_where<A>(s: Seq<A>, p: spec_fn(A) -> bool) -> Option<int>
    decreases s.len(),
{
    if s.len() == 0 {
        None
    } else {
        match first_where(s.drop_last(), p) {
            Some(i) => Some(i),
            None => if p(s.last()) {
                Some(s.len() - 1)
            } else {
                None
            },
        }
    }
}

/// The texts of a sequence of strings.
pub open spec fn texts(strings: Seq<String>) -> Seq<Seq<char>> {
    strings.map_values(|s: String| s@)
}

/// A `.bin` file whose name reads the same as `name` in folded ASCII.
pub open spec fn bin_named(name: Seq<char>) -> spec_fn(Seq<char>) -> bool {
    |file: Seq<char>| has_extension(file, "bin"@) && folded(file) == folded(name)
}

/// A `.bin` file with the track number `n` in its name.
pub open spec fn bin_numbered(n: u32) -> spec_fn(Seq<char>) -> bool {
    |file: Seq<char>| has_extension(file, "bin"@) && track_number(lowercase(file)) == Some(n)
}

/// Which of `files` a cue sheet means by `name`: the first `.bin` file of that name in folded
/// ASCII or, where there is none, the first with the same track number.
pub open spec fn disk_bin(name: Seq<char>, files: Seq<Seq<char>>) -> Option<int> {
    match first_where(files, bin_named(name)) {
        Some(i) => Some(i),
        None => match track_number(lowercase(name)) {
            Some(n) => first_where(files, bin_numbered(n)),
            None => None,
        },
    }
}

/// The path that a cue sheet means by `name`: `path`, the name taken literally, where that exists
/// or nothing else matches; otherwise the path of the file that matches.
pub open spec fn disk_path(
    name: Seq<char>,
    path: PathBuf,
    exists: bool,
    files: Seq<Seq<char>>,
    paths: Seq<PathBuf>,
) -> PathBuf {
    match disk_bin(name, files) {
        Some(i) => if exists {
            path
        } else {
            paths[i]
        },
        None => path,
    }
}

/// The element that `first_where` finds meets `p`, and no earlier one does.
pub proof fn lemma_first_where<A>(s: Seq<A>, p: spec_fn(A) -> bool)
    ensures
        match first_where(s, p) {
            Some(i) => 0 <= i < s.len() && p(s[i]) && forall|j: int| 0 <= j < i ==> !p(#[trigger] s[j]),
            None => forall|j: int| 0 <= j < s.len() ==> !p(#[trigger] s[j]),
        },
    decreases s.len(),
{
    if s.len() > 0 {
        lemma_first_where(s.drop_last(), p);
        assert(forall|j: int| 0 <= j < s.len() - 1 ==> #[trigger] s.drop_last()[j] == s[j]);
        assert forall|j: int| 0 <= j < s.len() - 1 && !p(s.drop_last()[j]) implies !p(#[trigger] s[j]) by {
            assert(s.drop_last()[j] == s[j]);
        }
    }
}

/// `i` is the first position at which `p` holds.
pub(crate) proof fn lemma_first_where_is<A>(s: Seq<A>, p: spec_fn(A) -> bool, i: int)
    requires
        0 <= i <= s.len(),
        i < s.len() ==> p(s[i]),
        forall|j: int| 0 <= j < i ==> !p(#[trigger] s[j]),
    ensures
        first_where(s, p) == (if i < s.len() {
            Some(i)
        } else {
            None
        }),
{
    lemma_first_where(s, p);
    match first_where(s, p) {
        Some(k) => {
            if k < i {
                assert(!p(s[k]));
            } else if i < k {
                assert(!p(s[i]));
            }
        },
        None => {
            if i < s.len() {
                assert(!p(s[i]));
            }
        },
    }
}

/// Lowercase and keep only ASCII characters.
pub fn ascii_fold(s: &str) -> (key: String)
    ensures
        key@ == folded(s@),
{
    let ghost ascii = |c: char| is_ascii_char(c);
    let chars = chars_of(s);
    let mut key = String::new();
    let mut i: usize = 0;
    assert(folded(chars@.take(0)) =~= Seq::<char>::empty()) by {
        reveal(Seq::filter);
    }
    while i < chars.len()
        invariant
            i <= chars@.len(),
            ascii == (|c: char| is_ascii_char(c)),
            key@ == folded(chars@.take(i as int)),
        decreases chars@.len() - i,
    {
        let c = chars[i];
        if c <= '\u{7f}' {
            key.push(lower_char(c));
        }
        proof {
            reveal(Seq::filter);
            let before = chars@.take(i as int);
            let after = chars@.take(i + 1);
            assert(after.drop_last() =~= before);
            assert(after.last() == c);
            if is_ascii_char(c) {
                assert(after.filter(ascii) =~= before.filter(ascii).push(c));
                assert(folded(after) =~= folded(before).push(ascii_lower(c)));
            } else {
                assert(after.filter(ascii) =~= before.filter(ascii));
            }
        }
        i = i + 1;
    }
    assert(chars@.take(i as int) =~= chars@);
    key
}

/// The end of the digits that start at `from`.
fn digits_end(chars: &[char], from: usize) -> (to: usize)
    requires
        from <= chars@.len(),
    ensures
        from <= to <= chars@.len(),
        digits_len(chars@.skip(from as int)) == to - from,
        leading_digits(chars@.skip(from as int)) == chars@.subrange(from as int, to as int),
{
    let mut to: usize = from;
    while to < chars.len() && '0' <= chars[to] && chars[to] <= '9'
        invariant
            from <= to <= chars@.len(),
            forall|j: int| from <= j < to ==> is_digit(chars@[j]),
        decreases chars@.len() - to,
    {
        to = to + 1;
    }
    proof {
        let tail = chars@.skip(from as int);
        lemma_digits_len_is(tail, to - from);
        assert(tail.take(to - from) =~= chars@.subrange(from as int, to as int));
    }
    to
}

/// The digits of the number that follows the word "track" at position `at`, if the two stand there.
fn track_word<'a>(lower: &'a [char], at: usize) -> (digits: Option<&'a [char]>)
    requires
        at < lower@.len(),
    ensures
        match digits {
            Some(d) => is_track_word(lower@)(at as int) && d@ == leading_digits(
                trim_start(lower@.skip(at + "track"@.len())),
            ),
            None => !is_track_word(lower@)(at as int),
        },
{
    let word = chars_of("track");
    if !stands_at(lower, &word, at) {
        return None;
    }
    if at > 0 && 'a' <= lower[at - 1] && lower[at - 1] <= 'z' {
        return None;
    }
    assert(at + word.len() <= lower.len());
    let mut from: usize = at + word.len();
    let ghost tail = lower@.skip(from as int);
    while from < lower.len() && white_space(lower[from])
        invariant
            from <= lower@.len(),
            trim_start(lower@.skip(from as int)) == trim_start(tail),
        decreases lower@.len() - from,
    {
        assert(lower@.skip(from as int).drop_first() =~= lower@.skip(from + 1));
        from = from + 1;
    }
    assert(lower@.skip(from as int) == trim_start(tail));
    let to: usize = digits_end(lower, from);
    if from < to {
        Some(slice_subrange(lower, from, to))
    } else {
        None
    }
}

/// The digits of the first "track N", if there is one.
fn find_track_word<'a>(lower: &'a [char]) -> (digits: Option<&'a [char]>)
    ensures
        match (digits, first_track_word(lower@)) {
            (Some(d), Some(at)) => d@ == leading_digits(trim_start(lower@.skip(at + "track"@.len()))),
            (None, None) => true,
            _ => false,
        },
{
    let ghost positions = Seq::new(lower@.len(), |i: int| i);
    let mut at: usize = 0;
    while at < lower.len()
        invariant
            at <= lower@.len(),
            positions == Seq::new(lower@.len(), |i: int| i),
            forall|j: int| 0 <= j < at ==> !is_track_word(lower@)(#[trigger] positions[j]),
        decreases lower@.len() - at,
    {
        assert(positions[at as int] == at);
        if let Some(digits) = track_word(lower, at) {
            proof {
                lemma_first_where_is(positions, is_track_word(lower@), at as int);
            }
            return Some(digits);
        }
        at = at + 1;
    }
    proof {
        lemma_first_where_is(positions, is_track_word(lower@), at as int);
    }
    None
}

/// The track number that `lower`, a file name in small letters, holds.
pub fn track_num_in(lower: &str) -> (n: Option<u32>)
    ensures
        n == track_number(lower@),
{
    let chars = chars_of(lower);
    if let Some(digits) = find_track_word(&chars) {
        return number_u32(digits);
    }
    let track = chars_of("track");
    match position_of(&chars, &track) {
        Some(at) => {
            assert(at + track.len() <= chars.len());
            let mut from: usize = at + track.len();
            let ghost tail = chars@.skip(from as int);
            while from < chars.len() && !('0' <= chars[from] && chars[from] <= '9')
                invariant
                    from <= chars@.len(),
                    from_first_digit(chars@.skip(from as int)) == from_first_digit(tail),
                decreases chars@.len() - from,
            {
                assert(chars@.skip(from as int).drop_first() =~= chars@.skip(from + 1));
                from = from + 1;
            }
            assert(chars@.skip(from as int) == from_first_digit(tail));
            let to: usize = digits_end(&chars, from);
            number_u32(slice_subrange(&chars, from, to))
        },
        None => None,
    }
}

/// Extract the track number from a filename containing "(Track N)" or "Track N".
pub fn track_num_from_name(s: &str) -> (n: Option<u32>)
    ensures
        n == track_number(lowercase(s@)),
        is_ascii_chars(s@) ==> n == track_number(ascii_lowercase(s@)),
{
    let lower = to_lowercase(s);
    track_num_in(&lower)
}

/// Whether a file name has the extension `wanted`, whatever the case of its ASCII letters.
pub fn extension_is(name: &str, wanted: &str) -> (yes: bool)
    ensures
        yes == has_extension(name@, wanted@),
{
    let chars = chars_of(name);
    match find_extension(&chars) {
        Some(dot) => {
            assert(dot < chars.len());
            let found = slice_subrange(&chars, dot + 1, chars.len());
            assert(found@ =~= name@.skip(dot + 1));
            same_chars(&lower_chars(found), &chars_of(wanted))
        },
        None => false,
    }
}

/// Which of the files of a folder is meant by a FILE reference that names none of them literally.
pub fn find_fs_bin(name: &str, files: &Vec<String>) -> (found: Option<usize>)
    ensures
        match found {
            Some(i) => i < files@.len() && disk_bin(name@, texts(files@)) == Some(i as int),
            None => disk_bin(name@, texts(files@)) is None,
        },
{
    let ghost names = texts(files@);
    let key = ascii_fold(name);
    let mut i: usize = 0;
    while i < files.len()
        invariant
            i <= files@.len(),
            names == texts(files@),
            key@ == folded(name@),
            forall|j: int| 0 <= j < i ==> !bin_named(name@)(#[trigger] names[j]),
        decreases files@.len() - i,
    {
        assert(names[i as int] == files@[i as int]@);
        if extension_is(&files[i], "bin") && ascii_fold(&files[i]) == key {
            proof {
                lemma_first_where_is(names, bin_named(name@), i as int);
            }
            return Some(i);
        }
        i = i + 1;
    }
    proof {
        lemma_first_where_is(names, bin_named(name@), i as int);
    }
    match track_num_from_name(name) {
        Some(n) => {
            let mut i: usize = 0;
            while i < files.len()
                invariant
                    i <= files@.len(),
                    names == texts(files@),
                    disk_bin(name@, names) == first_where(names, bin_numbered(n)),
                    forall|j: int| 0 <= j < i ==> !bin_numbered(n)(#[trigger] names[j]),
                decreases files@.len() - i,
            {
                assert(names[i as int] == files@[i as int]@);
                if extension_is(&files[i], "bin") {
                    if let Some(m) = track_num_from_name(&files[i]) {
                        if m == n {
                            proof {
                                lemma_first_where_is(names, bin_numbered(n), i as int);
                            }
                            return Some(i);
                        }
                    }
                }
                i = i + 1;
            }
            proof {
                lemma_first_where_is(names, bin_numbered(n), i as int);
            }
            None
        },
        None => None,
    }
}

/// Resolve a FILE reference to an on-disk path, applying fuzzy matching for
/// Unicode encoding/normalization mismatches.
///
/// `path` is the reference taken literally, and `exists` says whether it exists. `files` and
/// `paths` are the names and the paths of what the folder of the sheet holds.
pub fn resolve_fs_bin(
    name: &str,
    path: PathBuf,
    exists: bool,
    files: &Vec<String>,
    paths: &Vec<PathBuf>,
) -> (resolved: PathBuf)
    requires
        files@.len() == paths@.len(),
    ensures
        resolved == disk_path(name@, path, exists, texts(files@), paths@),
{
    if exists {
        return path;
    }
    match find_fs_bin(name, files) {
        Some(i) => paths[i].clone(),
        None => path,
    }
}

} // verus!
