//! Text as sequences of characters: white space, words, fields, numbers, letter case and file
//! name extensions.
use vstd::prelude::*;
use vstd::slice::slice_subrange;
use vstd::utf8::is_ascii_chars;

verus! {

// ---- Models ----------------------------------------------------------------------------------
/// The characters with the Unicode property `White_Space`.
pub open spec fn is_white_space(c: char) -> bool {
    ||| '\t' <= c && c <= '\r'
    ||| c == ' ' || c == '\u{85}' || c == '\u{a0}' || c == '\u{1680}'
    ||| '\u{2000}' <= c && c <= '\u{200a}'
    ||| c == '\u{2028}' || c == '\u{2029}' || c == '\u{202f}' || c == '\u{205f}' || c == '\u{3000}'
}

/// `s` without the white space at its start.
pub open spec fn trim_start(s: Seq<char>) -> Seq<char>
    decreases s.len(),
{
    if s.len() > 0 && is_white_space(s[0]) {
        trim_start(s.drop_first())
    } else {
        s
    }
}

/// `s` without the white space at its end.
pub open spec fn trim_end(s: Seq<char>) -> Seq<char>
    decreases s.len(),
{
    if s.len() > 0 && is_white_space(s.last()) {
        trim_end(s.drop_last())
    } else {
        s
    }
}

/// `s` without the white space at either end.
pub open spec fn trim(s: Seq<char>) -> Seq<char> {
    trim_end(trim_start(s))
}

/// How many characters `s` starts with before the first white space.
pub open spec fn word_len(s: Seq<char>) -> nat
    decreases s.len(),
{
    if s.len() == 0 || is_white_space(s[0]) {
        0
    } else {
        1 + word_len(s.drop_first())
    }
}

/// The words of `s`: its longest stretches without white space, in order.
pub open spec fn words(s: Seq<char>) -> Seq<Seq<char>>
    decreases s.len(),
{
    if s.len() == 0 {
        Seq::empty()
    } else if is_white_space(s[0]) {
        words(s.drop_first())
    } else {
        proof {
            lemma_word_len(s);
        }
        seq![s.take(word_len(s) as int)] + words(s.skip(word_len(s) as int))
    }
}

/// How many characters `s` starts with before the first `separator`.
pub open spec fn field_len(s: Seq<char>, separator: char) -> nat
    decreases s.len(),
{
    if s.len() == 0 || s[0] == separator {
        0
    } else {
        1 + field_len(s.drop_first(), separator)
    }
}

/// The parts of `s` between one `separator` and the next; `s` itself where there is none.
pub open spec fn fields(s: Seq<char>, separator: char) -> Seq<Seq<char>>
    decreases s.len(),
{
    let n = field_len(s, separator);
    if n >= s.len() {
        seq![s]
    } else {
        seq![s.take(n as int)] + fields(s.skip(n as int + 1), separator)
    }
}

/// The lines of `s`. Every line but the last ends at a line feed, which is no part of it.
pub open spec fn lines(s: Seq<char>) -> Seq<Seq<char>>
    decreases s.len(),
{
    if s.len() == 0 {
        Seq::empty()
    } else {
        let n = field_len(s, '\n');
        if n >= s.len() {
            seq![s]
        } else {
            seq![s.take(n as int)] + lines(s.skip(n as int + 1))
        }
    }
}

/// The text between the first two double quotes of `s`.
pub open spec fn quoted(s: Seq<char>) -> Option<Seq<char>> {
    let opening = field_len(s, '"');
    if opening >= s.len() {
        None
    } else {
        let inner = s.skip(opening as int + 1);
        let closing = field_len(inner, '"');
        if closing >= inner.len() {
            None
        } else {
            Some(inner.take(closing as int))
        }
    }
}

/// Whether `part` stands in `s` from position `i` on.
pub open spec fn occurs_at(s: Seq<char>, part: Seq<char>, i: int) -> bool {
    0 <= i && i + part.len() <= s.len() && s.subrange(i, i + part.len()) == part
}

/// Whether `part` stands anywhere in `s`.
pub open spec fn contains_text(s: Seq<char>, part: Seq<char>) -> bool {
    exists|i: int| occurs_at(s, part, i)
}

/// Whether `s` ends in `part`.
pub open spec fn ends_with(s: Seq<char>, part: Seq<char>) -> bool {
    occurs_at(s, part, s.len() - part.len())
}

/// The first position, from `i` on, at which `part` stands in `s`.
pub open spec fn find_from(s: Seq<char>, part: Seq<char>, i: int) -> Option<int>
    decreases s.len() + 1 - i,
{
    if i + part.len() > s.len() {
        None
    } else if occurs_at(s, part, i) {
        Some(i)
    } else {
        find_from(s, part, i + 1)
    }
}

pub open spec fn is_digit(c: char) -> bool {
    '0' <= c && c <= '9'
}

pub open spec fn all_digits(s: Seq<char>) -> bool {
    forall|i: int| 0 <= i < s.len() ==> is_digit(#[trigger] s[i])
}

/// The number that the decimal digits `s` write.
pub open spec fn decimal(s: Seq<char>) -> nat
    decreases s.len(),
{
    if s.len() == 0 {
        0
    } else {
        (decimal(s.drop_last()) * 10 + (s.last() as nat - '0' as nat)) as nat
    }
}

/// The number that `s` writes, where `s` is one or more decimal digits behind an optional plus
/// sign and the number is at most `max`.
pub open spec fn number(s: Seq<char>, max: nat) -> Option<nat> {
    let digits = if s.len() > 0 && s[0] == '+' {
        s.drop_first()
    } else {
        s
    };
    if digits.len() > 0 && all_digits(digits) && decimal(digits) <= max {
        Some(decimal(digits))
    } else {
        None
    }
}

/// `s` from its first digit on.
pub open spec fn from_first_digit(s: Seq<char>) -> Seq<char>
    decreases s.len(),
{
    if s.len() > 0 && !is_digit(s[0]) {
        from_first_digit(s.drop_first())
    } else {
        s
    }
}

/// How many digits `s` starts with.
pub open spec fn digits_len(s: Seq<char>) -> nat
    decreases s.len(),
{
    if s.len() == 0 || !is_digit(s[0]) {
        0
    } else {
        1 + digits_len(s.drop_first())
    }
}

pub open spec fn is_ascii_char(c: char) -> bool {
    c <= '\u{7f}'
}

/// `c` with an ASCII capital letter made small.
pub open spec fn ascii_lower(c: char) -> char {
    if 'A' <= c && c <= 'Z' {
        (c as u8 + 32) as char
    } else {
        c
    }
}

/// `c` with an ASCII small letter made capital.
pub open spec fn ascii_upper(c: char) -> char {
    if 'a' <= c && c <= 'z' {
        (c as u8 - 32) as char
    } else {
        c
    }
}

pub open spec fn ascii_lowercase(s: Seq<char>) -> Seq<char> {
    s.map_values(|c: char| ascii_lower(c))
}

pub open spec fn ascii_uppercase(s: Seq<char>) -> Seq<char> {
    s.map_values(|c: char| ascii_upper(c))
}

/// Where the last dot of `s` stands.
pub open spec fn last_dot(s: Seq<char>) -> Option<int>
    decreases s.len(),
{
    if s.len() == 0 {
        None
    } else if s.last() == '.' {
        Some(s.len() - 1)
    } else {
        last_dot(s.drop_last())
    }
}

/// Where the extension of a file name is cut off: at its last dot, unless the name starts with
/// that dot or is the name of the parent folder.
pub open spec fn extension_dot(name: Seq<char>) -> Option<int> {
    match last_dot(name) {
        Some(dot) => if dot == 0 || name == seq!['.', '.'] {
            None
        } else {
            Some(dot)
        },
        None => None,
    }
}

/// The extension of a file name: what follows its last dot.
pub open spec fn extension(name: Seq<char>) -> Option<Seq<char>> {
    match extension_dot(name) {
        Some(dot) => Some(name.skip(dot + 1)),
        None => None,
    }
}

/// A file name without its extension and the dot before it.
pub open spec fn file_stem(name: Seq<char>) -> Seq<char> {
    match extension_dot(name) {
        Some(dot) => name.take(dot),
        None => name,
    }
}

/// Whether a file name has the extension `wanted`, whatever the case of its ASCII letters.
pub open spec fn has_extension(name: Seq<char>, wanted: Seq<char>) -> bool {
    extension(name) matches Some(found) && ascii_lowercase(found) == wanted
}

/// `s` in capital letters, as `str::to_uppercase` writes it.
pub uninterp spec fn uppercase(s: Seq<char>) -> Seq<char>;

/// `s` in small letters, as `str::to_lowercase` writes it.
pub uninterp spec fn lowercase(s: Seq<char>) -> Seq<char>;

// ---- Calls into the standard library -----------------------------------------------------------
/// `String::push` appends one character.
pub assume_specification[ String::push ](s: &mut String, ch: char)
    ensures
        final(s)@ == old(s)@.push(ch),
;

/// `str::to_uppercase`: the Unicode upper case of the text, which depends on the text alone. On
/// ASCII text it changes the letters `a` to `z` and nothing else; as each character is taken by
/// itself, the same holds of the ASCII characters that any text starts with.
#[verifier::external_body]
pub(crate) fn to_uppercase(s: &str) -> (upper: String)
    ensures
        upper@ == uppercase(s@),
        is_ascii_chars(s@) ==> upper@ == ascii_uppercase(s@),
        forall|n: int|
            0 <= n <= s@.len() && is_ascii_chars(#[trigger] s@.take(n)) ==> n <= upper@.len()
                && upper@.take(n) == ascii_uppercase(s@.take(n)),
{
    s.to_uppercase()
}

/// `str::to_lowercase`: the Unicode lower case of the text, which depends on the text alone. On
/// ASCII text it changes the letters `A` to `Z` and nothing else.
#[verifier::external_body]
pub(crate) fn to_lowercase(s: &str) -> (lower: String)
    ensures
        lower@ == lowercase(s@),
        is_ascii_chars(s@) ==> lower@ == ascii_lowercase(s@),
{
    s.to_lowercase()
}

// ---- Facts about the models --------------------------------------------------------------------
/// A word is no longer than the text it starts, and not empty where no white space comes first.
pub proof fn lemma_word_len(s: Seq<char>)
    ensures
        word_len(s) <= s.len(),
        s.len() > 0 && !is_white_space(s[0]) ==> word_len(s) > 0,
    decreases s.len(),
{
    if s.len() > 0 && !is_white_space(s[0]) {
        lemma_word_len(s.drop_first());
    }
}

pub(crate) proof fn lemma_field_len(s: Seq<char>, separator: char)
    ensures
        field_len(s, separator) <= s.len(),
        field_len(s, separator) < s.len() ==> s[field_len(s, separator) as int] == separator,
        forall|j: int| 0 <= j < field_len(s, separator) ==> s[j] != separator,
    decreases s.len(),
{
    if s.len() > 0 && s[0] != separator {
        let rest = s.drop_first();
        lemma_field_len(rest, separator);
        assert forall|j: int| 0 <= j < field_len(s, separator) implies s[j] != separator by {
            if j > 0 {
                assert(s[j] == rest[j - 1]);
            }
        }
    }
}

/// The first `n` characters hold no separator, and the end or a separator follows.
pub(crate) proof fn lemma_field_len_is(s: Seq<char>, separator: char, n: int)
    requires
        0 <= n <= s.len(),
        forall|j: int| 0 <= j < n ==> s[j] != separator,
        n < s.len() ==> s[n] == separator,
    ensures
        field_len(s, separator) == n,
{
    lemma_field_len(s, separator);
    let m = field_len(s, separator) as int;
    if m < n {
        assert(s[m] != separator);
    } else if n < m {
        assert(s[n] != separator);
    }
}

/// The first `n` characters are no white space, and the end or white space follows.
pub(crate) proof fn lemma_word_len_is(s: Seq<char>, n: int)
    requires
        0 <= n <= s.len(),
        forall|j: int| 0 <= j < n ==> !is_white_space(s[j]),
        n < s.len() ==> is_white_space(s[n]),
    ensures
        word_len(s) == n,
    decreases s.len(),
{
    if n > 0 {
        let rest = s.drop_first();
        assert forall|j: int| 0 <= j < n - 1 implies !is_white_space(rest[j]) by {
            assert(rest[j] == s[j + 1]);
        }
        lemma_word_len_is(rest, n - 1);
    }
}

pub(crate) proof fn lemma_digits_len_is(s: Seq<char>, n: int)
    requires
        0 <= n <= s.len(),
        forall|j: int| 0 <= j < n ==> is_digit(s[j]),
        n < s.len() ==> !is_digit(s[n]),
    ensures
        digits_len(s) == n,
    decreases s.len(),
{
    if n > 0 {
        let rest = s.drop_first();
        assert forall|j: int| 0 <= j < n - 1 implies is_digit(rest[j]) by {
            assert(rest[j] == s[j + 1]);
        }
        lemma_digits_len_is(rest, n - 1);
    }
}

/// More digits never write a smaller number.
proof fn lemma_decimal_grows(s: Seq<char>, n: int)
    requires
        0 <= n <= s.len(),
        all_digits(s),
    ensures
        decimal(s.take(n)) <= decimal(s),
    decreases s.len(),
{
    if n < s.len() {
        assert(is_digit(s[s.len() - 1]));
        assert(all_digits(s.drop_last())) by {
            assert forall|i: int| 0 <= i < s.len() - 1 implies is_digit(#[trigger] s.drop_last()[i]) by {
                assert(is_digit(s[i]));
            }
        }
        lemma_decimal_grows(s.drop_last(), n);
        assert(s.drop_last().take(n) =~= s.take(n));
    } else {
        assert(s.take(n) =~= s);
    }
}

/// What is left of ASCII text without the white space around it is ASCII text.
pub(crate) proof fn lemma_trim_ascii(s: Seq<char>)
    requires
        is_ascii_chars(s),
    ensures
        is_ascii_chars(trim(s)),
{
    lemma_trim_start_ascii(s);
    lemma_trim_end_ascii(trim_start(s));
}

proof fn lemma_trim_start_ascii(s: Seq<char>)
    requires
        is_ascii_chars(s),
    ensures
        is_ascii_chars(trim_start(s)),
    decreases s.len(),
{
    if s.len() > 0 && is_white_space(s[0]) {
        lemma_trim_start_ascii(s.drop_first());
    }
}

proof fn lemma_trim_end_ascii(s: Seq<char>)
    requires
        is_ascii_chars(s),
    ensures
        is_ascii_chars(trim_end(s)),
    decreases s.len(),
{
    if s.len() > 0 && is_white_space(s.last()) {
        lemma_trim_end_ascii(s.drop_last());
    }
}

// ---- Executable text functions -----------------------------------------------------------------
/// The characters of `s`, in order.
pub fn chars_of(s: &str) -> (chars: Vec<char>)
    ensures
        chars@ == s@,
{
    let mut chars: Vec<char> = Vec::new();
    for c in it: s.chars()
        invariant
            it.seq() == s@,
            chars@ == s@.take(it.index() as int),
    {
        chars.push(c);
        assert(s@.take(it.index() as int).push(c) =~= s@.take(it.index() + 1));
    }
    chars
}

/// The string made of `chars`.
pub fn string_of(chars: &[char]) -> (s: String)
    ensures
        s@ == chars@,
{
    let mut s = String::new();
    let mut i: usize = 0;
    while i < chars.len()
        invariant
            i <= chars@.len(),
            s@ == chars@.take(i as int),
        decreases chars@.len() - i,
    {
        s.push(chars[i]);
        assert(chars@.take(i as int).push(chars@[i as int]) =~= chars@.take(i + 1));
        i = i + 1;
    }
    assert(chars@.take(i as int) =~= chars@);
    s
}

/// Whether two runs of characters are the same.
pub fn same_chars(a: &[char], b: &[char]) -> (same: bool)
    ensures
        same == (a@ == b@),
{
    if a.len() != b.len() {
        return false;
    }
    let mut i: usize = 0;
    while i < a.len()
        invariant
            i <= a@.len(),
            a@.len() == b@.len(),
            forall|j: int| 0 <= j < i ==> a@[j] == b@[j],
        decreases a@.len() - i,
    {
        if a[i] != b[i] {
            return false;
        }
        i = i + 1;
    }
    assert(a@ =~= b@);
    true
}

pub fn white_space(c: char) -> (yes: bool)
    ensures
        yes == is_white_space(c),
{
    ('\t' <= c && c <= '\r') || c == ' ' || c == '\u{85}' || c == '\u{a0}' || c == '\u{1680}' || (
    '\u{2000}' <= c && c <= '\u{200a}') || c == '\u{2028}' || c == '\u{2029}' || c == '\u{202f}' || c
        == '\u{205f}' || c == '\u{3000}'
}

/// `s` without the white space at either end.
pub fn trimmed<'a>(s: &'a [char]) -> (t: &'a [char])
    ensures
        t@ == trim(s@),
{
    let mut from: usize = 0;
    assert(s@.skip(0) =~= s@);
    while from < s.len() && white_space(s[from])
        invariant
            from <= s@.len(),
            trim_start(s@.skip(from as int)) == trim_start(s@),
        decreases s@.len() - from,
    {
        assert(s@.skip(from as int).drop_first() =~= s@.skip(from + 1));
        from = from + 1;
    }
    let mut to: usize = s.len();
    assert(s@.skip(from as int) =~= s@.subrange(from as int, to as int));
    while from < to && white_space(s[to - 1])
        invariant
            from <= to <= s@.len(),
            trim_end(s@.subrange(from as int, to as int)) == trim(s@),
        decreases to,
    {
        assert(s@.subrange(from as int, to as int).drop_last() =~= s@.subrange(
            from as int,
            to - 1,
        ));
        to = to - 1;
    }
    slice_subrange(s, from, to)
}

/// The first word of `s` and what follows it.
pub fn next_word<'a>(s: &'a [char]) -> (found: Option<(&'a [char], &'a [char])>)
    ensures
        match found {
            Some((word, rest)) => words(s@) == seq![word@] + words(rest@),
            None => words(s@).len() == 0,
        },
{
    let mut from: usize = 0;
    assert(s@.skip(0) =~= s@);
    while from < s.len() && white_space(s[from])
        invariant
            from <= s@.len(),
            words(s@.skip(from as int)) == words(s@),
        decreases s@.len() - from,
    {
        assert(s@.skip(from as int).drop_first() =~= s@.skip(from + 1));
        from = from + 1;
    }
    if from == s.len() {
        return None;
    }
    let mut to: usize = from;
    while to < s.len() && !white_space(s[to])
        invariant
            from <= to <= s@.len(),
            forall|j: int| from <= j < to ==> !is_white_space(s@[j]),
        decreases s@.len() - to,
    {
        to = to + 1;
    }
    proof {
        let tail = s@.skip(from as int);
        lemma_word_len_is(tail, to - from);
        assert(tail.take(to - from) =~= s@.subrange(from as int, to as int));
        assert(tail.skip(to - from) =~= s@.subrange(to as int, s@.len() as int));
    }
    Some((slice_subrange(s, from, to), slice_subrange(s, to, s.len())))
}

/// The first field of `s`, and what follows the separator after it where there is one.
pub fn next_field<'a>(s: &'a [char], separator: char) -> (split: (&'a [char], Option<&'a [char]>))
    ensures
        match split.1 {
            Some(rest) => {
                &&& field_len(s@, separator) < s@.len()
                &&& split.0@ == s@.take(field_len(s@, separator) as int)
                &&& rest@ == s@.skip(field_len(s@, separator) as int + 1)
                &&& fields(s@, separator) == seq![split.0@] + fields(rest@, separator)
            },
            None => {
                &&& field_len(s@, separator) == s@.len()
                &&& split.0@ == s@
                &&& fields(s@, separator) == seq![split.0@]
            },
        },
{
    let mut n: usize = 0;
    while n < s.len() && s[n] != separator
        invariant
            n <= s@.len(),
            forall|j: int| 0 <= j < n ==> s@[j] != separator,
        decreases s@.len() - n,
    {
        n = n + 1;
    }
    proof {
        lemma_field_len_is(s@, separator, n as int);
        assert(s@.take(n as int) =~= s@.subrange(0, n as int));
    }
    if n == s.len() {
        (s, None)
    } else {
        proof {
            assert(s@.skip(n + 1) =~= s@.subrange(n + 1, s@.len() as int));
        }
        (slice_subrange(s, 0, n), Some(slice_subrange(s, n + 1, s.len())))
    }
}

/// Whether `part` stands in `s` from position `at` on.
pub fn stands_at(s: &[char], part: &[char], at: usize) -> (yes: bool)
    ensures
        yes == occurs_at(s@, part@, at as int),
{
    if at > s.len() || part.len() > s.len() - at {
        return false;
    }
    let found = same_chars(slice_subrange(s, at, at + part.len()), part);
    found
}

/// The first position at which `part` stands in `s`.
pub fn position_of(s: &[char], part: &[char]) -> (at: Option<usize>)
    ensures
        match at {
            Some(i) => find_from(s@, part@, 0) == Some(i as int),
            None => find_from(s@, part@, 0) is None,
        },
        at is Some <==> contains_text(s@, part@),
        at matches Some(i) ==> occurs_at(s@, part@, i as int),
{
    let mut i: usize = 0;
    while i <= s.len() && part.len() <= s.len() - i
        invariant
            i <= s@.len() + 1,
            find_from(s@, part@, 0) == find_from(s@, part@, i as int),
            forall|j: int| 0 <= j < i ==> !occurs_at(s@, part@, j),
            s@.len() == s.len(),
        decreases s@.len() + 1 - i,
    {
        if stands_at(s, part, i) {
            return Some(i);
        }
        if i == s.len() {
            assert(find_from(s@, part@, i + 1) is None);
            return None;
        }
        i = i + 1;
    }
    None
}

/// The number that `s` writes, where it fits in a `u64`.
pub fn number_u64(s: &[char]) -> (n: Option<u64>)
    ensures
        match n {
            Some(v) => number(s@, u64::MAX as nat) == Some(v as nat),
            None => number(s@, u64::MAX as nat) is None,
        },
{
    let from: usize = if s.len() > 0 && s[0] == '+' {
        1
    } else {
        0
    };
    let digits = slice_subrange(s, from, s.len());
    proof {
        if from == 1 {
            assert(s@.drop_first() =~= digits@);
        } else {
            assert(s@ =~= digits@);
        }
    }
    if digits.len() == 0 {
        return None;
    }
    let mut value: u64 = 0;
    let mut i: usize = 0;
    while i < digits.len()
        invariant
            i <= digits@.len(),
            forall|j: int| 0 <= j < i ==> is_digit(#[trigger] digits@[j]),
            value == decimal(digits@.take(i as int)),
            digits@.len() > 0,
            number(s@, u64::MAX as nat) == (if digits@.len() > 0 && all_digits(digits@) && decimal(
                digits@,
            ) <= u64::MAX {
                Some(decimal(digits@))
            } else {
                None
            }),
        decreases digits@.len() - i,
    {
        let c = digits[i];
        if !('0' <= c && c <= '9') {
            assert(!is_digit(digits@[i as int]));
            return None;
        }
        let digit: u64 = c as u64 - '0' as u64;
        proof {
            assert(digits@.take(i + 1).drop_last() =~= digits@.take(i as int));
            assert(decimal(digits@.take(i + 1)) == value * 10 + digit);
            if all_digits(digits@) {
                lemma_decimal_grows(digits@, i + 1);
            }
        }
        if value > (u64::MAX - digit) / 10 {
            return None;
        }
        value = value * 10 + digit;
        i = i + 1;
    }
    proof {
        assert(digits@.take(i as int) =~= digits@);
        assert(all_digits(digits@));
    }
    Some(value)
}

/// The number that `s` writes, where it fits in a `u32`.
pub fn number_u32(s: &[char]) -> (n: Option<u32>)
    ensures
        match n {
            Some(v) => number(s@, u32::MAX as nat) == Some(v as nat),
            None => number(s@, u32::MAX as nat) is None,
        },
{
    match number_u64(s) {
        Some(v) => if v <= u32::MAX as u64 {
            Some(v as u32)
        } else {
            None
        },
        None => None,
    }
}

/// `c` with an ASCII capital letter made small.
pub fn lower_char(c: char) -> (l: char)
    ensures
        l == ascii_lower(c),
{
    if 'A' <= c && c <= 'Z' {
        (c as u8 + 32) as char
    } else {
        c
    }
}

/// `s` with its ASCII capital letters made small.
pub fn lower_chars(s: &[char]) -> (l: Vec<char>)
    ensures
        l@ == ascii_lowercase(s@),
{
    let mut l: Vec<char> = Vec::new();
    let mut i: usize = 0;
    while i < s.len()
        invariant
            i <= s@.len(),
            l@ == ascii_lowercase(s@.take(i as int)),
        decreases s@.len() - i,
    {
        l.push(lower_char(s[i]));
        assert(ascii_lowercase(s@.take(i + 1)) =~= ascii_lowercase(s@.take(i as int)).push(
            ascii_lower(s@[i as int]),
        ));
        i = i + 1;
    }
    assert(s@.take(i as int) =~= s@);
    l
}

/// Where the extension of a file name is cut off.
pub fn find_extension(name: &[char]) -> (dot: Option<usize>)
    ensures
        match dot {
            Some(d) => extension_dot(name@) == Some(d as int) && d < name@.len(),
            None => extension_dot(name@) is None,
        },
{
    let mut n: usize = name.len();
    assert(name@.take(n as int) =~= name@);
    while n > 0 && name[n - 1] != '.'
        invariant
            n <= name@.len(),
            last_dot(name@.take(n as int)) == last_dot(name@),
        decreases n,
    {
        assert(name@.take(n as int).drop_last() =~= name@.take(n - 1));
        n = n - 1;
    }
    if n <= 1 {
        return None;
    }
    if name.len() == 2 && name[0] == '.' && name[1] == '.' {
        assert(name@ =~= seq!['.', '.']);
        return None;
    }
    assert(name@ != seq!['.', '.']) by {
        if name@ == seq!['.', '.'] {
            assert(name@[0] == '.' && name@[1] == '.');
        }
    }
    Some(n - 1)
}

} // verus!
