//! What the text functions are for, said of the characters themselves.
use vstd::prelude::*;
use vstd::arithmetic::power::{lemma_pow0, pow};
use crate::text::{
    all_digits, ascii_lower, ascii_lowercase, ascii_upper, ascii_uppercase, contains_text, decimal,
    ends_with, extension, fields, file_stem, find_from, has_extension, is_digit, is_white_space,
    last_dot, lemma_field_len_is, lemma_word_len_is, lines, number, occurs_at, quoted, trim,
    trim_end, trim_start, words,
};

verus! {

// ---- White space -------------------------------------------------------------------------------
/// The white space of Unicode, by code points.
pub open spec fn blank(c: char) -> bool {
    let n = c as u32;
    ||| 0x09 <= n <= 0x0d
    ||| n == 0x20
    ||| n == 0x85
    ||| n == 0xa0
    ||| n == 0x1680
    ||| 0x2000 <= n <= 0x200a
    ||| n == 0x2028
    ||| n == 0x2029
    ||| n == 0x202f
    ||| n == 0x205f
    ||| n == 0x3000
}

pub open spec fn all_blank(s: Seq<char>) -> bool {
    forall|i: int| 0 <= i < s.len() ==> blank(#[trigger] s[i])
}

pub open spec fn none_blank(s: Seq<char>) -> bool {
    forall|i: int| 0 <= i < s.len() ==> !blank(#[trigger] s[i])
}

/// The white space is that of Unicode.
pub proof fn law_white_space(c: char)
    ensures
        is_white_space(c) == blank(c),
{
}

proof fn lemma_blank_start(g: Seq<char>, s: Seq<char>)
    requires
        all_blank(g),
    ensures
        trim_start(g + s) == trim_start(s),
        words(g + s) == words(s),
    decreases g.len(),
{
    if g.len() == 0 {
        assert(g + s =~= s);
    } else {
        assert(blank(g[0]));
        law_white_space(g[0]);
        assert((g + s).drop_first() =~= g.drop_first() + s);
        assert(all_blank(g.drop_first()));
        lemma_blank_start(g.drop_first(), s);
    }
}

proof fn lemma_blank_end(s: Seq<char>, g: Seq<char>)
    requires
        all_blank(g),
    ensures
        trim_end(s + g) == trim_end(s),
    decreases g.len(),
{
    if g.len() == 0 {
        assert(s + g =~= s);
    } else {
        assert(blank(g.last()));
        law_white_space(g.last());
        assert((s + g).drop_last() =~= s + g.drop_last());
        assert(all_blank(g.drop_last()));
        lemma_blank_end(s, g.drop_last());
    }
}

/// Trimming takes the white space off both ends of a text, and nothing else.
pub proof fn law_trim(a: Seq<char>, s: Seq<char>, b: Seq<char>)
    requires
        all_blank(a),
        all_blank(b),
        s.len() > 0 ==> !blank(s[0]) && !blank(s.last()),
    ensures
        trim(a + s + b) == s,
{
    assert(a + s + b =~= a + (s + b));
    lemma_blank_start(a, s + b);
    if s.len() > 0 {
        law_white_space(s[0]);
        law_white_space(s.last());
        assert((s + b)[0] == s[0]);
        assert(trim_start(s + b) == s + b);
        lemma_blank_end(s, b);
        assert(trim_end(s) == s);
    } else {
        assert(s + b =~= b + s);
        lemma_blank_start(b, s);
        assert(trim_start(s) == s);
        assert(trim_end(s) == s);
    }
}

/// White space alone holds no word.
pub proof fn law_no_words(s: Seq<char>)
    requires
        all_blank(s),
    ensures
        words(s).len() == 0,
{
    let none = Seq::<char>::empty();
    assert(s + none =~= s);
    lemma_blank_start(s, none);
}

/// A run of other characters is a word; what follows it behind white space gives the next words.
pub proof fn law_first_word(g: Seq<char>, word: Seq<char>, rest: Seq<char>)
    requires
        all_blank(g),
        word.len() > 0,
        none_blank(word),
        rest.len() > 0 ==> blank(rest[0]),
    ensures
        words(g + word + rest) == seq![word] + words(rest),
{
    let s = word + rest;
    assert(g + word + rest =~= g + s);
    lemma_blank_start(g, s);
    assert(!blank(word[0]));
    law_white_space(word[0]);
    assert forall|j: int| 0 <= j < word.len() implies !is_white_space(s[j]) by {
        assert(!blank(word[j]));
        law_white_space(word[j]);
    }
    if rest.len() > 0 {
        law_white_space(rest[0]);
        assert(s[word.len() as int] == rest[0]);
    }
    lemma_word_len_is(s, word.len() as int);
    assert(s.take(word.len() as int) =~= word);
    assert(s.skip(word.len() as int) =~= rest);
}

// ---- Parts of a text ---------------------------------------------------------------------------
/// Whether `c` does not occur in `s`.
pub open spec fn lacks(s: Seq<char>, c: char) -> bool {
    forall|i: int| 0 <= i < s.len() ==> #[trigger] s[i] != c
}

/// A text without a separator is one field.
pub proof fn law_one_field(s: Seq<char>, separator: char)
    requires
        lacks(s, separator),
    ensures
        fields(s, separator) == seq![s],
{
    lemma_field_len_is(s, separator, s.len() as int);
}

/// What stands before the first separator is the first field; what follows it gives the others.
pub proof fn law_first_field(a: Seq<char>, separator: char, b: Seq<char>)
    requires
        lacks(a, separator),
    ensures
        fields(a + seq![separator] + b, separator) == seq![a] + fields(b, separator),
{
    let s = a + seq![separator] + b;
    assert forall|j: int| 0 <= j < a.len() implies s[j] != separator by {
        assert(s[j] == a[j]);
    }
    assert(s[a.len() as int] == separator);
    lemma_field_len_is(s, separator, a.len() as int);
    assert(s.take(a.len() as int) =~= a);
    assert(s.skip(a.len() as int + 1) =~= b);
}

/// A text without a line feed is one line, or none where it is empty.
pub proof fn law_one_line(s: Seq<char>)
    requires
        lacks(s, '\n'),
    ensures
        lines(s) == (if s.len() == 0 {
            Seq::empty()
        } else {
            seq![s]
        }),
{
    lemma_field_len_is(s, '\n', s.len() as int);
}

/// What stands before the first line feed is the first line; what follows it gives the others.
pub proof fn law_first_line(a: Seq<char>, b: Seq<char>)
    requires
        lacks(a, '\n'),
    ensures
        lines(a + seq!['\n'] + b) == seq![a] + lines(b),
{
    let s = a + seq!['\n'] + b;
    assert forall|j: int| 0 <= j < a.len() implies s[j] != '\n' by {
        assert(s[j] == a[j]);
    }
    assert(s[a.len() as int] == '\n');
    lemma_field_len_is(s, '\n', a.len() as int);
    assert(s.take(a.len() as int) =~= a);
    assert(s.skip(a.len() as int + 1) =~= b);
}

/// The quoted text is what stands between the first double quote and the next.
pub proof fn law_quoted(a: Seq<char>, name: Seq<char>, b: Seq<char>)
    requires
        lacks(a, '"'),
        lacks(name, '"'),
    ensures
        quoted(a + seq!['"'] + name + seq!['"'] + b) == Some(name),
{
    let inner = name + seq!['"'] + b;
    let s = a + seq!['"'] + inner;
    assert(s =~= a + seq!['"'] + name + seq!['"'] + b);
    assert forall|j: int| 0 <= j < a.len() implies s[j] != '"' by {
        assert(s[j] == a[j]);
    }
    assert(s[a.len() as int] == '"');
    lemma_field_len_is(s, '"', a.len() as int);
    assert(s.skip(a.len() as int + 1) =~= inner);
    assert forall|j: int| 0 <= j < name.len() implies inner[j] != '"' by {
        assert(inner[j] == name[j]);
    }
    assert(inner[name.len() as int] == '"');
    lemma_field_len_is(inner, '"', name.len() as int);
    assert(inner.take(name.len() as int) =~= name);
}

/// With fewer than two double quotes, nothing is quoted.
pub proof fn law_not_quoted(a: Seq<char>, b: Seq<char>)
    requires
        lacks(a, '"'),
        lacks(b, '"'),
    ensures
        quoted(a) is None,
        quoted(a + seq!['"'] + b) is None,
{
    let s = a + seq!['"'] + b;
    lemma_field_len_is(a, '"', a.len() as int);
    assert forall|j: int| 0 <= j < a.len() implies s[j] != '"' by {
        assert(s[j] == a[j]);
    }
    assert(s[a.len() as int] == '"');
    lemma_field_len_is(s, '"', a.len() as int);
    assert(s.skip(a.len() as int + 1) =~= b);
    lemma_field_len_is(b, '"', b.len() as int);
}

/// A text contains its parts, and nothing else.
pub proof fn law_contains(a: Seq<char>, part: Seq<char>, b: Seq<char>, s: Seq<char>)
    ensures
        contains_text(a + part + b, part),
        contains_text(s, part) ==> exists|i: int|
            0 <= i <= s.len() - part.len() && s == s.take(i) + part + #[trigger] s.skip(i + part.len()),
{
    let whole = a + part + b;
    let at = a.len() as int;
    assert(whole.subrange(at, at + part.len()) =~= part);
    assert(occurs_at(whole, part, at));
    if contains_text(s, part) {
        let i = choose|i: int| occurs_at(s, part, i);
        assert(s =~= s.take(i) + s.subrange(i, i + part.len()) + s.skip(i + part.len()));
    }
}

/// A text starts with `part` where it is `part` and something more.
pub proof fn law_starts_with(part: Seq<char>, b: Seq<char>, s: Seq<char>)
    ensures
        occurs_at(part + b, part, 0),
        occurs_at(s, part, 0) ==> part.len() <= s.len() && s == part + s.skip(part.len() as int),
{
    assert((part + b).subrange(0, part.len() as int) =~= part);
    if occurs_at(s, part, 0) {
        assert(s =~= s.subrange(0, part.len() as int) + s.skip(part.len() as int));
    }
}

/// A text ends in `part` where it is something and then `part`.
pub proof fn law_ends_with(a: Seq<char>, part: Seq<char>, s: Seq<char>)
    ensures
        ends_with(a + part, part),
        ends_with(s, part) ==> part.len() <= s.len() && s == s.take(s.len() - part.len()) + part,
{
    let whole = a + part;
    assert(whole.subrange(a.len() as int, whole.len() as int) =~= part);
    if ends_with(s, part) {
        assert(s =~= s.take(s.len() - part.len()) + s.subrange(s.len() - part.len(), s.len() as int));
    }
}

/// The position that is found is the first at which the part stands; where none is found, it
/// stands nowhere.
pub proof fn law_found_first(s: Seq<char>, part: Seq<char>, from: int)
    requires
        0 <= from,
    ensures
        match find_from(s, part, from) {
            Some(i) => {
                &&& from <= i <= s.len() - part.len()
                &&& s.subrange(i, i + part.len()) == part
                &&& forall|j: int|
                    from <= j < i ==> #[trigger] s.subrange(j, j + part.len()) != part
            },
            None => forall|j: int|
                from <= j <= s.len() - part.len() ==> #[trigger] s.subrange(j, j + part.len()) != part,
        },
    decreases s.len() + 1 - from,
{
    if from + part.len() <= s.len() && !occurs_at(s, part, from) {
        law_found_first(s, part, from + 1);
        assert(s.subrange(from, from + part.len()) != part);
    }
}

// ---- Letters -----------------------------------------------------------------------------------
/// Small and capital ASCII letters lie 32 code points apart; no other character changes.
pub proof fn law_ascii_case(c: char)
    ensures
        0x41 <= c as u32 <= 0x5a ==> ascii_lower(c) as u32 == c as u32 + 32,
        !(0x41 <= c as u32 <= 0x5a) ==> ascii_lower(c) == c,
        0x61 <= c as u32 <= 0x7a ==> ascii_upper(c) as u32 == c as u32 - 32,
        !(0x61 <= c as u32 <= 0x7a) ==> ascii_upper(c) == c,
{
}

/// Whether two characters are the same but for the case of an ASCII letter.
pub open spec fn same_letter(a: char, b: char) -> bool {
    ||| a == b
    ||| 0x41 <= a as u32 <= 0x5a && b as u32 == a as u32 + 32
    ||| 0x41 <= b as u32 <= 0x5a && a as u32 == b as u32 + 32
}

/// Whether two texts are the same but for the case of ASCII letters.
pub open spec fn same_letters(a: Seq<char>, b: Seq<char>) -> bool {
    a.len() == b.len() && forall|i: int| 0 <= i < a.len() ==> same_letter(#[trigger] a[i], b[i])
}

/// Texts have the same small letters, and the same capitals, where they differ in case at most.
pub proof fn law_same_letters(a: Seq<char>, b: Seq<char>)
    ensures
        same_letters(a, b) <==> ascii_lowercase(a) == ascii_lowercase(b),
        same_letters(a, b) <==> ascii_uppercase(a) == ascii_uppercase(b),
{
    let la = ascii_lowercase(a);
    let lb = ascii_lowercase(b);
    let ua = ascii_uppercase(a);
    let ub = ascii_uppercase(b);
    if same_letters(a, b) {
        assert forall|i: int| 0 <= i < a.len() implies la[i] == lb[i] && ua[i] == ub[i] by {
            assert(same_letter(a[i], b[i]));
        }
        assert(la =~= lb);
        assert(ua =~= ub);
    }
    if la == lb {
        assert(la.len() == a.len() && lb.len() == b.len());
        assert forall|i: int| 0 <= i < a.len() implies same_letter(#[trigger] a[i], b[i]) by {
            assert(la[i] == lb[i]);
            assert(la[i] == ascii_lower(a[i]) && lb[i] == ascii_lower(b[i]));
        }
    }
    if ua == ub {
        assert(ua.len() == a.len() && ub.len() == b.len());
        assert forall|i: int| 0 <= i < a.len() implies same_letter(#[trigger] a[i], b[i]) by {
            assert(ua[i] == ub[i]);
            assert(ua[i] == ascii_upper(a[i]) && ub[i] == ascii_upper(b[i]));
        }
    }
}

// ---- Numbers -----------------------------------------------------------------------------------
/// The text that writes decimal digits.
pub open spec fn written(digits: Seq<nat>) -> Seq<char> {
    digits.map_values(|d: nat| (0x30 + d) as char)
}

pub open spec fn are_digits(digits: Seq<nat>) -> bool {
    digits.len() > 0 && forall|i: int| 0 <= i < digits.len() ==> #[trigger] digits[i] < 10
}

/// The value of decimal digits: each counts by its place.
pub open spec fn place_value(digits: Seq<nat>) -> nat
    decreases digits.len(),
{
    if digits.len() == 0 {
        0
    } else {
        (digits[0] * pow(10, (digits.len() - 1) as nat)) as nat + place_value(digits.drop_first())
    }
}

proof fn lemma_pow_step(n: nat)
    ensures
        pow(10, n + 1) == 10 * pow(10, n),
        pow(10, n) >= 1,
    decreases n,
{
    reveal(pow);
    if n > 0 {
        lemma_pow_step((n - 1) as nat);
    }
}

proof fn lemma_place_value_last(digits: Seq<nat>)
    requires
        digits.len() > 0,
    ensures
        place_value(digits) == place_value(digits.drop_last()) * 10 + digits.last(),
    decreases digits.len(),
{
    let n = digits.len();
    if n == 1 {
        lemma_pow0(10);
        assert(digits.drop_first() =~= Seq::empty());
        assert(digits.drop_last() =~= Seq::empty());
        assert(place_value(digits.drop_first()) == 0);
        assert(place_value(digits.drop_last()) == 0);
        assert(digits[0] * pow(10, 0) == digits[0]) by (nonlinear_arith)
            requires
                pow(10, 0) == 1,
        ;
    } else {
        let rest = digits.drop_first();
        lemma_place_value_last(rest);
        assert(rest.drop_last() =~= digits.drop_last().drop_first());
        lemma_pow_step((n - 2) as nat);
        let p = pow(10, (n - 2) as nat);
        assert(pow(10, (n - 1) as nat) == 10 * p);
        assert(digits[0] * (10 * p) == 10 * (digits[0] * p)) by (nonlinear_arith);
        assert(digits[0] * p >= 0) by (nonlinear_arith)
            requires
                p >= 1,
        ;
        assert(place_value(digits) == 10 * (digits[0] * p) + place_value(rest));
        assert(place_value(digits.drop_last()) == (digits[0] * p) + place_value(rest.drop_last()));
    }
}

proof fn lemma_written(digits: Seq<nat>)
    requires
        forall|i: int| 0 <= i < digits.len() ==> #[trigger] digits[i] < 10,
    ensures
        all_digits(written(digits)),
        decimal(written(digits)) == place_value(digits),
    decreases digits.len(),
{
    let s = written(digits);
    assert forall|i: int| 0 <= i < s.len() implies is_digit(#[trigger] s[i]) by {
        assert(digits[i] < 10);
    }
    if digits.len() > 0 {
        lemma_written(digits.drop_last());
        assert(s.drop_last() =~= written(digits.drop_last()));
        assert(digits[digits.len() - 1] < 10);
        assert(s.last() as nat == 0x30 + digits.last());
        lemma_place_value_last(digits);
    }
}

/// Decimal digits write the number in which each counts by its place. A plus sign may stand before
/// them.
pub proof fn law_number(digits: Seq<nat>, max: nat)
    requires
        are_digits(digits),
    ensures
        number(written(digits), max) == (if place_value(digits) <= max {
            Some(place_value(digits))
        } else {
            None
        }),
        number(seq!['+'] + written(digits), max) == number(written(digits), max),
{
    lemma_written(digits);
    let s = written(digits);
    assert(digits[0] < 10);
    assert(s[0] != '+');
    assert((seq!['+'] + s).drop_first() =~= s);
}

/// Two digits write ten times the first and the second.
pub proof fn law_two_digits(a: nat, b: nat)
    requires
        a < 10,
        b < 10,
    ensures
        place_value(seq![a, b]) == 10 * a + b,
        place_value(seq![b]) == b,
{
    let d = seq![a, b];
    lemma_place_value_last(d);
    assert(d.drop_last() =~= seq![a]);
    lemma_place_value_last(seq![a]);
    lemma_place_value_last(seq![b]);
    assert(seq![a].drop_last() =~= Seq::empty());
    assert(seq![b].drop_last() =~= Seq::empty());
}

/// Whether a text is a number of any size: digits, with or without a plus sign before them.
pub open spec fn looks_like_number(s: Seq<char>) -> bool {
    let from: int = if s.len() > 0 && s[0] == '+' {
        1
    } else {
        0
    };
    from < s.len() && forall|i: int| from <= i < s.len() ==> 0x30 <= (#[trigger] s[i]) as u32 <= 0x39
}

/// Any other text writes no number.
pub proof fn law_no_number(s: Seq<char>, max: nat)
    requires
        !looks_like_number(s),
    ensures
        number(s, max) is None,
{
    let digits = if s.len() > 0 && s[0] == '+' {
        s.drop_first()
    } else {
        s
    };
    if digits.len() > 0 && all_digits(digits) {
        let from: int = if s.len() > 0 && s[0] == '+' {
            1
        } else {
            0
        };
        assert forall|i: int| from <= i < s.len() implies 0x30 <= (#[trigger] s[i]) as u32 <= 0x39 by {
            assert(is_digit(digits[i - from]));
        }
    }
}

// ---- File names --------------------------------------------------------------------------------
proof fn lemma_last_dot(a: Seq<char>, b: Seq<char>)
    requires
        lacks(b, '.'),
    ensures
        last_dot(a + seq!['.'] + b) == Some(a.len() as int),
    decreases b.len(),
{
    let s = a + seq!['.'] + b;
    if b.len() > 0 {
        assert(b[b.len() - 1] != '.');
        assert(s.last() == b.last());
        assert(s.drop_last() =~= a + seq!['.'] + b.drop_last());
        assert(lacks(b.drop_last(), '.')) by {
            assert forall|i: int| 0 <= i < b.len() - 1 implies #[trigger] b.drop_last()[i] != '.' by {
                assert(b[i] != '.');
            }
        }
        lemma_last_dot(a, b.drop_last());
    }
}

/// The extension of a file name is what follows its last dot, and the stem what stands before it.
pub proof fn law_extension(stem: Seq<char>, ext: Seq<char>)
    requires
        stem.len() > 0,
        lacks(ext, '.'),
        !(stem == seq!['.'] && ext.len() == 0),
    ensures
        extension(stem + seq!['.'] + ext) == Some(ext),
        file_stem(stem + seq!['.'] + ext) == stem,
{
    let name = stem + seq!['.'] + ext;
    lemma_last_dot(stem, ext);
    assert(name != seq!['.', '.']) by {
        if name == seq!['.', '.'] {
            assert(stem.len() == 1 && ext.len() == 0);
            assert(stem[0] == name[0]);
            assert(stem =~= seq!['.']);
        }
    }
    assert(name.skip(stem.len() as int + 1) =~= ext);
    assert(name.take(stem.len() as int) =~= stem);
}

proof fn lemma_no_last_dot(name: Seq<char>)
    requires
        forall|i: int| 0 < i < name.len() ==> #[trigger] name[i] != '.',
    ensures
        last_dot(name) is None || last_dot(name) == Some(0int),
    decreases name.len(),
{
    if name.len() > 1 {
        assert(name[name.len() - 1] != '.');
        assert forall|i: int| 0 < i < name.len() - 1 implies #[trigger] name.drop_last()[i] != '.' by {
            assert(name[i] != '.');
        }
        lemma_no_last_dot(name.drop_last());
    } else if name.len() == 1 && name.last() != '.' {
        assert(name.drop_last() =~= Seq::empty());
        assert(last_dot(name.drop_last()) is None);
    }
}

/// A name with no dot, or only a leading one, has no extension; nor has that of the parent folder.
pub proof fn law_no_extension(name: Seq<char>)
    requires
        (forall|i: int| 0 < i < name.len() ==> #[trigger] name[i] != '.') || name == seq!['.', '.'],
    ensures
        extension(name) is None,
        file_stem(name) == name,
{
    if name != seq!['.', '.'] {
        lemma_no_last_dot(name);
    }
}

/// An extension is compared by its letters, whatever their case.
pub proof fn law_has_extension(stem: Seq<char>, ext: Seq<char>, wanted: Seq<char>)
    requires
        stem.len() > 0,
        lacks(ext, '.'),
        ext.len() > 0,
        forall|i: int| 0 <= i < wanted.len() ==> !(0x41 <= (#[trigger] wanted[i]) as u32 <= 0x5a),
    ensures
        has_extension(stem + seq!['.'] + ext, wanted) <==> same_letters(ext, wanted),
{
    law_extension(stem, ext);
    assert(ascii_lowercase(wanted) =~= wanted);
    law_same_letters(ext, wanted);
}

/// A name with no dot, or only a leading one, has no extension to compare.
pub proof fn law_has_no_extension(name: Seq<char>, wanted: Seq<char>)
    requires
        forall|i: int| 0 < i < name.len() ==> #[trigger] name[i] != '.',
    ensures
        !has_extension(name, wanted),
{
    law_no_extension(name);
}

} // verus!
