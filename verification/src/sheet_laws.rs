//! What the lines of a cue sheet mean, said of the text that is written in them.
use vstd::prelude::*;
use vstd::utf8::is_ascii_chars;
use crate::sheet::{
    command, command_views, commands, file_names, line_command, msf, plain_command, plainly_read,
    CommandView, CueCommand, Msf,
};
use crate::text::{
    ascii_upper, ascii_uppercase, contains_text, fields, lines, number, occurs_at, quoted,
    uppercase, words,
};
use crate::text_laws::{
    all_blank, are_digits, blank, lacks, law_ascii_case, law_first_field, law_first_word,
    law_no_number, law_not_quoted, law_number, law_one_field, law_quoted, law_same_letters,
    law_trim, looks_like_number, none_blank, place_value, same_letter, same_letters, written,
};

verus! {

// ---- Positions ---------------------------------------------------------------------------------
/// The text of a position: minutes, seconds and frames with colons between them.
pub open spec fn position_text(m: Seq<nat>, s: Seq<nat>, f: Seq<nat>) -> Seq<char> {
    written(m) + seq![':'] + written(s) + seq![':'] + written(f)
}

proof fn lemma_written_chars(d: Seq<nat>)
    requires
        are_digits(d),
    ensures
        forall|i: int|
            0 <= i < written(d).len() ==> 0x30 <= (#[trigger] written(d)[i]) as u32 <= 0x39,
        lacks(written(d), ':'),
        none_blank(written(d)),
        written(d).len() == d.len(),
{
    assert forall|i: int| 0 <= i < written(d).len() implies 0x30 <= (#[trigger] written(d)[i]) as u32
        <= 0x39 by {
        assert(d[i] < 10);
    }
}

/// Three numbers with colons between them write a position: minutes, seconds, frames.
pub proof fn law_position(m: Seq<nat>, s: Seq<nat>, f: Seq<nat>)
    requires
        are_digits(m) && are_digits(s) && are_digits(f),
        place_value(m) <= u64::MAX && place_value(s) <= u64::MAX && place_value(f) <= u64::MAX,
    ensures
        msf(position_text(m, s, f)) == Some(
            Msf {
                minutes: place_value(m) as u64,
                seconds: place_value(s) as u64,
                frames: place_value(f) as u64,
            },
        ),
{
    lemma_written_chars(m);
    lemma_written_chars(s);
    lemma_written_chars(f);
    let rest = written(s) + seq![':'] + written(f);
    assert(position_text(m, s, f) =~= written(m) + seq![':'] + rest);
    law_first_field(written(m), ':', rest);
    law_first_field(written(s), ':', written(f));
    law_one_field(written(f), ':');
    let parts = fields(position_text(m, s, f), ':');
    assert(parts =~= seq![written(m), written(s), written(f)]);
    law_number(m, u64::MAX as nat);
    law_number(s, u64::MAX as nat);
    law_number(f, u64::MAX as nat);
}

/// A position in sectors: a minute has 60 seconds and a second 75 frames of one sector each.
pub proof fn law_sectors(p: Msf)
    ensures
        p.sectors() == 4500 * p.minutes + 75 * p.seconds + p.frames,
{
}

/// Anything but three numbers is no position.
pub proof fn law_no_position(a: Seq<char>, b: Seq<char>, c: Seq<char>, d: Seq<char>)
    requires
        lacks(a, ':'),
        lacks(b, ':'),
        lacks(c, ':'),
    ensures
        msf(a) is None,
        msf(a + seq![':'] + b) is None,
        msf(a + seq![':'] + b + seq![':'] + c + seq![':'] + d) is None,
        !(looks_like_number(a) && looks_like_number(b) && looks_like_number(c)) ==> msf(
            a + seq![':'] + b + seq![':'] + c,
        ) is None,
{
    law_one_field(a, ':');
    law_one_field(b, ':');
    law_one_field(c, ':');
    law_first_field(a, ':', b);
    let three = b + seq![':'] + c;
    assert(a + seq![':'] + b + seq![':'] + c =~= a + seq![':'] + three);
    law_first_field(a, ':', three);
    law_first_field(b, ':', c);
    assert(fields(a + seq![':'] + three, ':') =~= seq![a, b, c]);
    if !looks_like_number(a) {
        law_no_number(a, u64::MAX as nat);
    }
    if !looks_like_number(b) {
        law_no_number(b, u64::MAX as nat);
    }
    if !looks_like_number(c) {
        law_no_number(c, u64::MAX as nat);
    }
    let tail = c + seq![':'] + d;
    let more = b + seq![':'] + tail;
    assert(a + seq![':'] + b + seq![':'] + c + seq![':'] + d =~= a + seq![':'] + more);
    law_first_field(a, ':', more);
    law_first_field(b, ':', tail);
    law_first_field(c, ':', d);
    lemma_some_field(d);
    assert(fields(a + seq![':'] + more, ':').len() >= 4);
}

proof fn lemma_some_field(s: Seq<char>)
    ensures
        fields(s, ':').len() >= 1,
{
}

// ---- Lines -------------------------------------------------------------------------------------
proof fn lemma_upper_joins(a: Seq<char>, b: Seq<char>)
    ensures
        ascii_uppercase(a + b) == ascii_uppercase(a) + ascii_uppercase(b),
{
    assert(ascii_uppercase(a + b) =~= ascii_uppercase(a) + ascii_uppercase(b));
}

/// Capitals of a text without small letters are the text itself.
proof fn lemma_upper_keeps(s: Seq<char>)
    requires
        forall|i: int| 0 <= i < s.len() ==> !(0x61 <= (#[trigger] s[i]) as u32 <= 0x7a),
    ensures
        ascii_uppercase(s) == s,
{
    assert forall|i: int| 0 <= i < s.len() implies ascii_uppercase(s)[i] == s[i] by {
        law_ascii_case(s[i]);
    }
    assert(ascii_uppercase(s) =~= s);
}

proof fn lemma_upper_blank(g: Seq<char>)
    requires
        all_blank(g),
    ensures
        ascii_uppercase(g) == g,
{
    assert forall|i: int| 0 <= i < g.len() implies !(0x61 <= (#[trigger] g[i]) as u32 <= 0x7a) by {
        assert(blank(g[i]));
    }
    lemma_upper_keeps(g);
}

/// The capitals of a line that starts with a keyword, in any case, start with the keyword.
proof fn lemma_keyword(k: Seq<char>, word: Seq<char>, rest: Seq<char>)
    requires
        same_letters(k, word),
        ascii_uppercase(word) == word,
        word.len() > 0,
    ensures
        ascii_uppercase(k + seq![' '] + rest) == word + seq![' '] + ascii_uppercase(rest),
{
    law_same_letters(k, word);
    lemma_upper_joins(k + seq![' '], rest);
    lemma_upper_joins(k, seq![' ']);
    lemma_upper_keeps(seq![' ']);
}

proof fn lemma_keywords()
    ensures
        "FILE "@ == "FILE"@ + seq![' '],
        "TRACK "@ == "TRACK"@ + seq![' '],
        "INDEX "@ == "INDEX"@ + seq![' '],
        "FILE"@.len() == 4,
        "TRACK"@.len() == 5,
        "INDEX"@.len() == 5,
        "AUDIO"@.len() == 5,
        "FILE"@[0] == 'F',
        "TRACK"@[0] == 'T',
        "INDEX"@[0] == 'I',
        ascii_uppercase("FILE"@) == "FILE"@,
        ascii_uppercase("TRACK"@) == "TRACK"@,
        ascii_uppercase("INDEX"@) == "INDEX"@,
        ascii_uppercase("AUDIO"@) == "AUDIO"@,
        none_blank("FILE"@),
        none_blank("TRACK"@),
        none_blank("INDEX"@),
{
    reveal_strlit("FILE ");
    reveal_strlit("TRACK ");
    reveal_strlit("INDEX ");
    reveal_strlit("FILE");
    reveal_strlit("TRACK");
    reveal_strlit("INDEX");
    reveal_strlit("AUDIO");
    assert("FILE "@ =~= "FILE"@ + seq![' ']);
    assert("TRACK "@ =~= "TRACK"@ + seq![' ']);
    assert("INDEX "@ =~= "INDEX"@ + seq![' ']);
    lemma_upper_keeps("FILE"@);
    lemma_upper_keeps("TRACK"@);
    lemma_upper_keeps("INDEX"@);
    lemma_upper_keeps("AUDIO"@);
}

proof fn lemma_keyword_not_blank(k: Seq<char>, word: Seq<char>)
    requires
        same_letters(k, word),
        none_blank(word),
        forall|i: int| 0 <= i < word.len() ==> 0x41 <= (#[trigger] word[i]) as u32 <= 0x5a,
    ensures
        none_blank(k),
{
    assert forall|i: int| 0 <= i < k.len() implies !blank(#[trigger] k[i]) by {
        assert(same_letter(k[i], word[i]));
        assert(0x41 <= word[i] as u32 <= 0x5a);
    }
}

proof fn lemma_capital_keywords()
    ensures
        forall|i: int| 0 <= i < "FILE"@.len() ==> 0x41 <= (#[trigger] "FILE"@[i]) as u32 <= 0x5a,
        forall|i: int| 0 <= i < "TRACK"@.len() ==> 0x41 <= (#[trigger] "TRACK"@[i]) as u32 <= 0x5a,
        forall|i: int| 0 <= i < "INDEX"@.len() ==> 0x41 <= (#[trigger] "INDEX"@[i]) as u32 <= 0x5a,
{
    reveal_strlit("FILE");
    reveal_strlit("TRACK");
    reveal_strlit("INDEX");
}

/// Whether "audio" stands in a line, in any case.
pub open spec fn mentions_audio(line: Seq<char>) -> bool {
    exists|i: int|
        0 <= i <= line.len() - 5 && same_letters(#[trigger] line.subrange(i, i + 5), "AUDIO"@)
}

proof fn lemma_audio(line: Seq<char>)
    ensures
        contains_text(ascii_uppercase(line), "AUDIO"@) == mentions_audio(line),
{
    lemma_keywords();
    let upper = ascii_uppercase(line);
    if mentions_audio(line) {
        let i = choose|i: int|
            0 <= i <= line.len() - 5 && same_letters(#[trigger] line.subrange(i, i + 5), "AUDIO"@);
        law_same_letters(line.subrange(i, i + 5), "AUDIO"@);
        assert(upper.subrange(i, i + 5) =~= ascii_uppercase(line.subrange(i, i + 5)));
        assert(occurs_at(upper, "AUDIO"@, i));
    }
    if contains_text(upper, "AUDIO"@) {
        let i = choose|i: int| occurs_at(upper, "AUDIO"@, i);
        assert(upper.subrange(i, i + 5) =~= ascii_uppercase(line.subrange(i, i + 5)));
        law_same_letters(line.subrange(i, i + 5), "AUDIO"@);
    }
}

/// A line that starts with TRACK and, behind white space, digits begins the track whose number
/// these digits write, each by its place. It is an audio track where the line mentions AUDIO.
pub proof fn law_track_line(
    a: Seq<char>,
    k: Seq<char>,
    g: Seq<char>,
    d: Seq<nat>,
    rest: Seq<char>,
    b: Seq<char>,
)
    requires
        all_blank(a) && all_blank(b) && all_blank(g),
        same_letters(k, "TRACK"@),
        are_digits(d),
        rest.len() > 0 ==> blank(rest[0]) && !blank(rest.last()),
        is_ascii_chars(k + seq![' '] + g + written(d) + rest),
    ensures
        plain_command(a + (k + seq![' '] + g + written(d) + rest) + b) == Some(
            CommandView::Track {
                number: if place_value(d) <= u32::MAX {
                    place_value(d) as u32
                } else {
                    0
                },
                audio: mentions_audio(k + seq![' '] + g + written(d) + rest),
            },
        ),
{
    lemma_written_chars(d);
    lemma_track_words(a, k, g, written(d), rest, b);
    law_number(d, u32::MAX as nat);
}

proof fn lemma_track_words(
    a: Seq<char>,
    k: Seq<char>,
    g: Seq<char>,
    w: Seq<char>,
    rest: Seq<char>,
    b: Seq<char>,
)
    requires
        all_blank(a) && all_blank(b) && all_blank(g),
        same_letters(k, "TRACK"@),
        w.len() > 0 && none_blank(w),
        rest.len() > 0 ==> blank(rest[0]) && !blank(rest.last()),
        is_ascii_chars(k + seq![' '] + g + w + rest),
    ensures
        ({
            let line = k + seq![' '] + g + w + rest;
            plain_command(a + line + b) == Some(
                CommandView::Track {
                    number: match number(w, u32::MAX as nat) {
                        Some(n) => n as u32,
                        None => 0,
                    },
                    audio: mentions_audio(line),
                },
            )
        }),
{
    let line = k + seq![' '] + g + w + rest;
    lemma_keywords();
    lemma_capital_keywords();
    lemma_keyword_not_blank(k, "TRACK"@);
    assert(line[0] == k[0]);
    assert(!blank(k[0]));
    assert(line.last() == if rest.len() > 0 {
        rest.last()
    } else {
        w.last()
    });
    assert(!blank(w[w.len() - 1]));
    law_trim(a, line, b);
    let tail = g + w + rest;
    assert(line =~= k + seq![' '] + tail);
    lemma_keyword(k, "TRACK"@, tail);
    let upper = ascii_uppercase(line);
    assert(upper[0] == 'T');
    assert(!occurs_at(upper, "FILE "@, 0)) by {
        if occurs_at(upper, "FILE "@, 0) {
            assert(upper.subrange(0, 5)[0] == 'T');
            assert("FILE "@[0] == 'F');
        }
    }
    assert(upper.subrange(0, 6) =~= "TRACK "@);
    let behind = seq![' '] + g;
    assert(all_blank(behind));
    let none = Seq::<char>::empty();
    let rest1 = behind + w + rest;
    assert(line =~= none + k + rest1);
    law_first_word(none, k, rest1);
    law_first_word(behind, w, rest);
    assert(words(line) =~= seq![k, w] + words(rest));
    assert(words(line)[1] == w);
    lemma_audio(line);
}

/// A TRACK line whose second word writes no number has the number 0.
pub proof fn law_track_line_without_number(
    a: Seq<char>,
    k: Seq<char>,
    g: Seq<char>,
    w: Seq<char>,
    rest: Seq<char>,
    b: Seq<char>,
)
    requires
        all_blank(a) && all_blank(b) && all_blank(g),
        same_letters(k, "TRACK"@),
        w.len() > 0 && none_blank(w),
        !looks_like_number(w),
        rest.len() > 0 ==> blank(rest[0]) && !blank(rest.last()),
        is_ascii_chars(k + seq![' '] + g + w + rest),
    ensures
        plain_command(a + (k + seq![' '] + g + w + rest) + b) == Some(
            CommandView::Track {
                number: 0,
                audio: mentions_audio(k + seq![' '] + g + w + rest),
            },
        ),
{
    lemma_track_words(a, k, g, w, rest, b);
    law_no_number(w, u32::MAX as nat);
}

/// A line that starts with FILE names the file between its first two double quotes, in whatever
/// characters the name is written.
pub proof fn law_file_line(
    a: Seq<char>,
    k: Seq<char>,
    x: Seq<char>,
    name: Seq<char>,
    y: Seq<char>,
    b: Seq<char>,
)
    requires
        all_blank(a) && all_blank(b),
        same_letters(k, "FILE"@),
        lacks(x, '"') && lacks(name, '"'),
        y.len() > 0 ==> !blank(y.last()),
    ensures
        plain_command(a + (k + seq![' '] + x + seq!['"'] + name + seq!['"'] + y) + b) == Some(
            CommandView::File(Some(name)),
        ),
{
    let line = k + seq![' '] + x + seq!['"'] + name + seq!['"'] + y;
    let tail = x + seq!['"'] + name + seq!['"'] + y;
    lemma_file_keyword(a, k, tail, b);
    assert(line =~= k + seq![' '] + tail);
    lemma_capital_keywords();
    let before = k + seq![' '] + x;
    assert(lacks(before, '"')) by {
        assert forall|i: int| 0 <= i < before.len() implies #[trigger] before[i] != '"' by {
            if i < k.len() {
                assert(same_letter(k[i], "FILE"@[i]));
                assert(0x41 <= "FILE"@[i] as u32 <= 0x5a);
            } else if i > k.len() {
                assert(x[i - k.len() - 1] != '"');
            }
        }
    }
    assert(line =~= before + seq!['"'] + name + seq!['"'] + y);
    law_quoted(before, name, y);
}

/// A FILE line without two double quotes names no file.
pub proof fn law_file_line_without_name(
    a: Seq<char>,
    k: Seq<char>,
    x: Seq<char>,
    b: Seq<char>,
)
    requires
        all_blank(a) && all_blank(b),
        same_letters(k, "FILE"@),
        lacks(x, '"'),
        x.len() > 0 && !blank(x.last()),
    ensures
        plain_command(a + (k + seq![' '] + x) + b) == Some(CommandView::File(None)),
{
    let line = k + seq![' '] + x;
    lemma_file_keyword(a, k, x, b);
    lemma_capital_keywords();
    assert(lacks(line, '"')) by {
        assert forall|i: int| 0 <= i < line.len() implies #[trigger] line[i] != '"' by {
            if i < k.len() {
                assert(same_letter(k[i], "FILE"@[i]));
                assert(0x41 <= "FILE"@[i] as u32 <= 0x5a);
            } else if i > k.len() {
                assert(x[i - k.len() - 1] != '"');
            }
        }
    }
    law_not_quoted(line, Seq::empty());
}

proof fn lemma_file_keyword(a: Seq<char>, k: Seq<char>, tail: Seq<char>, b: Seq<char>)
    requires
        all_blank(a) && all_blank(b),
        same_letters(k, "FILE"@),
        tail.len() > 0 && !blank(tail.last()),
    ensures
        plain_command(a + (k + seq![' '] + tail) + b) == Some(
            CommandView::File(quoted(k + seq![' '] + tail)),
        ),
{
    let line = k + seq![' '] + tail;
    lemma_keywords();
    lemma_capital_keywords();
    lemma_keyword_not_blank(k, "FILE"@);
    assert(line[0] == k[0]);
    assert(!blank(k[0]));
    assert(line.last() == tail.last());
    law_trim(a, line, b);
    lemma_keyword(k, "FILE"@, tail);
    let upper = ascii_uppercase(line);
    assert(upper.subrange(0, 5) =~= "FILE "@);
}

/// A line that starts with INDEX and, behind white space, a word and a position gives that
/// position. It is where the sound begins where the word is 01.
pub proof fn law_index_line(
    a: Seq<char>,
    k: Seq<char>,
    g: Seq<char>,
    w: Seq<char>,
    h: Seq<char>,
    m: Seq<nat>,
    s: Seq<nat>,
    f: Seq<nat>,
    rest: Seq<char>,
    b: Seq<char>,
)
    requires
        all_blank(a) && all_blank(b) && all_blank(g) && all_blank(h),
        same_letters(k, "INDEX"@),
        w.len() > 0 && none_blank(w),
        h.len() > 0,
        are_digits(m) && are_digits(s) && are_digits(f),
        place_value(m) <= u64::MAX && place_value(s) <= u64::MAX && place_value(f) <= u64::MAX,
        rest.len() > 0 ==> blank(rest[0]) && !blank(rest.last()),
        is_ascii_chars(k + seq![' '] + g + w + h + position_text(m, s, f) + rest),
    ensures
        plain_command(a + (k + seq![' '] + g + w + h + position_text(m, s, f) + rest) + b) == Some(
            CommandView::Index {
                first: w == seq!['0', '1'],
                position: Msf {
                    minutes: place_value(m) as u64,
                    seconds: place_value(s) as u64,
                    frames: place_value(f) as u64,
                },
            },
        ),
{
    let p = position_text(m, s, f);
    lemma_written_chars(m);
    lemma_written_chars(s);
    lemma_written_chars(f);
    assert forall|i: int| 0 <= i < p.len() implies 0x30 <= (#[trigger] p[i]) as u32 <= 0x3a by {
        let n = written(m).len() as int;
        let o = n + 1 + written(s).len() as int;
        if i < n {
            assert(p[i] == written(m)[i]);
        } else if n < i < o {
            assert(p[i] == written(s)[i - n - 1]);
        } else if i > o {
            assert(p[i] == written(f)[i - o - 1]);
        }
    }
    lemma_index_words(a, k, g, w, h, p, rest, b);
    lemma_upper_keeps(p);
    law_position(m, s, f);
}

proof fn lemma_index_words(
    a: Seq<char>,
    k: Seq<char>,
    g: Seq<char>,
    w: Seq<char>,
    h: Seq<char>,
    p: Seq<char>,
    rest: Seq<char>,
    b: Seq<char>,
)
    requires
        all_blank(a) && all_blank(b) && all_blank(g) && all_blank(h),
        same_letters(k, "INDEX"@),
        w.len() > 0 && none_blank(w),
        h.len() > 0,
        p.len() > 0 && none_blank(p),
        rest.len() > 0 ==> blank(rest[0]) && !blank(rest.last()),
        is_ascii_chars(k + seq![' '] + g + w + h + p + rest),
    ensures
        plain_command(a + (k + seq![' '] + g + w + h + p + rest) + b) == Some(
            match msf(ascii_uppercase(p)) {
                Some(position) => CommandView::Index { first: w == seq!['0', '1'], position },
                None => CommandView::Other,
            },
        ),
{
    let line = k + seq![' '] + g + w + h + p + rest;
    lemma_keywords();
    lemma_capital_keywords();
    lemma_keyword_not_blank(k, "INDEX"@);
    assert(line[0] == k[0]);
    assert(!blank(k[0]));
    assert(line.last() == if rest.len() > 0 {
        rest.last()
    } else {
        p.last()
    });
    assert(!blank(p[p.len() - 1]));
    law_trim(a, line, b);
    let tail = g + w + h + p + rest;
    assert(line =~= k + seq![' '] + tail);
    lemma_keyword(k, "INDEX"@, tail);
    let upper = ascii_uppercase(line);
    assert(upper[0] == 'I');
    assert(!occurs_at(upper, "FILE "@, 0)) by {
        if occurs_at(upper, "FILE "@, 0) {
            assert(upper.subrange(0, 5)[0] == 'I');
        }
    }
    assert(!occurs_at(upper, "TRACK "@, 0)) by {
        if occurs_at(upper, "TRACK "@, 0) {
            assert(upper.subrange(0, 6)[0] == 'I');
        }
    }
    assert(upper.subrange(0, 6) =~= "INDEX "@);
    assert(upper.skip(6) =~= ascii_uppercase(tail));
    lemma_upper_joins(g + w + h + p, rest);
    lemma_upper_joins(g + w + h, p);
    lemma_upper_joins(g + w, h);
    lemma_upper_joins(g, w);
    lemma_upper_blank(g);
    lemma_upper_blank(h);
    let uw = ascii_uppercase(w);
    let up = ascii_uppercase(p);
    let ur = ascii_uppercase(rest);
    lemma_upper_not_blank(w);
    lemma_upper_not_blank(p);
    if rest.len() > 0 {
        law_ascii_case(rest[0]);
        assert(ur[0] == ascii_upper(rest[0]));
    }
    let more = h + up + ur;
    assert(ascii_uppercase(tail) =~= g + uw + more);
    law_first_word(g, uw, more);
    law_first_word(h, up, ur);
    let arguments = words(upper.skip("INDEX "@.len() as int));
    assert(arguments =~= seq![uw, up] + words(ur));
    assert(arguments[0] == uw && arguments[1] == up);
    reveal_strlit("01");
    assert(seq!['0', '1'] =~= "01"@);
    assert((uw == "01"@) == (w == seq!['0', '1'])) by {
        if w == seq!['0', '1'] {
            lemma_upper_keeps(w);
        }
        if uw == "01"@ {
            assert(w.len() == 2);
            law_ascii_case(w[0]);
            law_ascii_case(w[1]);
            assert(uw[0] == ascii_upper(w[0]) && uw[1] == ascii_upper(w[1]));
            assert(w =~= seq!['0', '1']);
        }
    }
}

proof fn lemma_upper_not_blank(s: Seq<char>)
    requires
        none_blank(s),
    ensures
        none_blank(ascii_uppercase(s)),
{
    let u = ascii_uppercase(s);
    assert forall|i: int| 0 <= i < u.len() implies !blank(#[trigger] u[i]) by {
        assert(!blank(s[i]));
        law_ascii_case(s[i]);
        assert(u[i] == ascii_upper(s[i]));
    }
}

/// An INDEX line whose second argument is no position, for want of colons, says nothing.
pub proof fn law_index_line_without_position(
    a: Seq<char>,
    k: Seq<char>,
    g: Seq<char>,
    w: Seq<char>,
    h: Seq<char>,
    p: Seq<char>,
    rest: Seq<char>,
    b: Seq<char>,
)
    requires
        all_blank(a) && all_blank(b) && all_blank(g) && all_blank(h),
        same_letters(k, "INDEX"@),
        w.len() > 0 && none_blank(w),
        h.len() > 0,
        p.len() > 0 && none_blank(p) && lacks(p, ':'),
        rest.len() > 0 ==> blank(rest[0]) && !blank(rest.last()),
        is_ascii_chars(k + seq![' '] + g + w + h + p + rest),
    ensures
        plain_command(a + (k + seq![' '] + g + w + h + p + rest) + b) == Some(CommandView::Other),
{
    lemma_index_words(a, k, g, w, h, p, rest, b);
    let up = ascii_uppercase(p);
    assert(lacks(up, ':')) by {
        assert forall|i: int| 0 <= i < up.len() implies #[trigger] up[i] != ':' by {
            assert(p[i] != ':');
            law_ascii_case(p[i]);
            assert(up[i] == ascii_upper(p[i]));
        }
    }
    law_no_position(up, up, up, up);
}

/// Whether a line starts with `keyword` and a space, in any case.
pub open spec fn has_keyword(line: Seq<char>, keyword: Seq<char>) -> bool {
    &&& keyword.len() < line.len()
    &&& same_letters(line.take(keyword.len() as int), keyword)
    &&& line[keyword.len() as int] == ' '
}

/// A line in ASCII without any of the keywords says nothing.
pub proof fn law_other_line(a: Seq<char>, line: Seq<char>, b: Seq<char>)
    requires
        all_blank(a) && all_blank(b),
        line.len() > 0 ==> !blank(line[0]) && !blank(line.last()),
        is_ascii_chars(line),
        !has_keyword(line, "FILE"@),
        !has_keyword(line, "TRACK"@),
        !has_keyword(line, "INDEX"@),
    ensures
        plain_command(a + line + b) == Some(CommandView::Other),
{
    law_trim(a, line, b);
    lemma_keywords();
    lemma_no_keyword(line, "FILE"@);
    lemma_no_keyword(line, "TRACK"@);
    lemma_no_keyword(line, "INDEX"@);
}

proof fn lemma_no_keyword(line: Seq<char>, keyword: Seq<char>)
    requires
        ascii_uppercase(keyword) == keyword,
        !has_keyword(line, keyword),
    ensures
        !occurs_at(ascii_uppercase(line), keyword + seq![' '], 0),
{
    let upper = ascii_uppercase(line);
    let n = keyword.len() as int;
    if occurs_at(upper, keyword + seq![' '], 0) {
        let start = upper.subrange(0, n + 1);
        assert(start == keyword + seq![' ']);
        assert(start[n] == ' ');
        assert(upper[n] == ' ');
        law_ascii_case(line[n]);
        assert(upper[n] == ascii_upper(line[n]));
        assert(ascii_uppercase(line.take(n)) =~= start.take(n));
        assert(start.take(n) =~= keyword);
        law_same_letters(line.take(n), keyword);
    }
}

// ---- Lines in any letters ----------------------------------------------------------------------
/// A line is read without the white space around it, by its keyword in capital letters; a blank line
/// says nothing.
pub proof fn law_line(a: Seq<char>, line: Seq<char>, b: Seq<char>)
    requires
        all_blank(a) && all_blank(b),
        line.len() > 0 ==> !blank(line[0]) && !blank(line.last()),
    ensures
        line_command(a + line + b) == (if line.len() == 0 {
            CommandView::Other
        } else {
            command(line, uppercase(line))
        }),
{
    law_trim(a, line, b);
}

/// Where the capitals of a line start with FILE, the line names the file that it quotes.
pub proof fn law_file_command(line: Seq<char>, more: Seq<char>)
    ensures
        command(line, seq!['F', 'I', 'L', 'E', ' '] + more) == CommandView::File(quoted(line)),
{
    reveal_strlit("FILE ");
    let upper = seq!['F', 'I', 'L', 'E', ' '] + more;
    assert(upper.subrange(0, 5) =~= "FILE "@);
}

/// Where the capitals of a line start with TRACK, the line begins the track whose number its second
/// word writes, digit by digit. It is an audio track where the capitals hold AUDIO.
pub proof fn law_track_command(
    k: Seq<char>,
    g: Seq<char>,
    d: Seq<nat>,
    rest: Seq<char>,
    more: Seq<char>,
)
    requires
        k.len() > 0 && none_blank(k),
        g.len() > 0 && all_blank(g),
        are_digits(d),
        rest.len() > 0 ==> blank(rest[0]),
    ensures
        ({
            let upper = seq!['T', 'R', 'A', 'C', 'K', ' '] + more;
            command(k + g + written(d) + rest, upper) == (CommandView::Track {
                number: if place_value(d) <= u32::MAX {
                    place_value(d) as u32
                } else {
                    0
                },
                audio: exists|i: int|
                    0 <= i <= upper.len() - 5 && #[trigger] upper.subrange(i, i + 5) == seq![
                        'A',
                        'U',
                        'D',
                        'I',
                        'O',
                    ],
            })
        }),
{
    reveal_strlit("FILE ");
    reveal_strlit("TRACK ");
    reveal_strlit("AUDIO");
    let upper = seq!['T', 'R', 'A', 'C', 'K', ' '] + more;
    let line = k + g + written(d) + rest;
    assert(upper[0] == 'T');
    assert(!occurs_at(upper, "FILE "@, 0)) by {
        if occurs_at(upper, "FILE "@, 0) {
            assert(upper.subrange(0, 5)[0] == 'T');
        }
    }
    assert(upper.subrange(0, 6) =~= "TRACK "@);
    lemma_written_chars(d);
    let none = Seq::<char>::empty();
    let tail = g + written(d) + rest;
    assert(line =~= none + k + tail);
    assert(blank(g[0]));
    assert(tail[0] == g[0]);
    law_first_word(none, k, tail);
    law_first_word(g, written(d), rest);
    assert(words(line) =~= seq![k, written(d)] + words(rest));
    assert(words(line)[1] == written(d));
    law_number(d, u32::MAX as nat);
    assert("AUDIO"@ =~= seq!['A', 'U', 'D', 'I', 'O']);
    let audio = exists|i: int|
        0 <= i <= upper.len() - 5 && #[trigger] upper.subrange(i, i + 5) == seq!['A', 'U', 'D', 'I', 'O'];
    assert(audio == contains_text(upper, "AUDIO"@)) by {
        if audio {
            let i = choose|i: int|
                0 <= i <= upper.len() - 5 && #[trigger] upper.subrange(i, i + 5) == seq![
                    'A',
                    'U',
                    'D',
                    'I',
                    'O',
                ];
            assert(occurs_at(upper, "AUDIO"@, i));
        }
        if contains_text(upper, "AUDIO"@) {
            let i = choose|i: int| occurs_at(upper, "AUDIO"@, i);
            assert(upper.subrange(i, i + 5) == seq!['A', 'U', 'D', 'I', 'O']);
        }
    }
}

/// Where the capitals of a line are INDEX, a word and a position, the line gives that position.
pub proof fn law_index_command(
    line: Seq<char>,
    g: Seq<char>,
    w: Seq<char>,
    h: Seq<char>,
    m: Seq<nat>,
    s: Seq<nat>,
    f: Seq<nat>,
    rest: Seq<char>,
)
    requires
        all_blank(g) && all_blank(h),
        w.len() > 0 && none_blank(w),
        h.len() > 0,
        are_digits(m) && are_digits(s) && are_digits(f),
        place_value(m) <= u64::MAX && place_value(s) <= u64::MAX && place_value(f) <= u64::MAX,
        rest.len() > 0 ==> blank(rest[0]),
    ensures
        command(
            line,
            seq!['I', 'N', 'D', 'E', 'X', ' '] + (g + w + (h + position_text(m, s, f) + rest)),
        ) == (CommandView::Index {
            first: w == seq!['0', '1'],
            position: Msf {
                minutes: place_value(m) as u64,
                seconds: place_value(s) as u64,
                frames: place_value(f) as u64,
            },
        }),
{
    reveal_strlit("FILE ");
    reveal_strlit("TRACK ");
    reveal_strlit("INDEX ");
    reveal_strlit("01");
    let p = position_text(m, s, f);
    let tail = h + p + rest;
    let arguments = g + w + tail;
    let upper = seq!['I', 'N', 'D', 'E', 'X', ' '] + arguments;
    assert(upper[0] == 'I');
    assert(!occurs_at(upper, "FILE "@, 0)) by {
        if occurs_at(upper, "FILE "@, 0) {
            assert(upper.subrange(0, 5)[0] == 'I');
        }
    }
    assert(!occurs_at(upper, "TRACK "@, 0)) by {
        if occurs_at(upper, "TRACK "@, 0) {
            assert(upper.subrange(0, 6)[0] == 'I');
        }
    }
    assert(upper.subrange(0, 6) =~= "INDEX "@);
    assert(upper.skip(6) =~= arguments);
    lemma_position_not_blank(m, s, f);
    assert(blank(h[0]));
    assert(tail[0] == h[0]);
    law_first_word(g, w, tail);
    law_first_word(h, p, rest);
    let list = words(arguments);
    assert(list =~= seq![w, p] + words(rest));
    assert(list[0] == w && list[1] == p);
    law_position(m, s, f);
    assert("01"@ =~= seq!['0', '1']);
}

proof fn lemma_position_not_blank(m: Seq<nat>, s: Seq<nat>, f: Seq<nat>)
    requires
        are_digits(m) && are_digits(s) && are_digits(f),
    ensures
        none_blank(position_text(m, s, f)),
        position_text(m, s, f).len() > 0,
{
    let p = position_text(m, s, f);
    lemma_written_chars(m);
    lemma_written_chars(s);
    lemma_written_chars(f);
    assert forall|i: int| 0 <= i < p.len() implies !blank(#[trigger] p[i]) by {
        let n = written(m).len() as int;
        let o = n + 1 + written(s).len() as int;
        if i < n {
            assert(p[i] == written(m)[i]);
        } else if n < i < o {
            assert(p[i] == written(s)[i - n - 1]);
        } else if i > o {
            assert(p[i] == written(f)[i - o - 1]);
        }
    }
}

/// Commands are seen as they are.
pub proof fn law_view_of_command(name: String, number: u32, audio: bool, first: bool, position: Msf)
    ensures
        CueCommand::File(Some(name))@ == CommandView::File(Some(name@)),
        CueCommand::File(None)@ == CommandView::File(None),
        (CueCommand::Track { number, audio })@ == (CommandView::Track { number, audio }),
        (CueCommand::Index { first, position })@ == (CommandView::Index { first, position }),
        CueCommand::Other@ == CommandView::Other,
{
}

// ---- Sheets ------------------------------------------------------------------------------------
/// A sheet has one command for each of its lines. Once the sheet has been read, a line that reads
/// plainly means what it says.
pub proof fn law_plain_lines(text: Seq<char>, i: int, c: CommandView)
    requires
        plainly_read(text),
        0 <= i < lines(text).len(),
        plain_command(lines(text)[i]) == Some(c),
    ensures
        commands(text).len() == lines(text).len(),
        commands(text)[i] == c,
{
}

/// There is one command for each line.
pub proof fn law_commands_of_lines(text: Seq<char>)
    ensures
        commands(text).len() == lines(text).len(),
{
}

/// A list of commands is seen as it is.
pub proof fn law_command_views(list: Seq<CueCommand>, i: int)
    requires
        0 <= i < list.len(),
    ensures
        command_views(list).len() == list.len(),
        command_views(list)[i] == list[i]@,
{
}

/// Every quoted FILE name counts, and nothing else does; the names come in the order of the lines.
pub proof fn law_file_names(a: Seq<CommandView>, c: CommandView)
    ensures
        file_names(Seq::<CommandView>::empty()).len() == 0,
        file_names(a.push(c)) == (match c {
            CommandView::File(Some(name)) => file_names(a).push(name),
            _ => file_names(a),
        }),
{
    assert(a.push(c).drop_last() =~= a);
}

} // verus!
