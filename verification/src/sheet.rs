//! The text of a .cue sheet, read line by line into commands.
use vstd::prelude::*;
use vstd::slice::slice_subrange;
use vstd::string::StrSliceExecFns;
use vstd::utf8::is_ascii_chars;
use crate::names::texts;
use crate::text::{
    ascii_uppercase, chars_of, contains_text, field_len, fields, lemma_trim_ascii, lines,
    next_field, next_word, number, number_u32, number_u64, occurs_at, position_of, quoted, same_chars,
    stands_at, string_of, to_uppercase, trim, trimmed, uppercase, words,
};

verus! {

/// A position on a disc in minutes, seconds and frames, as a cue sheet writes it.
#[derive(Debug, Clone, Copy, PartialEq, Eq, Structural)]
pub struct Msf {
    pub minutes: u64,
    pub seconds: u64,
    pub frames: u64,
}

impl Msf {
    /// The position in sectors: 75 frames, of a sector each, make a second.
    pub open spec fn sectors(self) -> nat {
        ((self.minutes * 60 + self.seconds) * 75 + self.frames) as nat
    }

    /// The position in sectors, where it fits in a `u64`.
    pub fn checked_sectors(&self) -> (sectors: Option<u64>)
        ensures
            match sectors {
                Some(n) => n == self.sectors(),
                None => self.sectors() > u64::MAX,
            },
    {
        let whole: u128 = (self.minutes as u128 * 60 + self.seconds as u128) * 75 + self.frames as u128;
        if whole <= u64::MAX as u128 {
            Some(whole as u64)
        } else {
            None
        }
    }

    /// The position in sectors.
    pub fn to_sectors(&self) -> (sectors: u64)
        requires
            self.sectors() <= u64::MAX,
        ensures
            sectors == self.sectors(),
    {
        (self.minutes * 60 + self.seconds) * 75 + self.frames
    }
}

/// The position that `s` writes as three numbers with colons between them.
pub open spec fn msf(s: Seq<char>) -> Option<Msf> {
    let parts = fields(s, ':');
    if parts.len() == 3 {
        match (
            number(parts[0], u64::MAX as nat),
            number(parts[1], u64::MAX as nat),
            number(parts[2], u64::MAX as nat),
        ) {
            (Some(m), Some(s), Some(f)) => Some(
                Msf { minutes: m as u64, seconds: s as u64, frames: f as u64 },
            ),
            _ => None,
        }
    } else {
        None
    }
}

/// What one line of a cue sheet says.
#[derive(Debug)]
pub enum CueCommand {
    /// The data file that the tracks after it lie in; its name, where the line quotes one.
    File(Option<String>),
    /// A track begins. A number that cannot be read is 0.
    Track { number: u32, audio: bool },
    /// A position in the current track; `first` marks index 01, where the track's sound begins.
    Index { first: bool, position: Msf },
    /// Anything else.
    Other,
}

/// A command with its text as a sequence of characters.
pub enum CommandView {
    File(Option<Seq<char>>),
    Track { number: u32, audio: bool },
    Index { first: bool, position: Msf },
    Other,
}

impl View for CueCommand {
    type V = CommandView;

    open spec fn view(&self) -> CommandView {
        match *self {
            CueCommand::File(Some(name)) => CommandView::File(Some(name@)),
            CueCommand::File(None) => CommandView::File(None),
            CueCommand::Track { number, audio } => CommandView::Track { number, audio },
            CueCommand::Index { first, position } => CommandView::Index { first, position },
            CueCommand::Other => CommandView::Other,
        }
    }
}

/// The track number in a TRACK line: its second word, or 0 where that is no number.
pub open spec fn track_argument(line: Seq<char>) -> u32 {
    if words(line).len() > 1 {
        match number(words(line)[1], u32::MAX as nat) {
            Some(n) => n as u32,
            None => 0,
        }
    } else {
        0
    }
}

/// What an INDEX line says, given the words behind its keyword.
pub open spec fn index_command(arguments: Seq<Seq<char>>) -> CommandView {
    if arguments.len() >= 2 {
        match msf(arguments[1]) {
            Some(position) => CommandView::Index { first: arguments[0] == "01"@, position },
            None => CommandView::Other,
        }
    } else {
        CommandView::Other
    }
}

/// What a line says, given the line without the white space around it and the same in capital
/// letters.
pub open spec fn command(line: Seq<char>, upper: Seq<char>) -> CommandView {
    if occurs_at(upper, "FILE "@, 0) {
        CommandView::File(quoted(line))
    } else if occurs_at(upper, "TRACK "@, 0) {
        CommandView::Track {
            number: track_argument(line),
            audio: contains_text(upper, "AUDIO"@),
        }
    } else if occurs_at(upper, "INDEX "@, 0) {
        index_command(words(upper.skip("INDEX "@.len() as int)))
    } else {
        CommandView::Other
    }
}

/// What a raw line of a sheet says. A line may end in a carriage return: it is white space. A blank
/// line says nothing.
pub open spec fn line_command(line: Seq<char>) -> CommandView {
    if trim(line).len() == 0 {
        CommandView::Other
    } else {
        command(trim(line), uppercase(trim(line)))
    }
}

/// What a raw line says, where capital letters beyond ASCII play no part in it: a line in ASCII, or
/// any FILE line.
pub open spec fn plain_command(line: Seq<char>) -> Option<CommandView> {
    if is_ascii_chars(trim(line)) {
        Some(command(trim(line), ascii_uppercase(trim(line))))
    } else if occurs_at(ascii_uppercase(trim(line)), "FILE "@, 0) {
        Some(CommandView::File(quoted(trim(line))))
    } else {
        None
    }
}

/// The commands of a sheet, one for each line.
pub open spec fn commands(text: Seq<char>) -> Seq<CommandView> {
    lines(text).map_values(|line: Seq<char>| line_command(line))
}

/// The commands of a sheet in ASCII, where capital letters need no table.
pub open spec fn ascii_commands(text: Seq<char>) -> Seq<CommandView> {
    lines(text).map_values(
        |line: Seq<char>| command(trim(line), ascii_uppercase(trim(line))),
    )
}

/// Whether the lines of a sheet that can be read without capital letters beyond ASCII say what they
/// say in ASCII.
pub open spec fn plainly_read(text: Seq<char>) -> bool {
    &&& forall|i: int|
        0 <= i < lines(text).len() ==> (plain_command(#[trigger] lines(text)[i]) matches Some(c)
            ==> commands(text)[i] == c)
    &&& is_ascii_chars(text) ==> commands(text) == ascii_commands(text)
}

pub open spec fn command_views(commands: Seq<CueCommand>) -> Seq<CommandView> {
    commands.map_values(|c: CueCommand| c@)
}

/// The names that the FILE lines quote, in order.
pub open spec fn file_names(commands: Seq<CommandView>) -> Seq<Seq<char>>
    decreases commands.len(),
{
    if commands.len() == 0 {
        Seq::empty()
    } else {
        let before = file_names(commands.drop_last());
        match commands.last() {
            CommandView::File(Some(name)) => before.push(name),
            _ => before,
        }
    }
}

/// The position that `s` writes as three numbers with colons between them.
pub fn parse_msf(s: &[char]) -> (position: Option<Msf>)
    ensures
        position == msf(s@),
{
    let (first, rest) = next_field(s, ':');
    let rest = match rest {
        Some(rest) => rest,
        None => {
            return None;
        },
    };
    let (second, last) = next_field(rest, ':');
    let last = match last {
        Some(last) => last,
        None => {
            return None;
        },
    };
    let (third, more) = next_field(last, ':');
    if more.is_some() {
        return None;
    }
    proof {
        assert(fields(s@, ':') =~= seq![first@, second@, third@]);
    }
    match (number_u64(first), number_u64(second), number_u64(third)) {
        (Some(minutes), Some(seconds), Some(frames)) => Some(Msf { minutes, seconds, frames }),
        _ => None,
    }
}

/// The number of sectors that a position such as `03:20:15` writes.
pub fn msf_to_sectors(s: &str) -> (sectors: Option<u64>)
    requires
        msf(s@) matches Some(position) ==> position.sectors() <= u64::MAX,
    ensures
        match msf(s@) {
            Some(position) => sectors matches Some(n) && n == position.sectors(),
            None => sectors is None,
        },
{
    match parse_msf(&chars_of(s)) {
        Some(position) => Some(position.to_sectors()),
        None => None,
    }
}

/// The text between the first two double quotes of `line`.
pub fn extract_quoted(line: &str) -> (name: Option<&str>)
    ensures
        match name {
            Some(n) => quoted(line@) == Some(n@),
            None => quoted(line@) is None,
        },
{
    let chars = chars_of(line);
    let (before, inner) = next_field(&chars, '"');
    match inner {
        Some(inner) => {
            let (name, after) = next_field(inner, '"');
            match after {
                Some(_) => {
                    assert(before@.len() < chars.len());
                    let from: usize = before.len() + 1;
                    assert(from + name@.len() <= chars.len());
                    let to: usize = from + name.len();
                    assert(line@.subrange(from as int, to as int) =~= inner@.take(name@.len() as int));
                    Some(line.substring_char(from, to))
                },
                None => None,
            }
        },
        None => None,
    }
}

/// Whether `s` starts with `keyword`.
fn starts_with(s: &[char], keyword: &str) -> (yes: bool)
    ensures
        yes == occurs_at(s@, keyword@, 0),
{
    stands_at(s, &chars_of(keyword), 0)
}

/// The track number in a TRACK line.
fn parse_track_argument(line: &[char]) -> (n: u32)
    ensures
        n == track_argument(line@),
{
    if let Some((keyword, rest)) = next_word(line) {
        if let Some((argument, more)) = next_word(rest) {
            assert(words(line@) =~= seq![keyword@, argument@] + words(more@));
            return match number_u32(argument) {
                Some(n) => n,
                None => 0,
            };
        }
        assert(words(line@) =~= seq![keyword@]);
    }
    0
}

/// What an INDEX line says, given what stands behind its keyword.
fn parse_index(rest: &[char]) -> (c: CueCommand)
    ensures
        c@ == index_command(words(rest@)),
{
    if let Some((index, rest)) = next_word(rest) {
        if let Some((position, more)) = next_word(rest) {
            proof {
                assert(words(rest@) =~= seq![position@] + words(more@));
                let all = seq![index@] + words(rest@);
                assert(all[0] == index@);
                assert(all[1] == position@);
            }
            return match parse_msf(position) {
                Some(position) => CueCommand::Index { first: same_chars(index, &chars_of("01")), position },
                None => CueCommand::Other,
            };
        }
    }
    CueCommand::Other
}

/// What a line says, given the line without the white space around it and the same in capital
/// letters.
pub fn parse_line(line: &str, upper: &str) -> (c: CueCommand)
    ensures
        c@ == command(line@, upper@),
{
    let capitals = chars_of(upper);
    if starts_with(&capitals, "FILE ") {
        match extract_quoted(line) {
            Some(name) => CueCommand::File(Some(name.to_owned())),
            None => CueCommand::File(None),
        }
    } else if starts_with(&capitals, "TRACK ") {
        let audio = position_of(&capitals, &chars_of("AUDIO")).is_some();
        CueCommand::Track { number: parse_track_argument(&chars_of(line)), audio }
    } else if starts_with(&capitals, "INDEX ") {
        let keyword = chars_of("INDEX ");
        let rest = slice_subrange(&capitals, keyword.len(), capitals.len());
        assert(rest@ =~= upper@.skip(keyword@.len() as int));
        parse_index(rest)
    } else {
        CueCommand::Other
    }
}

/// A text of ASCII characters has lines of ASCII characters.
proof fn lemma_lines_ascii(s: Seq<char>)
    requires
        is_ascii_chars(s),
    ensures
        forall|i: int| 0 <= i < lines(s).len() ==> is_ascii_chars(#[trigger] lines(s)[i]),
    decreases s.len(),
{
    if s.len() > 0 {
        let n = field_len(s, '\n') as int;
        if n < s.len() {
            let rest = lines(s.skip(n + 1));
            lemma_lines_ascii(s.skip(n + 1));
            assert(is_ascii_chars(s.take(n)));
            assert forall|i: int| 0 <= i < lines(s).len() implies is_ascii_chars(#[trigger] lines(s)[i]) by {
                if i > 0 {
                    assert(lines(s)[i] == rest[i - 1]);
                }
            }
        }
    }
}

proof fn lemma_plain_ascii(text: Seq<char>)
    requires
        forall|i: int|
            0 <= i < lines(text).len() ==> (plain_command(#[trigger] lines(text)[i]) matches Some(c)
                ==> commands(text)[i] == c),
    ensures
        plainly_read(text),
{
    if is_ascii_chars(text) {
        lemma_lines_ascii(text);
        assert forall|i: int| 0 <= i < lines(text).len() implies commands(text)[i]
            == ascii_commands(text)[i] by {
            lemma_trim_ascii(lines(text)[i]);
            assert(plain_command(lines(text)[i]) is Some);
        }
        assert(commands(text) =~= ascii_commands(text));
    }
}

/// What the capital letters of a trimmed line tell of it.
proof fn lemma_plain_line(raw_line: Seq<char>, upper: Seq<char>)
    requires
        upper == uppercase(trim(raw_line)),
        is_ascii_chars(trim(raw_line)) ==> upper == ascii_uppercase(trim(raw_line)),
        forall|n: int|
            0 <= n <= trim(raw_line).len() && is_ascii_chars(#[trigger] trim(raw_line).take(n)) ==> n
                <= upper.len() && upper.take(n) == ascii_uppercase(trim(raw_line).take(n)),
    ensures
        line_command(raw_line) == command(trim(raw_line), upper),
        plain_command(raw_line) matches Some(c) ==> line_command(raw_line) == c,
{
    let line = trim(raw_line);
    reveal_strlit("FILE ");
    reveal_strlit("TRACK ");
    reveal_strlit("INDEX ");
    if line.len() > 0 && occurs_at(ascii_uppercase(line), "FILE "@, 0) {
        let keyword = line.take(5);
        assert(ascii_uppercase(keyword) =~= ascii_uppercase(line).subrange(0, 5));
        assert forall|i: int| 0 <= i < keyword.len() implies '\0' <= #[trigger] keyword[i] <= '\u{7f}' by {
            assert(ascii_uppercase(keyword)[i] == "FILE "@[i]);
        }
        assert(upper.subrange(0, 5) =~= upper.take(5));
    }
}

/// The commands of a sheet, one for each line.
pub fn parse_commands(text: &str) -> (list: Vec<CueCommand>)
    ensures
        command_views(list@) == commands(text@),
        plainly_read(text@),
{
    let ghost read = |line: Seq<char>| line_command(line);
    let ghost mut done: Seq<Seq<char>> = Seq::empty();
    let chars = chars_of(text);
    let mut list: Vec<CueCommand> = Vec::new();
    let mut rest: &[char] = &chars;
    proof {
        assert(done + lines(rest@) =~= lines(text@));
        assert(command_views(list@) =~= done.map_values(read));
    }
    while rest.len() > 0
        invariant
            read == (|line: Seq<char>| line_command(line)),
            lines(text@) == done + lines(rest@),
            command_views(list@) == done.map_values(read),
            forall|i: int|
                0 <= i < done.len() ==> (plain_command(#[trigger] done[i]) matches Some(c)
                    ==> line_command(done[i]) == c),
        decreases rest@.len(),
    {
        let (raw_line, after) = next_field(rest, '\n');
        let line = string_of(trimmed(raw_line));
        let upper = to_uppercase(&line);
        let ghost before = command_views(list@);
        list.push(parse_line(&line, &upper));
        let next = match after {
            Some(more) => more,
            None => slice_subrange(rest, rest.len(), rest.len()),
        };
        proof {
            lemma_plain_line(raw_line@, upper@);
            assert(command_views(list@) =~= before.push(list@.last()@));
            assert(lines(rest@) =~= seq![raw_line@] + lines(next@));
            assert(done + (seq![raw_line@] + lines(next@)) =~= done.push(raw_line@) + lines(next@));
            assert(done.push(raw_line@).map_values(read) =~= done.map_values(read).push(
                line_command(raw_line@),
            ));
            done = done.push(raw_line@);
        }
        rest = next;
    }
    proof {
        assert(done + lines(rest@) =~= done);
        assert forall|i: int| 0 <= i < lines(text@).len() implies (plain_command(
            #[trigger] lines(text@)[i],
        ) matches Some(c) ==> commands(text@)[i] == c) by {
            assert(lines(text@)[i] == done[i]);
        }
        lemma_plain_ascii(text@);
    }
    list
}

/// The names that the FILE lines of a sheet quote, in order.
pub fn cue_files(text: &str) -> (names: Vec<String>)
    ensures
        texts(names@) == file_names(commands(text@)),
        plainly_read(text@),
{
    let list = parse_commands(text);
    let ghost all = command_views(list@);
    let mut names: Vec<String> = Vec::new();
    let mut i: usize = 0;
    assert(texts(names@) =~= file_names(all.take(0)));
    while i < list.len()
        invariant
            i <= list@.len(),
            all == command_views(list@),
            texts(names@) == file_names(all.take(i as int)),
        decreases list@.len() - i,
    {
        let ghost before = names@;
        match &list[i] {
            CueCommand::File(Some(name)) => {
                names.push(name.clone());
                assert(texts(names@) =~= texts(before).push(name@));
            },
            _ => {},
        }
        proof {
            assert(all.take(i + 1).drop_last() =~= all.take(i as int));
            assert(all.take(i + 1).last() == list@[i as int]@);
        }
        i = i + 1;
    }
    assert(all.take(i as int) =~= all);
    names
}

} // verus!
