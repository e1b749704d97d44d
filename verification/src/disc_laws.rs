//! What the tracks of a disc are, in numbers.
use vstd::prelude::*;
use vstd::utf8::is_ascii_chars;
use crate::cue::{SECTOR_BYTES, Track};
use crate::disc::{
    disc_start, holds_track, index01_before, laid_out, lemma_files_ascend, lemma_listing_is_read,
    lemma_starts_grow, place_fits, placed, reading, resolution, shares_file, sheet_fits,
    sheet_listing, sheet_tracks, Listed, Reading, ResolvedBin,
};
use crate::laws::{
    bin_block, bin_track, bin_tracks, disc_size, files_size, law_multi_bin_sheet,
    lemma_joined_listing, lemma_joined_starts, lemma_origin, multi_bin, origin,
};
use crate::sheet::{commands, file_names, plain_command, plainly_read, CommandView, Msf};
use crate::sheet_laws::{
    law_commands_of_lines, law_file_line, law_index_line, law_plain_lines, law_track_line,
    mentions_audio, position_text,
};
use crate::text::lines;
use crate::text_laws::{are_digits, lacks, law_first_line, place_value, same_letters, written};

verus! {

/// What a sheet says of one track.
pub struct TrackLines {
    pub number: u32,
    pub audio: bool,
    pub minutes: u64,
    pub seconds: u64,
    pub frames: u64,
}

impl TrackLines {
    /// The INDEX 01 position in sectors.
    pub open spec fn position(self) -> nat {
        (4500 * self.minutes + 75 * self.seconds + self.frames) as nat
    }

    pub open spec fn track_line(self) -> CommandView {
        CommandView::Track { number: self.number, audio: self.audio }
    }

    pub open spec fn index_line(self) -> CommandView {
        CommandView::Index {
            first: true,
            position: Msf { minutes: self.minutes, seconds: self.seconds, frames: self.frames },
        }
    }
}

// ---- One track in each file --------------------------------------------------------------------
/// A sheet that gives each file one track: FILE, TRACK and INDEX 01 lines in turn.
pub open spec fn one_track_each(names: Seq<Seq<char>>, tracks: Seq<TrackLines>) -> Seq<CommandView> {
    Seq::new(
        3 * tracks.len(),
        |j: int|
            if j % 3 == 0 {
                CommandView::File(Some(names[j / 3]))
            } else if j % 3 == 1 {
                tracks[j / 3].track_line()
            } else {
                tracks[j / 3].index_line()
            },
    )
}

/// The sectors of the first `n` files.
pub open spec fn sectors_before(files: Seq<ResolvedBin>, n: int) -> nat
    decreases n,
{
    if n <= 0 {
        0
    } else {
        sectors_before(files, n - 1) + files[n - 1].size_sectors as nat
    }
}

pub open spec fn all_resolved(files: Seq<ResolvedBin>) -> Seq<Option<ResolvedBin>> {
    files.map_values(|f: ResolvedBin| Some(f))
}

/// Where a track that has a file to itself lies, if the file starts at sector `start`.
pub open spec fn alone_in_file(t: TrackLines, file: ResolvedBin, start: nat) -> Track {
    Track {
        number: t.number,
        bin_path: file.bin_path,
        bin_zip: file.bin_zip,
        bin_audio_offset: (t.position() * 2352) as u64,
        abs_sector: (start + t.position()) as u64,
        sectors: if t.position() < file.size_sectors {
            (file.size_sectors - t.position()) as u64
        } else {
            0
        },
        cdg_path: file.cdg_path,
        cdg_zip: file.cdg_zip,
    }
}

/// The audio tracks among the first `n`, each behind all files before its own.
pub open spec fn each_alone(tracks: Seq<TrackLines>, files: Seq<ResolvedBin>, n: int) -> Seq<Track>
    decreases n,
{
    if n <= 0 {
        Seq::empty()
    } else if tracks[n - 1].audio {
        each_alone(tracks, files, n - 1).push(
            alone_in_file(tracks[n - 1], files[n - 1], sectors_before(files, n - 1)),
        )
    } else {
        each_alone(tracks, files, n - 1)
    }
}

/// A sheet that gives each of its files one track, with any number but 0, has exactly the audio
/// tracks among these, in order. A track keeps its number; it starts at its INDEX 01 behind the
/// sectors of all files before its own, and reaches to the end of its file.
pub proof fn law_one_track_each(
    names: Seq<Seq<char>>,
    tracks: Seq<TrackLines>,
    files: Seq<ResolvedBin>,
)
    requires
        names.len() == tracks.len(),
        files.len() == tracks.len(),
        forall|i: int| 0 <= i < tracks.len() ==> (#[trigger] tracks[i]).number != 0,
    ensures
        sheet_tracks(one_track_each(names, tracks), all_resolved(files)) == each_alone(
            tracks,
            files,
            tracks.len() as int,
        ),
{
    let k = tracks.len() as int;
    let list = one_track_each(names, tracks);
    let resolved = all_resolved(files);
    let at = Seq::new((k + 1) as nat, |i: int| 3 * i);
    let starts = Seq::new(k as nat, |i: int| 3 * i + 1);
    assert forall|i: int| 0 <= i < k implies #[trigger] bin_block(list, resolved, at, starts, i) by {
        assert(at[i] == 3 * i && at[i + 1] == 3 * i + 3 && starts[i] == 3 * i + 1);
        assert(list[3 * i] == CommandView::File(Some(names[i])));
        assert(list[3 * i + 1] == tracks[i].track_line());
        assert(list[3 * i + 2] == tracks[i].index_line());
        assert(tracks[i].number != 0);
    }
    assert(at.last() == 3 * k);
    assert(multi_bin(list, resolved, at, starts));
    law_multi_bin_sheet(list, resolved, at, starts);
    lemma_each_alone(names, tracks, files, k);
}

proof fn lemma_each_alone(
    names: Seq<Seq<char>>,
    tracks: Seq<TrackLines>,
    files: Seq<ResolvedBin>,
    n: int,
)
    requires
        0 <= n <= tracks.len(),
        files.len() == tracks.len(),
    ensures
        ({
            let k = tracks.len() as int;
            let list = one_track_each(names, tracks);
            let at = Seq::new((k + 1) as nat, |i: int| 3 * i);
            let starts = Seq::new(k as nat, |i: int| 3 * i + 1);
            bin_tracks(list, all_resolved(files), at, starts, n) == each_alone(tracks, files, n)
        }),
        files_size(all_resolved(files), n) == sectors_before(files, n),
    decreases n,
{
    if n > 0 {
        lemma_each_alone(names, tracks, files, n - 1);
        let k = tracks.len() as int;
        let i = n - 1;
        let list = one_track_each(names, tracks);
        let resolved = all_resolved(files);
        let at = Seq::new((k + 1) as nat, |i: int| 3 * i);
        let starts = Seq::new(k as nat, |i: int| 3 * i + 1);
        assert(at[i + 1] == 3 * i + 3 && starts[i] == 3 * i + 1);
        assert(list[3 * i + 1] == tracks[i].track_line());
        assert(list[3 * i + 2] == tracks[i].index_line());
        assert(resolved[i] == Some(files[i]));
        let p = Msf {
            minutes: tracks[i].minutes,
            seconds: tracks[i].seconds,
            frames: tracks[i].frames,
        };
        assert(index01_before(list, 3 * i + 3) == Some(p));
        assert(p.sectors() == tracks[i].position());
        assert(bin_track(list, resolved, at, starts, i) == alone_in_file(
            tracks[i],
            files[i],
            sectors_before(files, i),
        ));
    }
}

// ---- A sheet as text ---------------------------------------------------------------------------
/// What stands in a sheet for a file with one audio track, digit by digit.
pub struct FileLines {
    pub name: Seq<char>,
    pub number: Seq<nat>,
    pub minutes: Seq<nat>,
    pub seconds: Seq<nat>,
    pub frames: Seq<nat>,
}

impl FileLines {
    /// Whether a name that can be quoted and numbers that are not too large are written.
    pub open spec fn is_valid(self) -> bool {
        &&& lacks(self.name, '"') && lacks(self.name, '\n')
        &&& are_digits(self.number) && 0 < place_value(self.number) <= u32::MAX
        &&& are_digits(self.minutes) && place_value(self.minutes) <= u64::MAX
        &&& are_digits(self.seconds) && place_value(self.seconds) <= u64::MAX
        &&& are_digits(self.frames) && place_value(self.frames) <= u64::MAX
    }

    pub open spec fn file_line(self) -> Seq<char> {
        "FILE \""@ + self.name + "\" BINARY"@
    }

    pub open spec fn track_line(self) -> Seq<char> {
        "TRACK "@ + written(self.number) + " AUDIO"@
    }

    pub open spec fn index_line(self) -> Seq<char> {
        "INDEX 01 "@ + position_text(self.minutes, self.seconds, self.frames)
    }

    /// What is said of the track, in numbers.
    pub open spec fn track(self) -> TrackLines {
        TrackLines {
            number: place_value(self.number) as u32,
            audio: true,
            minutes: place_value(self.minutes) as u64,
            seconds: place_value(self.seconds) as u64,
            frames: place_value(self.frames) as u64,
        }
    }
}

/// The text of a sheet with one audio track in each file.
pub open spec fn sheet_text(blocks: Seq<FileLines>) -> Seq<char>
    decreases blocks.len(),
{
    if blocks.len() == 0 {
        Seq::empty()
    } else {
        blocks[0].file_line() + seq!['\n'] + (blocks[0].track_line() + seq!['\n'] + (
        blocks[0].index_line() + seq!['\n'] + sheet_text(blocks.drop_first())))
    }
}

proof fn lemma_block_lines(b: FileLines)
    requires
        b.is_valid(),
    ensures
        lacks(b.file_line(), '\n'),
        lacks(b.track_line(), '\n'),
        lacks(b.index_line(), '\n'),
{
    reveal_strlit("FILE \"");
    reveal_strlit("\" BINARY");
    reveal_strlit("TRACK ");
    reveal_strlit(" AUDIO");
    reveal_strlit("INDEX 01 ");
    lemma_digits_only(b.number);
    lemma_position_chars(b.minutes, b.seconds, b.frames);
    lemma_lacks_join("FILE \""@, b.name, '\n');
    lemma_lacks_join("FILE \""@ + b.name, "\" BINARY"@, '\n');
    lemma_lacks_join("TRACK "@, written(b.number), '\n');
    lemma_lacks_join("TRACK "@ + written(b.number), " AUDIO"@, '\n');
    lemma_lacks_join("INDEX 01 "@, position_text(b.minutes, b.seconds, b.frames), '\n');
}

proof fn lemma_lacks_join(a: Seq<char>, b: Seq<char>, c: char)
    requires
        lacks(a, c),
        lacks(b, c),
    ensures
        lacks(a + b, c),
{
    assert forall|i: int| 0 <= i < (a + b).len() implies #[trigger] (a + b)[i] != c by {
        if i < a.len() {
            assert(a[i] != c);
        } else {
            assert(b[i - a.len()] != c);
        }
    }
}

proof fn lemma_digits_only(d: Seq<nat>)
    requires
        are_digits(d),
    ensures
        forall|i: int| 0 <= i < written(d).len() ==> '0' <= #[trigger] written(d)[i] <= '9',
        lacks(written(d), '\n'),
        is_ascii_chars(written(d)),
{
    assert forall|i: int| 0 <= i < written(d).len() implies '0' <= #[trigger] written(d)[i] <= '9' by {
        assert(d[i] < 10);
    }
}

proof fn lemma_position_chars(m: Seq<nat>, s: Seq<nat>, f: Seq<nat>)
    requires
        are_digits(m) && are_digits(s) && are_digits(f),
    ensures
        lacks(position_text(m, s, f), '\n'),
        is_ascii_chars(position_text(m, s, f)),
{
    lemma_digits_only(m);
    lemma_digits_only(s);
    lemma_digits_only(f);
    lemma_lacks_join(written(m), seq![':'], '\n');
    lemma_lacks_join(written(m) + seq![':'], written(s), '\n');
    lemma_lacks_join(written(m) + seq![':'] + written(s), seq![':'], '\n');
    lemma_lacks_join(written(m) + seq![':'] + written(s) + seq![':'], written(f), '\n');
    lemma_ascii_join(written(m), seq![':']);
    lemma_ascii_join(written(m) + seq![':'], written(s));
    lemma_ascii_join(written(m) + seq![':'] + written(s), seq![':']);
    lemma_ascii_join(written(m) + seq![':'] + written(s) + seq![':'], written(f));
}

proof fn lemma_ascii_join(a: Seq<char>, b: Seq<char>)
    requires
        is_ascii_chars(a),
        is_ascii_chars(b),
    ensures
        is_ascii_chars(a + b),
{
}

/// The lines of such a text.
proof fn lemma_sheet_lines(blocks: Seq<FileLines>, i: int)
    requires
        forall|j: int| 0 <= j < blocks.len() ==> (#[trigger] blocks[j]).is_valid(),
        0 <= i < blocks.len(),
    ensures
        lines(sheet_text(blocks)).len() == 3 * blocks.len(),
        lines(sheet_text(blocks))[3 * i] == blocks[i].file_line(),
        lines(sheet_text(blocks))[3 * i + 1] == blocks[i].track_line(),
        lines(sheet_text(blocks))[3 * i + 2] == blocks[i].index_line(),
    decreases blocks.len(),
{
    let b = blocks[0];
    let rest = blocks.drop_first();
    assert(blocks[0].is_valid());
    lemma_block_lines(b);
    let t3 = sheet_text(rest);
    let t2 = b.index_line() + seq!['\n'] + t3;
    let t1 = b.track_line() + seq!['\n'] + t2;
    law_first_line(b.file_line(), t1);
    law_first_line(b.track_line(), t2);
    law_first_line(b.index_line(), t3);
    assert forall|j: int| 0 <= j < rest.len() implies (#[trigger] rest[j]).is_valid() by {
        assert(blocks[j + 1].is_valid());
    }
    let all = lines(sheet_text(blocks));
    assert(all =~= seq![b.file_line(), b.track_line(), b.index_line()] + lines(t3));
    if rest.len() == 0 {
        assert(t3 =~= Seq::empty());
        assert(lines(t3).len() == 0);
    } else if i == 0 {
        lemma_sheet_lines(rest, 0);
    } else {
        lemma_sheet_lines(rest, i - 1);
        assert(all[3 * i] == lines(t3)[3 * (i - 1)]);
        assert(all[3 * i + 1] == lines(t3)[3 * (i - 1) + 1]);
        assert(all[3 * i + 2] == lines(t3)[3 * (i - 1) + 2]);
        assert(rest[i - 1] == blocks[i]);
    }
}

proof fn lemma_file_line_read(b: FileLines)
    requires
        b.is_valid(),
    ensures
        plain_command(b.file_line()) == Some(CommandView::File(Some(b.name))),
{
    let none = Seq::<char>::empty();
    reveal_strlit("FILE \"");
    reveal_strlit("\" BINARY");
    reveal_strlit("FILE");
    reveal_strlit(" BINARY");
    law_file_line(none, "FILE"@, none, b.name, " BINARY"@, none);
    assert(b.file_line() =~= none + ("FILE"@ + seq![' '] + none + seq!['"'] + b.name + seq!['"']
        + " BINARY"@) + none);
}

proof fn lemma_track_line_read(b: FileLines)
    requires
        b.is_valid(),
    ensures
        plain_command(b.track_line()) == Some(b.track().track_line()),
{
    let none = Seq::<char>::empty();
    reveal_strlit("TRACK ");
    reveal_strlit(" AUDIO");
    reveal_strlit("TRACK");
    reveal_strlit("AUDIO");
    let d = written(b.number);
    let line = "TRACK"@ + seq![' '] + none + d + " AUDIO"@;
    assert(b.track_line() =~= none + line + none);
    lemma_digits_only(b.number);
    lemma_ascii_join("TRACK"@, seq![' ']);
    lemma_ascii_join("TRACK"@ + seq![' '], none);
    lemma_ascii_join("TRACK"@ + seq![' '] + none, d);
    lemma_ascii_join("TRACK"@ + seq![' '] + none + d, " AUDIO"@);
    law_track_line(none, "TRACK"@, none, b.number, " AUDIO"@, none);
    let at = line.len() - 5;
    assert(line.subrange(at, at + 5) =~= "AUDIO"@);
    assert(same_letters(line.subrange(at, at + 5), "AUDIO"@));
    assert(mentions_audio(line));
}

proof fn lemma_index_line_read(b: FileLines)
    requires
        b.is_valid(),
    ensures
        plain_command(b.index_line()) == Some(b.track().index_line()),
{
    let none = Seq::<char>::empty();
    reveal_strlit("INDEX 01 ");
    reveal_strlit("INDEX");
    let w = seq!['0', '1'];
    let h = seq![' '];
    let p = position_text(b.minutes, b.seconds, b.frames);
    let start = "INDEX"@ + seq![' '] + none + w + h;
    let line = start + p + none;
    assert(start =~= "INDEX 01 "@);
    assert(b.index_line() =~= none + line + none);
    lemma_position_chars(b.minutes, b.seconds, b.frames);
    lemma_ascii_join(start, p);
    assert(line =~= start + p);
    law_index_line(none, "INDEX"@, none, w, h, b.minutes, b.seconds, b.frames, none, none);
}

/// A sheet in text, with a file for each track, is read as it is written, digit by digit: its tracks
/// have the numbers that the TRACK lines write and start at the positions that the INDEX 01 lines
/// write, behind the sectors of all files before.
pub proof fn law_sheet_text(blocks: Seq<FileLines>, files: Seq<ResolvedBin>)
    requires
        forall|j: int| 0 <= j < blocks.len() ==> (#[trigger] blocks[j]).is_valid(),
        files.len() == blocks.len(),
        plainly_read(sheet_text(blocks)),
    ensures
        file_names(commands(sheet_text(blocks))) == blocks.map_values(|b: FileLines| b.name),
        sheet_tracks(commands(sheet_text(blocks)), all_resolved(files)).len() == blocks.len(),
        forall|i: int|
            0 <= i < blocks.len() ==> #[trigger] sheet_tracks(
                commands(sheet_text(blocks)),
                all_resolved(files),
            )[i] == alone_in_file(blocks[i].track(), files[i], sectors_before(files, i)),
{
    let text = sheet_text(blocks);
    let names = blocks.map_values(|b: FileLines| b.name);
    let tracks = blocks.map_values(|b: FileLines| b.track());
    let k = tracks.len() as int;
    lemma_text_commands(blocks);
    assert forall|i: int| 0 <= i < tracks.len() implies (#[trigger] tracks[i]).number != 0 by {
        assert(blocks[i].is_valid());
    }
    law_one_track_each(names, tracks, files);
    lemma_all_audio(tracks, files, k);
    lemma_names_of_list(names, tracks, k);
    assert(one_track_each(names, tracks).take(3 * k) =~= one_track_each(names, tracks));
    assert(names.take(k) =~= names);
}

proof fn lemma_text_command(blocks: Seq<FileLines>, i: int)
    requires
        forall|j: int| 0 <= j < blocks.len() ==> (#[trigger] blocks[j]).is_valid(),
        plainly_read(sheet_text(blocks)),
        0 <= i < blocks.len(),
    ensures
        ({
            let list = commands(sheet_text(blocks));
            &&& list.len() == 3 * blocks.len()
            &&& list[3 * i] == CommandView::File(Some(blocks[i].name))
            &&& list[3 * i + 1] == blocks[i].track().track_line()
            &&& list[3 * i + 2] == blocks[i].track().index_line()
        }),
{
    let text = sheet_text(blocks);
    let b = blocks[i];
    assert(b.is_valid());
    lemma_sheet_lines(blocks, i);
    law_commands_of_lines(text);
    lemma_file_line_read(b);
    lemma_track_line_read(b);
    lemma_index_line_read(b);
    law_plain_lines(text, 3 * i, CommandView::File(Some(b.name)));
    law_plain_lines(text, 3 * i + 1, b.track().track_line());
    law_plain_lines(text, 3 * i + 2, b.track().index_line());
}

proof fn lemma_text_commands(blocks: Seq<FileLines>)
    requires
        forall|j: int| 0 <= j < blocks.len() ==> (#[trigger] blocks[j]).is_valid(),
        plainly_read(sheet_text(blocks)),
    ensures
        commands(sheet_text(blocks)) == one_track_each(
            blocks.map_values(|b: FileLines| b.name),
            blocks.map_values(|b: FileLines| b.track()),
        ),
{
    let names = blocks.map_values(|b: FileLines| b.name);
    let tracks = blocks.map_values(|b: FileLines| b.track());
    let list = one_track_each(names, tracks);
    let read = commands(sheet_text(blocks));
    assert(read.len() == list.len()) by {
        if blocks.len() > 0 {
            lemma_text_command(blocks, 0);
        } else {
            law_commands_of_lines(sheet_text(blocks));
            assert(lines(sheet_text(blocks)).len() == 0);
        }
    }
    assert forall|j: int| 0 <= j < list.len() implies read[j] == list[j] by {
        let i = j / 3;
        lemma_text_command(blocks, i);
        assert(names[i] == blocks[i].name && tracks[i] == blocks[i].track());
        assert(j == 3 * i || j == 3 * i + 1 || j == 3 * i + 2);
    }
    assert(read =~= list);
}

proof fn lemma_all_audio(tracks: Seq<TrackLines>, files: Seq<ResolvedBin>, n: int)
    requires
        0 <= n <= tracks.len(),
        forall|i: int| 0 <= i < tracks.len() ==> (#[trigger] tracks[i]).audio,
    ensures
        each_alone(tracks, files, n).len() == n,
        forall|i: int|
            0 <= i < n ==> #[trigger] each_alone(tracks, files, n)[i] == alone_in_file(
                tracks[i],
                files[i],
                sectors_before(files, i),
            ),
    decreases n,
{
    if n > 0 {
        lemma_all_audio(tracks, files, n - 1);
        assert(tracks[n - 1].audio);
    }
}

proof fn lemma_names_of_list(names: Seq<Seq<char>>, tracks: Seq<TrackLines>, n: int)
    requires
        names.len() == tracks.len(),
        0 <= n <= tracks.len(),
    ensures
        file_names(one_track_each(names, tracks).take(3 * n)) == names.take(n),
    decreases n,
{
    let list = one_track_each(names, tracks);
    if n == 0 {
        assert(list.take(0) =~= Seq::empty());
        assert(names.take(0) =~= Seq::empty());
    } else {
        lemma_names_of_list(names, tracks, n - 1);
        let m = 3 * (n - 1);
        assert(list.take(m + 1).drop_last() =~= list.take(m));
        assert(list.take(m + 2).drop_last() =~= list.take(m + 1));
        assert(list.take(m + 3).drop_last() =~= list.take(m + 2));
        assert(list[m] == CommandView::File(Some(names[n - 1])));
        assert(list[m + 1] == tracks[n - 1].track_line());
        assert(list[m + 2] == tracks[n - 1].index_line());
        assert(list.take(m + 1).last() == list[m]);
        assert(list.take(m + 2).last() == list[m + 1]);
        assert(list.take(m + 3).last() == list[m + 2]);
        assert(file_names(list.take(m + 1)) == names.take(n - 1).push(names[n - 1]));
        assert(file_names(list.take(m + 2)) == file_names(list.take(m + 1)));
        assert(file_names(list.take(m + 3)) == file_names(list.take(m + 2)));
        assert(names.take(n) =~= names.take(n - 1).push(names[n - 1]));
    }
}

// ---- Several tracks in one file ----------------------------------------------------------------
/// A sheet with one file: FILE, then TRACK and INDEX 01 lines in turn.
pub open spec fn tracks_of_one_file(name: Seq<char>, tracks: Seq<TrackLines>) -> Seq<CommandView> {
    Seq::new(
        2 * tracks.len() + 1,
        |j: int|
            if j == 0 {
                CommandView::File(Some(name))
            } else if j % 2 == 1 {
                tracks[j / 2].track_line()
            } else {
                tracks[j / 2 - 1].index_line()
            },
    )
}

/// Where the `i`-th track of a file ends: at the INDEX 01 of the next one, if that lies behind its
/// own and inside the file, or else at the end of the file.
pub open spec fn end_of(tracks: Seq<TrackLines>, file: ResolvedBin, i: int) -> int {
    if i + 1 < tracks.len() && tracks[i].position() < tracks[i + 1].position() < file.size_sectors {
        tracks[i + 1].position() as int
    } else {
        file.size_sectors as int
    }
}

/// The `i`-th track of a file that starts the disc.
pub open spec fn track_in_file(tracks: Seq<TrackLines>, file: ResolvedBin, i: int) -> Track {
    Track {
        number: tracks[i].number,
        bin_path: file.bin_path,
        bin_zip: file.bin_zip,
        bin_audio_offset: (tracks[i].position() * 2352) as u64,
        abs_sector: tracks[i].position() as u64,
        sectors: if tracks[i].position() < end_of(tracks, file, i) {
            (end_of(tracks, file, i) - tracks[i].position()) as u64
        } else {
            0
        },
        cdg_path: if tracks.len() == 1 {
            file.cdg_path
        } else {
            None
        },
        cdg_zip: if tracks.len() == 1 {
            file.cdg_zip
        } else {
            None
        },
    }
}

pub open spec fn tracks_in_file(tracks: Seq<TrackLines>, file: ResolvedBin, n: int) -> Seq<Track>
    decreases n,
{
    if n <= 0 {
        Seq::empty()
    } else if tracks[n - 1].audio {
        tracks_in_file(tracks, file, n - 1).push(track_in_file(tracks, file, n - 1))
    } else {
        tracks_in_file(tracks, file, n - 1)
    }
}

spec fn listed_line(t: TrackLines) -> Listed {
    Listed { number: t.number, file: 0, index01: Some(t.position()), is_audio: t.audio }
}

proof fn lemma_one_file(name: Seq<char>, tracks: Seq<TrackLines>, file: ResolvedBin, n: int)
    requires
        0 <= n <= tracks.len(),
        forall|i: int| 0 <= i < tracks.len() ==> (#[trigger] tracks[i]).number != 0,
    ensures
        ({
            let resolved = seq![Some(file)];
            let r = reading(tracks_of_one_file(name, tracks).take(2 * n + 1), resolved);
            &&& r.files == 1
            &&& r.file == Some(0int)
            &&& r.ended(resolved) == tracks.take(n).map_values(|t: TrackLines| listed_line(t))
        }),
    decreases n,
{
    let list = tracks_of_one_file(name, tracks);
    let resolved = seq![Some(file)];
    let line = |t: TrackLines| listed_line(t);
    if n == 0 {
        let none = Seq::<CommandView>::empty();
        assert(list.take(1).drop_last() =~= none);
        assert(list.take(1).last() == CommandView::File(Some(name)));
        let r0 = reading(none, resolved);
        assert(r0.tracks.len() == 0 && r0.file is None && r0.files == 0 && r0.number == 0);
        assert(reading(list.take(1), resolved) == r0.step(resolved, CommandView::File(Some(name))));
        assert(reading(list.take(1), resolved).ended(resolved) =~= tracks.take(0).map_values(line));
    } else {
        lemma_one_file(name, tracks, file, n - 1);
        let t = tracks[n - 1];
        assert(t.number != 0);
        assert(list.take(2 * n).drop_last() =~= list.take(2 * n - 1));
        assert(list.take(2 * n).last() == list[2 * n - 1]);
        assert(list[2 * n - 1] == t.track_line());
        assert(list.take(2 * n + 1).drop_last() =~= list.take(2 * n));
        assert(list.take(2 * n + 1).last() == list[2 * n]);
        assert(list[2 * n] == t.index_line());
        let r0 = reading(list.take(2 * n - 1), resolved);
        let r1 = reading(list.take(2 * n), resolved);
        let r2 = reading(list.take(2 * n + 1), resolved);
        assert(r1.tracks == r0.ended(resolved));
        assert(resolution(resolved, 0) == Some(file));
        assert(r2.index01 == Some(t.position()));
        assert(r2.ended(resolved) == r0.ended(resolved).push(listed_line(t)));
        assert(tracks.take(n).map_values(line) =~= tracks.take(n - 1).map_values(line).push(
            listed_line(t),
        ));
    }
}

/// Several tracks of one file lie one behind the other in it: each starts at its INDEX 01, counted
/// from the start of the file, and ends where the next one begins. The file counts once. CDG data
/// beside the file are nobody's own where the file has several tracks.
pub proof fn law_tracks_of_one_file(name: Seq<char>, tracks: Seq<TrackLines>, file: ResolvedBin)
    requires
        forall|i: int| 0 <= i < tracks.len() ==> (#[trigger] tracks[i]).number != 0,
    ensures
        sheet_tracks(tracks_of_one_file(name, tracks), seq![Some(file)]) == tracks_in_file(
            tracks,
            file,
            tracks.len() as int,
        ),
        disc_size(tracks_of_one_file(name, tracks), seq![Some(file)]) == (if tracks.len() > 0 {
            file.size_sectors as nat
        } else {
            0
        }),
{
    let list = tracks_of_one_file(name, tracks);
    let resolved = seq![Some(file)];
    let k = tracks.len() as int;
    let line = |t: TrackLines| listed_line(t);
    lemma_one_file(name, tracks, file, k);
    lemma_listing_is_read(list, resolved);
    assert(list.take(2 * k + 1) =~= list);
    assert(tracks.take(k) =~= tracks);
    let all = sheet_listing(list, resolved);
    assert(all == tracks.map_values(line));
    lemma_tracks_in_file(tracks, file, k);
    assert(resolution(resolved, 0) == Some(file));
    assert(disc_start(all, resolved, 0) == 0);
    if k > 0 {
        assert(all[0].file == 0);
        assert(holds_track(all, 0));
    } else {
        assert(!holds_track(all, 0));
    }
    assert(disc_start(all, resolved, 1) == if k > 0 {
        file.size_sectors as nat
    } else {
        0
    });
}

proof fn lemma_tracks_in_file(tracks: Seq<TrackLines>, file: ResolvedBin, n: int)
    requires
        0 <= n <= tracks.len(),
    ensures
        laid_out(tracks.map_values(|t: TrackLines| listed_line(t)), seq![Some(file)], n)
            == tracks_in_file(tracks, file, n),
    decreases n,
{
    let all = tracks.map_values(|t: TrackLines| listed_line(t));
    let resolved = seq![Some(file)];
    if n > 0 {
        lemma_tracks_in_file(tracks, file, n - 1);
        let i = n - 1;
        assert(all[i] == listed_line(tracks[i]));
        assert(resolution(resolved, 0) == Some(file));
        assert(disc_start(all, resolved, 0) == 0);
        assert(shares_file(all, i) == (tracks.len() != 1)) by {
            if tracks.len() > 1 {
                let j: int = if i == 0 {
                    1
                } else {
                    0
                };
                assert(all[j].file == all[i].file);
            }
        }
        if i + 1 < all.len() {
            assert(all[i + 1] == listed_line(tracks[i + 1]));
        }
        assert(placed(all, resolved, i) == track_in_file(tracks, file, i));
    }
}

/// A file that is not resolved gives no tracks and takes up no sectors.
pub proof fn law_file_not_resolved(list: Seq<CommandView>, resolved: Seq<Option<ResolvedBin>>)
    requires
        forall|i: int| 0 <= i < resolved.len() ==> #[trigger] resolved[i] is None,
    ensures
        sheet_tracks(list, resolved).len() == 0,
        disc_size(list, resolved) == 0,
{
    crate::laws::law_unresolved_files_are_skipped(list, resolved);
    lemma_listing_is_read(list, resolved);
    lemma_files_ascend(list, resolved);
    let tracks = sheet_listing(list, resolved);
    if tracks.len() > 0 {
        assert(resolution(resolved, tracks[0].file) is Some);
    }
    lemma_nothing_held(tracks, resolved, resolved.len() as int);
}

proof fn lemma_nothing_held(tracks: Seq<Listed>, resolved: Seq<Option<ResolvedBin>>, k: int)
    requires
        tracks.len() == 0,
    ensures
        disc_start(tracks, resolved, k) == 0,
    decreases k,
{
    if k > 0 {
        lemma_nothing_held(tracks, resolved, k - 1);
    }
}

/// Discs add up: two sheets in a row, of which the second begins with a quoted FILE line, take up
/// the sectors of both.
pub proof fn law_disc_sizes_add(
    one: Seq<CommandView>,
    r1: Seq<Option<ResolvedBin>>,
    two: Seq<CommandView>,
    r2: Seq<Option<ResolvedBin>>,
)
    requires
        file_names(one).len() == r1.len(),
        two.len() > 0,
        two[0] matches CommandView::File(Some(_)),
    ensures
        disc_size(one + two, r1 + r2) == disc_size(one, r1) + disc_size(two, r2),
{
    lemma_joined_listing(one, r1, two, r2);
    lemma_listing_is_read(one, r1);
    lemma_listing_is_read(two, r2);
    lemma_files_ascend(one, r1);
    lemma_files_ascend(two, r2);
    lemma_joined_starts(
        sheet_listing(one, r1),
        r1,
        sheet_listing(two, r2),
        r2,
        r2.len() as int,
    );
}

// ---- Which lines count -------------------------------------------------------------------------
/// What has been read after more commands.
spec fn read_on(r: Reading, list: Seq<CommandView>, resolved: Seq<Option<ResolvedBin>>) -> Reading
    decreases list.len(),
{
    if list.len() == 0 {
        r
    } else {
        read_on(r, list.drop_last(), resolved).step(resolved, list.last())
    }
}

proof fn lemma_read_on(
    a: Seq<CommandView>,
    b: Seq<CommandView>,
    resolved: Seq<Option<ResolvedBin>>,
)
    ensures
        reading(a + b, resolved) == read_on(reading(a, resolved), b, resolved),
    decreases b.len(),
{
    if b.len() == 0 {
        assert(a + b =~= a);
    } else {
        lemma_read_on(a, b.drop_last(), resolved);
        assert((a + b).drop_last() =~= a + b.drop_last());
        assert((a + b).last() == b.last());
    }
}

proof fn lemma_read_push(
    a: Seq<CommandView>,
    c: CommandView,
    resolved: Seq<Option<ResolvedBin>>,
)
    ensures
        reading(a.push(c), resolved) == reading(a, resolved).step(resolved, c),
{
    assert(a.push(c).drop_last() =~= a);
}

/// Sheets of which the starts have been read the same way, and which go on the same way, have the
/// same tracks.
proof fn lemma_same_start(
    x: Seq<CommandView>,
    y: Seq<CommandView>,
    b: Seq<CommandView>,
    resolved: Seq<Option<ResolvedBin>>,
)
    requires
        reading(x, resolved) == reading(y, resolved),
    ensures
        sheet_tracks(x + b, resolved) == sheet_tracks(y + b, resolved),
{
    lemma_read_on(x, b, resolved);
    lemma_read_on(y, b, resolved);
    lemma_listing_is_read(x + b, resolved);
    lemma_listing_is_read(y + b, resolved);
}

/// INDEX lines other than 01 change nothing, wherever they stand.
pub proof fn law_other_index(
    a: Seq<CommandView>,
    position: Msf,
    b: Seq<CommandView>,
    resolved: Seq<Option<ResolvedBin>>,
)
    ensures
        sheet_tracks(a.push(CommandView::Index { first: false, position }) + b, resolved)
            == sheet_tracks(a + b, resolved),
{
    let c = CommandView::Index { first: false, position };
    lemma_read_push(a, c, resolved);
    lemma_same_start(a.push(c), a, b, resolved);
}

/// Of two INDEX 01 lines in a row, the second counts.
pub proof fn law_last_index_counts(
    a: Seq<CommandView>,
    p: Msf,
    q: Msf,
    b: Seq<CommandView>,
    resolved: Seq<Option<ResolvedBin>>,
)
    ensures
        sheet_tracks(
            a.push(CommandView::Index { first: true, position: p }).push(
                CommandView::Index { first: true, position: q },
            ) + b,
            resolved,
        ) == sheet_tracks(a.push(CommandView::Index { first: true, position: q }) + b, resolved),
{
    let c = CommandView::Index { first: true, position: p };
    let d = CommandView::Index { first: true, position: q };
    lemma_read_push(a, c, resolved);
    lemma_read_push(a.push(c), d, resolved);
    lemma_read_push(a, d, resolved);
    lemma_same_start(a.push(c).push(d), a.push(d), b, resolved);
}

/// An INDEX line between a FILE line and the first TRACK line belongs to no track.
pub proof fn law_index_before_track(
    a: Seq<CommandView>,
    name: Option<Seq<char>>,
    position: Msf,
    number: u32,
    audio: bool,
    b: Seq<CommandView>,
    resolved: Seq<Option<ResolvedBin>>,
)
    ensures
        sheet_tracks(
            a.push(CommandView::File(name)).push(CommandView::Index { first: true, position }).push(
                CommandView::Track { number, audio },
            ) + b,
            resolved,
        ) == sheet_tracks(
            a.push(CommandView::File(name)).push(CommandView::Track { number, audio }) + b,
            resolved,
        ),
{
    let f = a.push(CommandView::File(name));
    let c = CommandView::Index { first: true, position };
    let t = CommandView::Track { number, audio };
    lemma_read_push(a, CommandView::File(name), resolved);
    lemma_read_push(f, c, resolved);
    lemma_read_push(f.push(c), t, resolved);
    lemma_read_push(f, t, resolved);
    lemma_same_start(f.push(c).push(t), f.push(t), b, resolved);
}

/// A TRACK line without a number, with its INDEX 01 line, gives no track; it only ends the one
/// before it.
pub proof fn law_unnumbered_track(
    a: Seq<CommandView>,
    audio: bool,
    position: Msf,
    b: Seq<CommandView>,
    resolved: Seq<Option<ResolvedBin>>,
)
    requires
        b.len() > 0 ==> b[0] is Track || (b[0] matches CommandView::File(Some(_))),
    ensures
        sheet_tracks(
            a.push(CommandView::Track { number: 0, audio }).push(
                CommandView::Index { first: true, position },
            ) + b,
            resolved,
        ) == sheet_tracks(a + b, resolved),
{
    let t = CommandView::Track { number: 0, audio };
    let c = CommandView::Index { first: true, position };
    let x = a.push(t).push(c);
    lemma_read_push(a, t, resolved);
    lemma_read_push(a.push(t), c, resolved);
    if b.len() == 0 {
        assert(x + b =~= x);
        assert(a + b =~= a);
        lemma_listing_is_read(x, resolved);
        lemma_listing_is_read(a, resolved);
    } else {
        let rest = b.drop_first();
        lemma_read_push(x, b[0], resolved);
        lemma_read_push(a, b[0], resolved);
        assert(x + b =~= x.push(b[0]) + rest);
        assert(a + b =~= a.push(b[0]) + rest);
        assert(reading(x.push(b[0]), resolved) == reading(a.push(b[0]), resolved));
        lemma_same_start(x.push(b[0]), a.push(b[0]), rest, resolved);
    }
}

/// A FILE line that quotes no name, right behind one that does, changes nothing.
pub proof fn law_unquoted_file_at_once(
    a: Seq<CommandView>,
    name: Seq<char>,
    b: Seq<CommandView>,
    resolved: Seq<Option<ResolvedBin>>,
)
    ensures
        sheet_tracks(
            a.push(CommandView::File(Some(name))).push(CommandView::File(None)) + b,
            resolved,
        ) == sheet_tracks(a.push(CommandView::File(Some(name))) + b, resolved),
{
    let f = a.push(CommandView::File(Some(name)));
    lemma_read_push(a, CommandView::File(Some(name)), resolved);
    lemma_read_push(f, CommandView::File(None), resolved);
    let r = reading(f, resolved);
    assert(r.ended(resolved) == r.tracks);
    lemma_same_start(f.push(CommandView::File(None)), f, b, resolved);
}

/// What is read of a track stays while no FILE or TRACK line comes.
proof fn lemma_same_track(r: Reading, m: Seq<CommandView>, resolved: Seq<Option<ResolvedBin>>)
    requires
        forall|i: int| 0 <= i < m.len() ==> !(#[trigger] m[i] is File) && !(m[i] is Track),
    ensures
        read_on(r, m, resolved).tracks == r.tracks,
        read_on(r, m, resolved).file == r.file,
        read_on(r, m, resolved).files == r.files,
        read_on(r, m, resolved).number == r.number,
    decreases m.len(),
{
    if m.len() > 0 {
        assert(!(m[m.len() - 1] is File) && !(m[m.len() - 1] is Track));
        assert forall|i: int| 0 <= i < m.len() - 1 implies !(#[trigger] m.drop_last()[i] is File) && !(
        m.drop_last()[i] is Track) by {
            assert(!(m[i] is File) && !(m[i] is Track));
        }
        lemma_same_track(r, m.drop_last(), resolved);
    }
}

/// Behind a track, a FILE line that quotes no name leaves no file in force: what follows up to the
/// next FILE line gives no track.
pub proof fn law_unquoted_file_behind_track(
    a: Seq<CommandView>,
    number: u32,
    audio: bool,
    m: Seq<CommandView>,
    b: Seq<CommandView>,
    resolved: Seq<Option<ResolvedBin>>,
)
    requires
        number != 0,
        forall|i: int| 0 <= i < m.len() ==> !(#[trigger] m[i] is File) && !(m[i] is Track),
        forall|i: int| 0 <= i < b.len() ==> !(#[trigger] b[i] is File),
    ensures
        sheet_tracks(
            (a.push(CommandView::Track { number, audio }) + m).push(CommandView::File(None)) + b,
            resolved,
        ) == sheet_tracks(a.push(CommandView::Track { number, audio }) + m, resolved),
{
    let t = a.push(CommandView::Track { number, audio });
    let x = (t + m).push(CommandView::File(None));
    lemma_read_push(a, CommandView::Track { number, audio }, resolved);
    lemma_read_on(t, m, resolved);
    lemma_same_track(reading(t, resolved), m, resolved);
    lemma_read_push(t + m, CommandView::File(None), resolved);
    lemma_no_file(reading(x, resolved), b, resolved);
    lemma_read_on(x, b, resolved);
    lemma_listing_is_read(x + b, resolved);
    lemma_listing_is_read(t + m, resolved);
}

/// Behind a TRACK line without a number, a FILE line that quotes no name leaves the file in force:
/// the tracks that follow lie in it.
pub proof fn law_unquoted_file_behind_unnumbered_track(
    a: Seq<CommandView>,
    audio: bool,
    m: Seq<CommandView>,
    b: Seq<CommandView>,
    resolved: Seq<Option<ResolvedBin>>,
)
    requires
        forall|i: int| 0 <= i < m.len() ==> !(#[trigger] m[i] is File) && !(m[i] is Track),
        b.len() > 0 ==> b[0] is Track || b[0] is File,
    ensures
        sheet_tracks(
            (a.push(CommandView::Track { number: 0, audio }) + m).push(CommandView::File(None)) + b,
            resolved,
        ) == sheet_tracks(a.push(CommandView::Track { number: 0, audio }) + m + b, resolved),
{
    let t = a.push(CommandView::Track { number: 0, audio });
    let y = t + m;
    let x = y.push(CommandView::File(None));
    lemma_read_push(a, CommandView::Track { number: 0, audio }, resolved);
    lemma_read_on(t, m, resolved);
    lemma_same_track(reading(t, resolved), m, resolved);
    lemma_read_push(y, CommandView::File(None), resolved);
    if b.len() == 0 {
        assert(x + b =~= x);
        assert(y + b =~= y);
        lemma_listing_is_read(x, resolved);
        lemma_listing_is_read(y, resolved);
    } else {
        let rest = b.drop_first();
        lemma_read_push(x, b[0], resolved);
        lemma_read_push(y, b[0], resolved);
        assert(x + b =~= x.push(b[0]) + rest);
        assert(y + b =~= y.push(b[0]) + rest);
        assert(reading(x.push(b[0]), resolved) == reading(y.push(b[0]), resolved));
        lemma_same_start(x.push(b[0]), y.push(b[0]), rest, resolved);
    }
}

proof fn lemma_no_file(r: Reading, b: Seq<CommandView>, resolved: Seq<Option<ResolvedBin>>)
    requires
        r.file is None,
        forall|i: int| 0 <= i < b.len() ==> !(#[trigger] b[i] is File),
    ensures
        read_on(r, b, resolved).file is None,
        read_on(r, b, resolved).tracks == r.tracks,
    decreases b.len(),
{
    if b.len() > 0 {
        assert(!(b[b.len() - 1] is File));
        assert forall|i: int| 0 <= i < b.len() - 1 implies !(#[trigger] b.drop_last()[i] is File) by {
            assert(!(b[i] is File));
        }
        lemma_no_file(r, b.drop_last(), resolved);
    }
}

/// A track with its start told, where it has none at the start of its file.
spec fn told(t: Listed) -> Listed {
    Listed { index01: Some(t.start()), ..t }
}

spec fn all_told(tracks: Seq<Listed>) -> Seq<Listed> {
    tracks.map_values(|t: Listed| told(t))
}

spec fn same_but_told(x: Reading, y: Reading) -> bool {
    &&& all_told(x.tracks) == all_told(y.tracks)
    &&& x.file == y.file
    &&& x.files == y.files
    &&& x.number == y.number
    &&& x.audio == y.audio
    &&& (match x.index01 {
        Some(n) => n,
        None => 0nat,
    }) == (match y.index01 {
        Some(n) => n,
        None => 0nat,
    })
}

proof fn lemma_told_places(
    x: Seq<Listed>,
    y: Seq<Listed>,
    resolved: Seq<Option<ResolvedBin>>,
    n: int,
)
    requires
        all_told(x) == all_told(y),
        n <= x.len(),
    ensures
        laid_out(x, resolved, n) == laid_out(y, resolved, n),
    decreases n,
{
    assert(all_told(x).len() == x.len() && all_told(y).len() == y.len());
    if n > 0 {
        lemma_told_places(x, y, resolved, n - 1);
        let i = n - 1;
        assert forall|j: int| 0 <= j < x.len() implies (#[trigger] x[j]).file == y[j].file && x[j].start()
            == y[j].start() && x[j].number == y[j].number && x[j].is_audio == y[j].is_audio by {
            assert(all_told(x)[j] == told(x[j]));
            assert(all_told(y)[j] == told(y[j]));
        }
        assert(x[i].file == y[i].file);
        if i + 1 < x.len() {
            assert(x[i + 1].file == y[i + 1].file);
        }
        assert(shares_file(x, i) == shares_file(y, i)) by {
            if shares_file(x, i) {
                let j = choose|j: int| 0 <= j < x.len() && j != i && (#[trigger] x[j]).file == x[i].file;
                assert(y[j].file == y[i].file);
            }
            if shares_file(y, i) {
                let j = choose|j: int| 0 <= j < y.len() && j != i && (#[trigger] y[j]).file == y[i].file;
                assert(x[j].file == x[i].file);
            }
        }
        lemma_told_starts(x, y, resolved, x[i].file);
        assert(placed(x, resolved, i) == placed(y, resolved, i));
    }
}

proof fn lemma_told_starts(
    x: Seq<Listed>,
    y: Seq<Listed>,
    resolved: Seq<Option<ResolvedBin>>,
    k: int,
)
    requires
        x.len() == y.len(),
        forall|j: int| 0 <= j < x.len() ==> (#[trigger] x[j]).file == y[j].file,
    ensures
        disc_start(x, resolved, k) == disc_start(y, resolved, k),
    decreases k,
{
    if k > 0 {
        lemma_told_starts(x, y, resolved, k - 1);
        if holds_track(x, k - 1) {
            let j = choose|j: int| 0 <= j < x.len() && (#[trigger] x[j]).file == k - 1;
            assert(y[j].file == k - 1);
        }
        if holds_track(y, k - 1) {
            let j = choose|j: int| 0 <= j < y.len() && (#[trigger] y[j]).file == k - 1;
            assert(x[j].file == k - 1);
        }
    }
}

proof fn lemma_told_ended(x: Reading, y: Reading, resolved: Seq<Option<ResolvedBin>>)
    requires
        same_but_told(x, y),
    ensures
        all_told(x.ended(resolved)) == all_told(y.ended(resolved)),
{
    assert(all_told(x.tracks).len() == x.tracks.len() && all_told(y.tracks).len() == y.tracks.len());
    let ex = all_told(x.ended(resolved));
    let ey = all_told(y.ended(resolved));
    assert(ex.len() == ey.len());
    assert forall|i: int| 0 <= i < ex.len() implies ex[i] == ey[i] by {
        if i < x.tracks.len() {
            assert(all_told(x.tracks)[i] == told(x.tracks[i]));
            assert(all_told(y.tracks)[i] == told(y.tracks[i]));
        }
    }
    assert(ex =~= ey);
}

proof fn lemma_told_on(
    x: Reading,
    y: Reading,
    b: Seq<CommandView>,
    resolved: Seq<Option<ResolvedBin>>,
)
    requires
        same_but_told(x, y),
    ensures
        same_but_told(read_on(x, b, resolved), read_on(y, b, resolved)),
    decreases b.len(),
{
    if b.len() > 0 {
        lemma_told_on(x, y, b.drop_last(), resolved);
        lemma_told_ended(
            read_on(x, b.drop_last(), resolved),
            read_on(y, b.drop_last(), resolved),
            resolved,
        );
    }
}

/// A track without an INDEX 01 line begins with its file: an INDEX 01 line at 00:00:00 right behind
/// the TRACK line changes nothing.
pub proof fn law_track_without_index(
    a: Seq<CommandView>,
    number: u32,
    audio: bool,
    b: Seq<CommandView>,
    resolved: Seq<Option<ResolvedBin>>,
)
    ensures
        sheet_tracks(a.push(CommandView::Track { number, audio }) + b, resolved) == sheet_tracks(
            a.push(CommandView::Track { number, audio }).push(
                CommandView::Index {
                    first: true,
                    position: Msf { minutes: 0, seconds: 0, frames: 0 },
                },
            ) + b,
            resolved,
        ),
{
    let t = a.push(CommandView::Track { number, audio });
    let c = CommandView::Index {
        first: true,
        position: Msf { minutes: 0, seconds: 0, frames: 0 },
    };
    lemma_read_push(a, CommandView::Track { number, audio }, resolved);
    lemma_read_push(t, c, resolved);
    let x = reading(t, resolved);
    let y = reading(t.push(c), resolved);
    assert(same_but_told(x, y));
    lemma_told_on(x, y, b, resolved);
    lemma_read_on(t, b, resolved);
    lemma_read_on(t.push(c), b, resolved);
    lemma_told_ended(read_on(x, b, resolved), read_on(y, b, resolved), resolved);
    lemma_listing_is_read(t + b, resolved);
    lemma_listing_is_read(t.push(c) + b, resolved);
    let lx = sheet_listing(t + b, resolved);
    let ly = sheet_listing(t.push(c) + b, resolved);
    assert(all_told(lx).len() == lx.len() && all_told(ly).len() == ly.len());
    lemma_told_places(lx, ly, resolved, lx.len() as int);
}

// ---- Numbers that fit --------------------------------------------------------------------------
/// The sectors of all files together.
pub open spec fn all_sectors(resolved: Seq<Option<ResolvedBin>>) -> nat
    decreases resolved.len(),
{
    if resolved.len() == 0 {
        0
    } else {
        all_sectors(resolved.drop_last()) + (match resolved.last() {
            Some(f) => f.size_sectors as nat,
            None => 0,
        })
    }
}

proof fn lemma_start_within(tracks: Seq<Listed>, resolved: Seq<Option<ResolvedBin>>, k: int)
    requires
        0 <= k <= resolved.len(),
    ensures
        disc_start(tracks, resolved, k) <= all_sectors(resolved.take(k)),
    decreases k,
{
    if k > 0 {
        lemma_start_within(tracks, resolved, k - 1);
        assert(resolved.take(k).drop_last() =~= resolved.take(k - 1));
        assert(resolved.take(k).last() == resolved[k - 1]);
    }
}

/// The bound on where the sound of any track begins.
spec fn starts_within(tracks: Seq<Listed>, limit: nat) -> bool {
    forall|i: int| 0 <= i < tracks.len() ==> (#[trigger] tracks[i]).start() <= limit
}

proof fn lemma_starts_within(
    list: Seq<CommandView>,
    resolved: Seq<Option<ResolvedBin>>,
    limit: nat,
)
    requires
        forall|i: int|
            0 <= i < list.len() ==> (#[trigger] list[i] matches CommandView::Index { position, .. }
                ==> position.sectors() <= limit),
    ensures
        starts_within(reading(list, resolved).ended(resolved), limit),
        starts_within(reading(list, resolved).tracks, limit),
        reading(list, resolved).index01 matches Some(n) ==> n <= limit,
    decreases list.len(),
{
    if list.len() > 0 {
        let before = list.drop_last();
        assert forall|i: int| 0 <= i < before.len() implies (#[trigger] before[i] matches CommandView::Index {
            position,
            ..
        } ==> position.sectors() <= limit) by {
            assert(list[i] == before[i]);
        }
        lemma_starts_within(before, resolved, limit);
        assert(list[list.len() - 1] == list.last());
    }
}

/// The tracks of every sheet can be found whose positions and files are not absurdly large: every
/// INDEX position, in bytes, and every position together with the sectors of all files fit in 64
/// bits.
pub proof fn law_ordinary_sheets_fit(
    list: Seq<CommandView>,
    resolved: Seq<Option<ResolvedBin>>,
    limit: nat,
)
    requires
        forall|i: int|
            0 <= i < list.len() ==> (#[trigger] list[i] matches CommandView::Index { position, .. }
                ==> 4500 * position.minutes + 75 * position.seconds + position.frames <= limit),
        limit * 2352 <= 0xffff_ffff_ffff_ffff,
        all_sectors(resolved) + limit <= 0xffff_ffff_ffff_ffff,
    ensures
        sheet_fits(list, resolved),
{
    assert forall|i: int| 0 <= i < list.len() implies (#[trigger] list[i] matches CommandView::Index {
        position,
        ..
    } ==> position.sectors() <= limit) by {}
    lemma_starts_within(list, resolved, limit);
    lemma_listing_is_read(list, resolved);
    lemma_files_ascend(list, resolved);
    let tracks = sheet_listing(list, resolved);
    let n = resolved.len() as int;
    assert(resolved.take(n) =~= resolved);
    lemma_start_within(tracks, resolved, n);
    assert forall|i: int| 0 <= i < tracks.len() implies #[trigger] place_fits(tracks, resolved, i) by {
        assert(tracks[i].start() <= limit);
        assert(resolution(resolved, tracks[i].file) is Some);
        lemma_starts_grow(tracks, resolved, tracks[i].file, n);
        assert(tracks[i].start() * SECTOR_BYTES <= limit * 2352) by (nonlinear_arith)
            requires
                tracks[i].start() <= limit,
                SECTOR_BYTES == 2352,
        ;
    }
}

/// Where the tracks of a sheet can be found, every position of the sheet fits in 64 bits. So do the
/// sectors at which each track begins and ends, and its sound begins at a whole sector of its file,
/// which is no farther into the file than into the disc.
pub proof fn law_numbers_of_a_sheet_fit(
    list: Seq<CommandView>,
    resolved: Seq<Option<ResolvedBin>>,
    i: int,
)
    requires
        sheet_fits(list, resolved),
    ensures
        0 <= i < list.len() ==> (list[i] matches CommandView::Index { position, .. } ==> 4500
            * position.minutes + 75 * position.seconds + position.frames <= 0xffff_ffff_ffff_ffff),
        0 <= i < sheet_tracks(list, resolved).len() ==> ({
            let track = sheet_tracks(list, resolved)[i];
            &&& track.sectors > 0 ==> track.abs_sector + track.sectors <= 0xffff_ffff_ffff_ffff
            &&& track.bin_audio_offset % 2352 == 0
            &&& track.bin_audio_offset <= track.abs_sector * 2352
        }),
{
    if 0 <= i < list.len() {
        assert(list[i] matches CommandView::Index { position, .. } ==> position.sectors() <= u64::MAX);
    }
    if 0 <= i < sheet_tracks(list, resolved).len() {
        let tracks = sheet_listing(list, resolved);
        let n = tracks.len() as int;
        let track = sheet_tracks(list, resolved)[i];
        lemma_listing_is_read(list, resolved);
        lemma_files_ascend(list, resolved);
        lemma_origin(tracks, resolved, n, i);
        let a = origin(tracks, resolved, n, i);
        let file = tracks[a].file;
        assert(place_fits(tracks, resolved, a));
        assert(holds_track(tracks, file));
        assert(resolution(resolved, file) is Some);
        lemma_starts_grow(tracks, resolved, file + 1, resolved.len() as int);
        assert(track.bin_audio_offset == tracks[a].start() * 2352);
    }
}

} // verus!
