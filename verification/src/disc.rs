//! From the commands of a cue sheet to the tracks of a disc.
use vstd::prelude::*;
use crate::cue::{clone_entry, clone_path, Track, ZipEntry, SECTOR_BYTES};
use crate::sheet::{
    command_views, commands, file_names, parse_commands, plainly_read, CommandView, CueCommand, Msf,
};
use std::path::PathBuf;

verus! {

/// What a FILE reference of a sheet stands for.
#[derive(Debug)]
pub struct ResolvedBin {
    pub bin_path: Option<PathBuf>,
    pub bin_zip: Option<ZipEntry>,
    pub size_sectors: u64,
    pub cdg_path: Option<PathBuf>,
    pub cdg_zip: Option<ZipEntry>,
}

impl Clone for ResolvedBin {
    fn clone(&self) -> (copy: ResolvedBin)
        ensures
            copy == *self,
    {
        ResolvedBin {
            bin_path: clone_path(&self.bin_path),
            bin_zip: clone_entry(&self.bin_zip),
            size_sectors: self.size_sectors,
            cdg_path: clone_path(&self.cdg_path),
            cdg_zip: clone_entry(&self.cdg_zip),
        }
    }
}

/// A track as the sheet lists it, before its place on the disc is known.
#[derive(Debug)]
pub struct RawTrack {
    pub number: u32,
    /// Which of the quoted FILE references the track lies in.
    pub file: usize,
    /// Sectors between the start of the file and INDEX 01, where the sheet gives that position.
    pub index01: Option<u64>,
    pub is_audio: bool,
}

pub struct Listed {
    pub number: u32,
    pub file: int,
    pub index01: Option<nat>,
    pub is_audio: bool,
}

impl View for RawTrack {
    type V = Listed;

    open spec fn view(&self) -> Listed {
        Listed {
            number: self.number,
            file: self.file as int,
            index01: match self.index01 {
                Some(n) => Some(n as nat),
                None => None,
            },
            is_audio: self.is_audio,
        }
    }
}

impl Listed {
    /// Where the sound begins in the file. Without an INDEX 01 it begins with the file.
    pub open spec fn start(self) -> nat {
        match self.index01 {
            Some(n) => n,
            None => 0,
        }
    }
}

pub open spec fn raw_views(raw: Seq<RawTrack>) -> Seq<Listed> {
    raw.map_values(|t: RawTrack| t@)
}

// ---- Which tracks a sheet lists ----------------------------------------------------------------
/// FILE and TRACK lines end the track before them.
pub open spec fn ends_track(c: CommandView) -> bool {
    c is File || c is Track
}

/// What the `k`-th quoted FILE reference stands for.
pub open spec fn resolution(resolved: Seq<Option<ResolvedBin>>, k: int) -> Option<ResolvedBin> {
    if 0 <= k < resolved.len() {
        resolved[k]
    } else {
        None
    }
}

/// Whether a track with a number is being described after the first `n` commands.
pub open spec fn track_open(list: Seq<CommandView>, n: int) -> bool
    decreases n,
{
    if n <= 0 {
        false
    } else {
        match list[n - 1] {
            CommandView::File(_) => false,
            CommandView::Track { number, .. } => number != 0,
            _ => track_open(list, n - 1),
        }
    }
}

/// Which of the quoted FILE references is in force after the first `n` commands. A FILE line
/// without a quoted name keeps the file before it, unless a track of that file is being described.
pub open spec fn file_in_force(list: Seq<CommandView>, n: int) -> Option<int>
    decreases n,
{
    if n <= 0 {
        None
    } else {
        match list[n - 1] {
            CommandView::File(Some(_)) => Some(file_names(list.take(n - 1)).len() as int),
            CommandView::File(None) => if track_open(list, n - 1) {
                None
            } else {
                file_in_force(list, n - 1)
            },
            _ => file_in_force(list, n - 1),
        }
    }
}

/// The last INDEX 01 position among the first `n` commands, behind the last FILE or TRACK line.
pub open spec fn index01_before(list: Seq<CommandView>, n: int) -> Option<Msf>
    decreases n,
{
    if n <= 0 || ends_track(list[n - 1]) {
        None
    } else {
        match list[n - 1] {
            CommandView::Index { first: true, position } => Some(position),
            _ => index01_before(list, n - 1),
        }
    }
}

/// The first position, from `i` on, of a FILE or TRACK line; the end of the sheet where there is
/// none.
pub open spec fn track_end(list: Seq<CommandView>, i: int) -> int
    decreases list.len() - i,
{
    if i >= list.len() {
        list.len() as int
    } else if ends_track(list[i]) {
        i
    } else {
        track_end(list, i + 1)
    }
}

pub open spec fn in_sectors(position: Option<Msf>) -> Option<nat> {
    match position {
        Some(p) => Some(p.sectors()),
        None => None,
    }
}

/// The tracks that the first `n` commands begin: one for each TRACK line with a number and a file
/// in force that is resolved.
pub open spec fn listed(
    list: Seq<CommandView>,
    resolved: Seq<Option<ResolvedBin>>,
    n: int,
) -> Seq<Listed>
    decreases n,
{
    if n <= 0 {
        Seq::empty()
    } else {
        let before = listed(list, resolved, n - 1);
        match (list[n - 1], file_in_force(list, n - 1)) {
            (CommandView::Track { number, audio }, Some(file)) => if number != 0 && resolution(
                resolved,
                file,
            ) is Some {
                before.push(
                    Listed {
                        number,
                        file,
                        index01: in_sectors(index01_before(list, track_end(list, n))),
                        is_audio: audio,
                    },
                )
            } else {
                before
            },
            _ => before,
        }
    }
}

/// All tracks that a sheet lists.
pub open spec fn sheet_listing(
    list: Seq<CommandView>,
    resolved: Seq<Option<ResolvedBin>>,
) -> Seq<Listed> {
    listed(list, resolved, list.len() as int)
}

// ---- Where the tracks lie on the disc ----------------------------------------------------------
/// The length of a file in sectors; a file that is not resolved takes up none.
pub open spec fn size_of(file: Option<ResolvedBin>) -> nat {
    match file {
        Some(f) => f.size_sectors as nat,
        None => 0,
    }
}

/// Whether a track lies in the `k`-th file.
pub open spec fn holds_track(tracks: Seq<Listed>, k: int) -> bool {
    exists|i: int| 0 <= i < tracks.len() && (#[trigger] tracks[i]).file == k
}

/// The disc sector at which the `k`-th file starts: the files in which tracks lie follow one
/// another.
pub open spec fn disc_start(
    tracks: Seq<Listed>,
    resolved: Seq<Option<ResolvedBin>>,
    k: int,
) -> nat
    decreases k,
{
    if k <= 0 {
        0
    } else if holds_track(tracks, k - 1) {
        disc_start(tracks, resolved, k - 1) + size_of(resolution(resolved, k - 1))
    } else {
        disc_start(tracks, resolved, k - 1)
    }
}

/// Whether the next track lies in the file of the `i`-th track and begins behind it there.
pub open spec fn is_followed(tracks: Seq<Listed>, i: int) -> bool {
    &&& i + 1 < tracks.len()
    &&& tracks[i + 1].file == tracks[i].file
    &&& tracks[i].start() < tracks[i + 1].start()
}

/// Where the `i`-th track ends in its file: where the next track of the file begins, if that is
/// behind it, or else at the end of the file.
pub open spec fn end_in_file(
    tracks: Seq<Listed>,
    resolved: Seq<Option<ResolvedBin>>,
    i: int,
) -> nat {
    let size = size_of(resolution(resolved, tracks[i].file));
    if is_followed(tracks, i) && tracks[i + 1].start() < size {
        tracks[i + 1].start()
    } else {
        size
    }
}

/// The length of the `i`-th track.
pub open spec fn length(
    tracks: Seq<Listed>,
    resolved: Seq<Option<ResolvedBin>>,
    i: int,
) -> nat {
    let end = end_in_file(tracks, resolved, i);
    if end > tracks[i].start() {
        (end - tracks[i].start()) as nat
    } else {
        0
    }
}

/// Whether another track lies in the file of the `i`-th track.
pub open spec fn shares_file(tracks: Seq<Listed>, i: int) -> bool {
    exists|j: int| 0 <= j < tracks.len() && j != i && (#[trigger] tracks[j]).file == tracks[i].file
}

/// The `i`-th track at its place on the disc. The CDG data beside a file are a track's own only
/// where the track has the file to itself.
pub open spec fn placed(tracks: Seq<Listed>, resolved: Seq<Option<ResolvedBin>>, i: int) -> Track {
    let track = tracks[i];
    let file = resolution(resolved, track.file)->0;
    Track {
        number: track.number,
        bin_path: file.bin_path,
        bin_zip: file.bin_zip,
        bin_audio_offset: (track.start() * SECTOR_BYTES) as u64,
        abs_sector: (disc_start(tracks, resolved, track.file) + track.start()) as u64,
        sectors: length(tracks, resolved, i) as u64,
        cdg_path: if shares_file(tracks, i) {
            None
        } else {
            file.cdg_path
        },
        cdg_zip: if shares_file(tracks, i) {
            None
        } else {
            file.cdg_zip
        },
    }
}

/// The audio tracks among the first `n` tracks.
pub open spec fn laid_out(
    tracks: Seq<Listed>,
    resolved: Seq<Option<ResolvedBin>>,
    n: int,
) -> Seq<Track>
    decreases n,
{
    if n <= 0 {
        Seq::empty()
    } else if tracks[n - 1].is_audio {
        laid_out(tracks, resolved, n - 1).push(placed(tracks, resolved, n - 1))
    } else {
        laid_out(tracks, resolved, n - 1)
    }
}

/// Whether the numbers of the `i`-th track fit in a `u64`.
pub open spec fn place_fits(
    tracks: Seq<Listed>,
    resolved: Seq<Option<ResolvedBin>>,
    i: int,
) -> bool {
    tracks[i].is_audio ==> {
        &&& disc_start(tracks, resolved, tracks[i].file) + tracks[i].start() <= u64::MAX
        &&& tracks[i].start() * SECTOR_BYTES <= u64::MAX
    }
}

/// Whether the sectors of all files, and the numbers of all tracks, fit in a `u64`.
pub open spec fn layout_fits(tracks: Seq<Listed>, resolved: Seq<Option<ResolvedBin>>) -> bool {
    &&& disc_start(tracks, resolved, resolved.len() as int) <= u64::MAX
    &&& forall|i: int| 0 <= i < tracks.len() ==> #[trigger] place_fits(tracks, resolved, i)
}

/// Whether every INDEX position, in sectors, fits in a `u64`.
pub open spec fn indices_fit(list: Seq<CommandView>) -> bool {
    forall|i: int|
        0 <= i < list.len() ==> (#[trigger] list[i] matches CommandView::Index { position, .. }
            ==> position.sectors() <= u64::MAX)
}

/// Whether every number that a sheet leads to fits in a `u64`.
pub open spec fn sheet_fits(list: Seq<CommandView>, resolved: Seq<Option<ResolvedBin>>) -> bool {
    indices_fit(list) && layout_fits(sheet_listing(list, resolved), resolved)
}

/// The audio tracks of the disc that a sheet describes, where `resolved` says what each quoted
/// FILE reference stands for.
pub open spec fn sheet_tracks(
    list: Seq<CommandView>,
    resolved: Seq<Option<ResolvedBin>>,
) -> Seq<Track> {
    let tracks = sheet_listing(list, resolved);
    laid_out(tracks, resolved, tracks.len() as int)
}

// ---- Reading a sheet command by command --------------------------------------------------------
/// What has been read of a sheet: the tracks that have ended, the file in force, the number of
/// quoted FILE references, and what is known of the track that is being described.
pub struct Reading {
    pub tracks: Seq<Listed>,
    pub file: Option<int>,
    pub files: nat,
    pub number: u32,
    pub audio: bool,
    pub index01: Option<nat>,
}

impl Reading {
    /// The tracks, with the one that is being described.
    pub open spec fn ended(self, resolved: Seq<Option<ResolvedBin>>) -> Seq<Listed> {
        match self.file {
            Some(file) => if self.number != 0 && resolution(resolved, file) is Some {
                self.tracks.push(
                    Listed {
                        number: self.number,
                        file,
                        index01: self.index01,
                        is_audio: self.audio,
                    },
                )
            } else {
                self.tracks
            },
            None => self.tracks,
        }
    }

    /// What has been read after one more command.
    pub open spec fn step(self, resolved: Seq<Option<ResolvedBin>>, c: CommandView) -> Reading {
        match c {
            CommandView::File(name) => Reading {
                tracks: self.ended(resolved),
                file: if name is Some {
                    Some(self.files as int)
                } else if self.number != 0 {
                    None
                } else {
                    self.file
                },
                files: if name is Some {
                    self.files + 1
                } else {
                    self.files
                },
                number: 0,
                audio: false,
                index01: None,
            },
            CommandView::Track { number, audio } => Reading {
                tracks: self.ended(resolved),
                number,
                audio,
                index01: None,
                ..self
            },
            CommandView::Index { first: true, position } => Reading {
                index01: Some(position.sectors()),
                ..self
            },
            _ => self,
        }
    }
}

/// What has been read after the commands of `list`.
pub open spec fn reading(list: Seq<CommandView>, resolved: Seq<Option<ResolvedBin>>) -> Reading
    decreases list.len(),
{
    if list.len() == 0 {
        Reading {
            tracks: Seq::empty(),
            file: None,
            files: 0,
            number: 0,
            audio: false,
            index01: None,
        }
    } else {
        reading(list.drop_last(), resolved).step(resolved, list.last())
    }
}

/// No track ends from `i` to before `end`, and one ends there.
proof fn lemma_track_end_is(list: Seq<CommandView>, i: int, end: int)
    requires
        0 <= i <= end <= list.len(),
        forall|j: int| i <= j < end ==> !ends_track(#[trigger] list[j]),
        end < list.len() ==> ends_track(list[end]),
    ensures
        track_end(list, i) == end,
    decreases end - i,
{
    if i < end {
        lemma_track_end_is(list, i + 1, end);
    }
}

/// The last FILE or TRACK line among the first `n` commands.
spec fn last_end(list: Seq<CommandView>, n: int) -> int
    decreases n,
{
    if n <= 0 {
        -1
    } else if ends_track(list[n - 1]) {
        n - 1
    } else {
        last_end(list, n - 1)
    }
}

/// What has been read of the first `n` commands, in terms of the whole sheet.
proof fn lemma_reading(list: Seq<CommandView>, resolved: Seq<Option<ResolvedBin>>, n: int)
    requires
        0 <= n <= list.len(),
    ensures
        ({
            let r = reading(list.take(n), resolved);
            let open = last_end(list, n);
            &&& r.files == file_names(list.take(n)).len()
            &&& r.file == file_in_force(list, n)
            &&& (r.number != 0) == track_open(list, n)
            &&& r.index01 == in_sectors(index01_before(list, n))
            &&& open < n
            &&& forall|j: int| open < j < n ==> !ends_track(#[trigger] list[j])
            &&& r.number == 0 ==> r.tracks == listed(list, resolved, n)
            &&& r.number != 0 ==> {
                &&& 0 <= open
                &&& list[open] == (CommandView::Track { number: r.number, audio: r.audio })
                &&& file_in_force(list, open) == r.file
                &&& r.tracks == listed(list, resolved, open)
                &&& listed(list, resolved, open + 1) == listed(list, resolved, n)
            }
        }),
    decreases n,
{
    if n > 0 {
        lemma_reading(list, resolved, n - 1);
        assert(list.take(n).drop_last() =~= list.take(n - 1));
        assert(list.take(n).last() == list[n - 1]);
        let before = reading(list.take(n - 1), resolved);
        if before.number != 0 && ends_track(list[n - 1]) {
            let open = last_end(list, n - 1);
            lemma_track_end_is(list, open + 1, n - 1);
            assert(before.ended(resolved) == listed(list, resolved, open + 1));
        }
    }
}

/// The tracks that a sheet lists are those that are read command by command.
pub proof fn lemma_listing_is_read(list: Seq<CommandView>, resolved: Seq<Option<ResolvedBin>>)
    ensures
        reading(list, resolved).files == file_names(list).len(),
        reading(list, resolved).ended(resolved) == sheet_listing(list, resolved),
{
    let n = list.len() as int;
    lemma_reading(list, resolved, n);
    assert(list.take(n) =~= list);
    if reading(list, resolved).number != 0 {
        lemma_track_end_is(list, last_end(list, n) + 1, n);
    }
}

/// Every track that has been read lies in one of the files that have been read, and the tracks
/// keep the order of their files.
pub proof fn lemma_files_ascend(list: Seq<CommandView>, resolved: Seq<Option<ResolvedBin>>)
    ensures
        ({
            let r = reading(list, resolved);
            let tracks = r.ended(resolved);
            &&& r.file matches Some(k) ==> 0 <= k < r.files
            &&& forall|i: int|
                0 <= i < tracks.len() ==> 0 <= (#[trigger] tracks[i]).file < r.files && resolution(
                    resolved,
                    tracks[i].file,
                ) is Some && tracks[i].number != 0
            &&& r.file matches Some(k) ==> forall|i: int|
                0 <= i < tracks.len() ==> (#[trigger] tracks[i]).file <= k
            &&& forall|i: int, j: int|
                #![trigger tracks[i], tracks[j]]
                0 <= i < j < tracks.len() ==> tracks[i].file <= tracks[j].file
        }),
    decreases list.len(),
{
    if list.len() > 0 {
        lemma_files_ascend(list.drop_last(), resolved);
        let before = reading(list.drop_last(), resolved);
        let r = reading(list, resolved);
        let tracks = r.ended(resolved);
        match list.last() {
            CommandView::Index { first: true, .. } => {
                let old_tracks = before.ended(resolved);
                assert(tracks.len() == old_tracks.len());
                assert forall|i: int| 0 <= i < tracks.len() implies (#[trigger] tracks[i]).file
                    == old_tracks[i].file && tracks[i].number == old_tracks[i].number by {}
            },
            _ => {},
        }
    }
}

// ---- Files of the same lengths ------------------------------------------------------------------
/// Two lists of resolutions that agree on what is resolved and how long it is.
pub open spec fn same_sizes(a: Seq<Option<ResolvedBin>>, b: Seq<Option<ResolvedBin>>) -> bool {
    a.len() == b.len() && forall|i: int|
        0 <= i < a.len() ==> same_size(#[trigger] a[i], b[i])
}

/// Two resolutions that agree on whether there is one and how long it is.
pub open spec fn same_size(a: Option<ResolvedBin>, b: Option<ResolvedBin>) -> bool {
    match (a, b) {
        (Some(x), Some(y)) => x.size_sectors == y.size_sectors,
        (None, None) => true,
        _ => false,
    }
}

proof fn lemma_same_resolution(a: Seq<Option<ResolvedBin>>, b: Seq<Option<ResolvedBin>>, k: int)
    requires
        same_sizes(a, b),
    ensures
        same_size(resolution(a, k), resolution(b, k)),
{
    if 0 <= k < a.len() {
        assert(same_size(a[k], b[k]));
    }
}

/// Files of the same lengths start at the same sectors.
pub(crate) proof fn lemma_same_starts(
    tracks: Seq<Listed>,
    a: Seq<Option<ResolvedBin>>,
    b: Seq<Option<ResolvedBin>>,
    k: int,
)
    requires
        same_sizes(a, b),
    ensures
        disc_start(tracks, a, k) == disc_start(tracks, b, k),
        size_of(resolution(a, k)) == size_of(resolution(b, k)),
    decreases k,
{
    lemma_same_resolution(a, b, k);
    if k > 0 {
        lemma_same_starts(tracks, a, b, k - 1);
    }
}

/// A sheet lists the same tracks whatever its files are, if the same of them are resolved.
pub(crate) proof fn lemma_same_listing(
    list: Seq<CommandView>,
    a: Seq<Option<ResolvedBin>>,
    b: Seq<Option<ResolvedBin>>,
    n: int,
)
    requires
        same_sizes(a, b),
    ensures
        listed(list, a, n) == listed(list, b, n),
    decreases n,
{
    if n > 0 {
        lemma_same_listing(list, a, b, n - 1);
        if let Some(k) = file_in_force(list, n - 1) {
            lemma_same_resolution(a, b, k);
        }
    }
}

/// Whether the numbers of a sheet fit depends on its files by their lengths alone.
pub(crate) proof fn lemma_same_fit(
    list: Seq<CommandView>,
    a: Seq<Option<ResolvedBin>>,
    b: Seq<Option<ResolvedBin>>,
)
    requires
        same_sizes(a, b),
    ensures
        sheet_fits(list, a) == sheet_fits(list, b),
{
    let tracks = sheet_listing(list, a);
    lemma_same_listing(list, a, b, list.len() as int);
    lemma_same_starts(tracks, a, b, a.len() as int);
    assert forall|i: int| 0 <= i < tracks.len() implies #[trigger] place_fits(tracks, a, i)
        == place_fits(tracks, b, i) by {
        lemma_same_starts(tracks, a, b, tracks[i].file);
    }
    if layout_fits(tracks, a) {
        assert forall|i: int| 0 <= i < tracks.len() implies #[trigger] place_fits(tracks, b, i) by {
            assert(place_fits(tracks, a, i));
        }
    }
    if layout_fits(tracks, b) {
        assert forall|i: int| 0 <= i < tracks.len() implies #[trigger] place_fits(tracks, a, i) by {
            assert(place_fits(tracks, b, i));
        }
    }
}

// ---- Reading the tracks off a sheet ------------------------------------------------------------
/// Whether every INDEX position, in sectors, fits in a `u64`.
fn check_indices(list: &Vec<CueCommand>) -> (fit: bool)
    ensures
        fit == indices_fit(command_views(list@)),
{
    let ghost views = command_views(list@);
    let mut i: usize = 0;
    while i < list.len()
        invariant
            i <= list@.len(),
            views == command_views(list@),
            forall|j: int|
                0 <= j < i ==> (#[trigger] views[j] matches CommandView::Index { position, .. }
                    ==> position.sectors() <= u64::MAX),
        decreases list@.len() - i,
    {
        assert(views[i as int] == list@[i as int]@);
        if let CueCommand::Index { position, .. } = &list[i] {
            if position.checked_sectors().is_none() {
                return false;
            }
        }
        i = i + 1;
    }
    true
}

/// Whether a FILE reference is resolved.
fn is_resolved(resolved: &Vec<Option<ResolvedBin>>, k: usize) -> (yes: bool)
    ensures
        yes == (resolution(resolved@, k as int) is Some),
{
    k < resolved.len() && resolved[k].is_some()
}

/// Adds the track that has just ended, if it has a number and a file that is resolved.
fn end_track(
    raw: &mut Vec<RawTrack>,
    resolved: &Vec<Option<ResolvedBin>>,
    number: u32,
    file: Option<usize>,
    index01: Option<u64>,
    is_audio: bool,
)
    ensures
        final(raw)@ == (match file {
            Some(k) => if number != 0 && resolution(resolved@, k as int) is Some {
                old(raw)@.push(RawTrack { number, file: k, index01, is_audio })
            } else {
                old(raw)@
            },
            None => old(raw)@,
        }),
{
    if number != 0 {
        if let Some(k) = file {
            if is_resolved(resolved, k) {
                raw.push(RawTrack { number, file: k, index01, is_audio });
            }
        }
    }
}

/// The tracks that a sheet lists.
fn collect_tracks(list: &Vec<CueCommand>, resolved: &Vec<Option<ResolvedBin>>) -> (raw: Vec<RawTrack>)
    requires
        indices_fit(command_views(list@)),
    ensures
        raw_views(raw@) == sheet_listing(command_views(list@), resolved@),
{
    let ghost views = command_views(list@);
    let mut raw: Vec<RawTrack> = Vec::new();
    let mut file: Option<usize> = None;
    let mut files: usize = 0;
    let mut number: u32 = 0;
    let mut is_audio = false;
    let mut index01: Option<u64> = None;
    let mut i: usize = 0;
    assert(raw_views(raw@) =~= Seq::empty());
    while i < list.len()
        invariant
            i <= list@.len(),
            views == command_views(list@),
            indices_fit(views),
            files <= i,
            reading(views.take(i as int), resolved@) == (Reading {
                tracks: raw_views(raw@),
                file: match file {
                    Some(k) => Some(k as int),
                    None => None,
                },
                files: files as nat,
                number,
                audio: is_audio,
                index01: match index01 {
                    Some(n) => Some(n as nat),
                    None => None,
                },
            }),
        decreases list@.len() - i,
    {
        proof {
            assert(views[i as int] == list@[i as int]@);
            assert(views.take(i + 1).drop_last() =~= views.take(i as int));
            assert(views.take(i + 1).last() == views[i as int]);
        }
        let ghost before = raw@;
        match &list[i] {
            CueCommand::File(name) => {
                end_track(&mut raw, resolved, number, file, index01, is_audio);
                if name.is_some() {
                    file = Some(files);
                    files = files + 1;
                } else if number != 0 {
                    file = None;
                }
                number = 0;
                is_audio = false;
                index01 = None;
            },
            CueCommand::Track { number: next, audio } => {
                end_track(&mut raw, resolved, number, file, index01, is_audio);
                number = *next;
                is_audio = *audio;
                index01 = None;
            },
            CueCommand::Index { first, position } => {
                let sectors: u64 = position.to_sectors();
                if *first {
                    index01 = Some(sectors);
                }
            },
            CueCommand::Other => {},
        }
        proof {
            if raw@.len() > before.len() {
                assert(raw_views(raw@) =~= raw_views(before).push(raw@.last()@));
            }
        }
        i = i + 1;
    }
    let ghost before = raw@;
    end_track(&mut raw, resolved, number, file, index01, is_audio);
    proof {
        assert(views.take(i as int) =~= views);
        if raw@.len() > before.len() {
            assert(raw_views(raw@) =~= raw_views(before).push(raw@.last()@));
        }
        lemma_listing_is_read(views, resolved@);
    }
    raw
}

/// The length of a file in sectors.
fn file_size(file: &Option<ResolvedBin>) -> (size: u64)
    ensures
        size == size_of(*file),
{
    match file {
        Some(f) => f.size_sectors,
        None => 0,
    }
}

/// More files never take up fewer sectors.
pub(crate) proof fn lemma_starts_grow(
    tracks: Seq<Listed>,
    resolved: Seq<Option<ResolvedBin>>,
    j: int,
    k: int,
)
    requires
        j <= k,
    ensures
        disc_start(tracks, resolved, j) <= disc_start(tracks, resolved, k),
    decreases k - j,
{
    if j < k {
        lemma_starts_grow(tracks, resolved, j, k - 1);
    }
}

/// Whether a track lies in the `k`-th file.
fn is_used(raw: &Vec<RawTrack>, k: usize) -> (yes: bool)
    ensures
        yes == holds_track(raw_views(raw@), k as int),
{
    let ghost tracks = raw_views(raw@);
    let mut i: usize = 0;
    while i < raw.len()
        invariant
            i <= raw@.len(),
            tracks == raw_views(raw@),
            forall|j: int| 0 <= j < i ==> (#[trigger] tracks[j]).file != k,
        decreases raw@.len() - i,
    {
        assert(tracks[i as int] == raw@[i as int]@);
        if raw[i].file == k {
            return true;
        }
        i = i + 1;
    }
    false
}

/// The sectors at which the files start, or None where the sectors of all files together do not
/// fit in a `u64`.
fn file_starts(raw: &Vec<RawTrack>, resolved: &Vec<Option<ResolvedBin>>) -> (starts: Option<Vec<u64>>)
    ensures
        ({
            let tracks = raw_views(raw@);
            match starts {
                Some(list) => {
                    &&& disc_start(tracks, resolved@, resolved@.len() as int) <= u64::MAX
                    &&& list@.len() == resolved@.len()
                    &&& forall|k: int|
                        0 <= k < list@.len() ==> #[trigger] list@[k] == disc_start(tracks, resolved@, k)
                },
                None => disc_start(tracks, resolved@, resolved@.len() as int) > u64::MAX,
            }
        }),
{
    let ghost tracks = raw_views(raw@);
    let mut starts: Vec<u64> = Vec::new();
    let mut start: u64 = 0;
    let mut k: usize = 0;
    while k < resolved.len()
        invariant
            k <= resolved@.len(),
            tracks == raw_views(raw@),
            start == disc_start(tracks, resolved@, k as int),
            starts@.len() == k,
            forall|j: int| 0 <= j < k ==> #[trigger] starts@[j] == disc_start(tracks, resolved@, j),
        decreases resolved@.len() - k,
    {
        starts.push(start);
        let size: u64 = if is_used(raw, k) {
            file_size(&resolved[k])
        } else {
            0
        };
        assert(disc_start(tracks, resolved@, k + 1) == start + size);
        if size > u64::MAX - start {
            proof {
                lemma_starts_grow(tracks, resolved@, k + 1, resolved@.len() as int);
            }
            return None;
        }
        start = start + size;
        k = k + 1;
    }
    Some(starts)
}

/// Whether the sectors of all files, and the numbers of all tracks, fit in a `u64`.
fn check_layout(raw: &Vec<RawTrack>, resolved: &Vec<Option<ResolvedBin>>) -> (fit: bool)
    requires
        forall|i: int| 0 <= i < raw@.len() ==> (#[trigger] raw@[i]).file < resolved@.len(),
    ensures
        fit == layout_fits(raw_views(raw@), resolved@),
{
    let ghost tracks = raw_views(raw@);
    let starts = match file_starts(raw, resolved) {
        Some(starts) => starts,
        None => {
            return false;
        },
    };
    let mut i: usize = 0;
    while i < raw.len()
        invariant
            i <= raw@.len(),
            tracks == raw_views(raw@),
            starts@.len() == resolved@.len(),
            forall|k: int| 0 <= k < starts@.len() ==> #[trigger] starts@[k] == disc_start(tracks, resolved@, k),
            forall|j: int| 0 <= j < raw@.len() ==> (#[trigger] raw@[j]).file < resolved@.len(),
            forall|j: int| 0 <= j < i ==> #[trigger] place_fits(tracks, resolved@, j),
        decreases raw@.len() - i,
    {
        let track = &raw[i];
        assert(tracks[i as int] == track@);
        if track.is_audio {
            let index01: u64 = track.index01.unwrap_or(0);
            if index01.checked_add(starts[track.file]).is_none() || index01.checked_mul(
                SECTOR_BYTES as u64,
            ).is_none() {
                assert(!place_fits(tracks, resolved@, i as int));
                return false;
            }
        }
        assert(place_fits(tracks, resolved@, i as int));
        i = i + 1;
    }
    true
}

/// Whether another track lies in the file of the `i`-th track.
fn has_company(raw: &Vec<RawTrack>, i: usize) -> (yes: bool)
    requires
        i < raw@.len(),
    ensures
        yes == shares_file(raw_views(raw@), i as int),
{
    let ghost tracks = raw_views(raw@);
    assert(tracks[i as int] == raw@[i as int]@);
    let mut j: usize = 0;
    while j < raw.len()
        invariant
            j <= raw@.len(),
            i < raw@.len(),
            tracks == raw_views(raw@),
            tracks[i as int] == raw@[i as int]@,
            forall|k: int| 0 <= k < j && k != i ==> (#[trigger] tracks[k]).file != tracks[i as int].file,
        decreases raw@.len() - j,
    {
        assert(tracks[j as int] == raw@[j as int]@);
        if j != i && raw[j].file == raw[i].file {
            return true;
        }
        j = j + 1;
    }
    false
}

/// The length of the `i`-th track.
fn track_length(raw: &Vec<RawTrack>, i: usize, size: u64) -> (sectors: u64)
    requires
        i < raw@.len(),
    ensures
        forall|resolved: Seq<Option<ResolvedBin>>|
            size_of(#[trigger] resolution(resolved, raw@[i as int].file as int)) == size ==> sectors
                == length(raw_views(raw@), resolved, i as int),
{
    let ghost tracks = raw_views(raw@);
    assert(tracks[i as int] == raw@[i as int]@);
    let start: u64 = raw[i].index01.unwrap_or(0);
    let mut end: u64 = size;
    if i < raw.len() - 1 {
        assert(tracks[i + 1] == raw@[i + 1]@);
        let next: u64 = raw[i + 1].index01.unwrap_or(0);
        if raw[i + 1].file == raw[i].file && start < next && next < size {
            end = next;
        }
    }
    end.saturating_sub(start)
}

/// The audio tracks, each at its place on the disc.
fn lay_out(raw: &Vec<RawTrack>, resolved: &Vec<Option<ResolvedBin>>) -> (tracks: Vec<Track>)
    requires
        layout_fits(raw_views(raw@), resolved@),
        forall|i: int|
            0 <= i < raw@.len() ==> resolution(resolved@, (#[trigger] raw@[i]).file as int) is Some,
    ensures
        tracks@ == laid_out(raw_views(raw@), resolved@, raw@.len() as int),
{
    let ghost views = raw_views(raw@);
    let mut tracks: Vec<Track> = Vec::new();
    let starts = match file_starts(raw, resolved) {
        Some(starts) => starts,
        None => {
            return tracks;
        },
    };
    let mut i: usize = 0;
    while i < raw.len()
        invariant
            i <= raw@.len(),
            views == raw_views(raw@),
            layout_fits(views, resolved@),
            starts@.len() == resolved@.len(),
            forall|k: int| 0 <= k < starts@.len() ==> #[trigger] starts@[k] == disc_start(views, resolved@, k),
            forall|j: int|
                0 <= j < raw@.len() ==> resolution(resolved@, (#[trigger] raw@[j]).file as int) is Some,
            tracks@ == laid_out(views, resolved@, i as int),
        decreases raw@.len() - i,
    {
        let track = &raw[i];
        assert(views[i as int] == track@);
        assert(place_fits(views, resolved@, i as int));
        assert(resolution(resolved@, track.file as int) is Some);
        if track.is_audio {
            if let Some(file) = &resolved[track.file] {
                let index01: u64 = track.index01.unwrap_or(0);
                let shared = has_company(raw, i);
                tracks.push(
                    Track {
                        number: track.number,
                        bin_path: clone_path(&file.bin_path),
                        bin_zip: clone_entry(&file.bin_zip),
                        bin_audio_offset: index01 * SECTOR_BYTES as u64,
                        abs_sector: starts[track.file] + index01,
                        sectors: track_length(raw, i, file.size_sectors),
                        cdg_path: if shared {
                            None
                        } else {
                            clone_path(&file.cdg_path)
                        },
                        cdg_zip: if shared {
                            None
                        } else {
                            clone_entry(&file.cdg_zip)
                        },
                    },
                );
            }
        }
        i = i + 1;
    }
    tracks
}

/// What is known of the tracks that a sheet lists.
proof fn lemma_listed_files(list: Seq<CommandView>, resolved: Seq<Option<ResolvedBin>>, raw: Seq<RawTrack>)
    requires
        raw_views(raw) == sheet_listing(list, resolved),
    ensures
        forall|i: int|
            0 <= i < raw.len() ==> resolution(resolved, (#[trigger] raw[i]).file as int) is Some,
{
    lemma_listing_is_read(list, resolved);
    lemma_files_ascend(list, resolved);
    assert forall|i: int| 0 <= i < raw.len() implies resolution(
        resolved,
        (#[trigger] raw[i]).file as int,
    ) is Some by {
        assert(raw_views(raw)[i] == raw[i]@);
    }
}

/// Core CUE parser.  `resolved` holds, for each name that `cue_files` finds in the sheet, the
/// bin's source and size; None skips an unresolvable entry.
pub fn parse_cue_impl(text: &str, resolved: &Vec<Option<ResolvedBin>>) -> (tracks: Vec<Track>)
    requires
        sheet_fits(commands(text@), resolved@),
    ensures
        tracks@ == sheet_tracks(commands(text@), resolved@),
        plainly_read(text@),
{
    let list = parse_commands(text);
    let raw = collect_tracks(&list, resolved);
    proof {
        lemma_listed_files(commands(text@), resolved@, raw@);
    }
    lay_out(&raw, resolved)
}

/// Whether every number that a sheet leads to fits in a `u64`.
pub fn check_sheet(text: &str, resolved: &Vec<Option<ResolvedBin>>) -> (fit: bool)
    ensures
        fit == sheet_fits(commands(text@), resolved@),
        plainly_read(text@),
{
    let list = parse_commands(text);
    if !check_indices(&list) {
        return false;
    }
    let raw = collect_tracks(&list, resolved);
    proof {
        lemma_listed_files(commands(text@), resolved@, raw@);
    }
    check_layout(&raw, resolved)
}

/// The tracks of a sheet, or None where a number that it leads to does not fit in a `u64`.
pub fn try_parse_cue(text: &str, resolved: &Vec<Option<ResolvedBin>>) -> (tracks: Option<Vec<Track>>)
    ensures
        match tracks {
            Some(list) => sheet_fits(commands(text@), resolved@) && list@ == sheet_tracks(
                commands(text@),
                resolved@,
            ),
            None => !sheet_fits(commands(text@), resolved@),
        },
        plainly_read(text@),
{
    if check_sheet(text, resolved) {
        Some(parse_cue_impl(text, resolved))
    } else {
        None
    }
}

} // verus!
