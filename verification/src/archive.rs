//! What the FILE references of a cue sheet stand for: entries of a STORE ZIP, or files on disk.
use vstd::prelude::*;
use vstd::slice::slice_subrange;
use vstd::string::StringExecFns;
use crate::cue::{Track, ZipEntry, SECTOR_BYTES};
use crate::disc::{
    check_sheet, lemma_same_fit, parse_cue_impl, same_size, same_sizes, sheet_fits, sheet_tracks,
    ResolvedBin,
};
use crate::names::{
    ascii_fold, first_where, folded, lemma_first_where, lemma_first_where_is, texts, track_num_from_name,
    track_number,
};
use crate::paths::{borrowed_path_bytes, extension_set, owned_path, path_bytes, with_extension};
use crate::sheet::{commands, cue_files, file_names, plainly_read};
use crate::text::{chars_of, ends_with, lowercase, stands_at, string_of};
use std::path::{Path, PathBuf};

verus! {

/// An entry of a ZIP archive: its ASCII-folded name and where its data lies.
#[derive(Debug)]
pub struct ArchiveEntry {
    pub name: String,
    pub data_start: u64,
    pub data_size: u64,
}

pub struct EntryView {
    pub name: Seq<char>,
    pub data_start: u64,
    pub data_size: u64,
}

impl View for ArchiveEntry {
    type V = EntryView;

    open spec fn view(&self) -> EntryView {
        EntryView { name: self.name@, data_start: self.data_start, data_size: self.data_size }
    }
}

pub open spec fn entry_views(entries: Seq<ArchiveEntry>) -> Seq<EntryView> {
    entries.map_values(|e: ArchiveEntry| e@)
}

impl EntryView {
    /// The data of this entry, in the archive at `archive`.
    pub open spec fn located(self, archive: PathBuf) -> ZipEntry {
        ZipEntry { zip_path: archive, data_start: self.data_start, data_size: self.data_size }
    }
}

pub open spec fn entry_named(key: Seq<char>) -> spec_fn(EntryView) -> bool {
    |e: EntryView| e.name == key
}

/// A `.bin` entry with the track number `n` in its name.
pub open spec fn entry_numbered(n: u32) -> spec_fn(EntryView) -> bool {
    |e: EntryView| ends_with(e.name, ".bin"@) && track_number(lowercase(e.name)) == Some(n)
}

/// Whether every entry has a name of its own.
pub open spec fn distinct_names(entries: Seq<EntryView>) -> bool {
    forall|i: int, j: int|
        #![trigger entries[i], entries[j]]
        0 <= i < entries.len() && 0 <= j < entries.len() && entries[i].name == entries[j].name
            ==> i == j
}

/// `entries` with one more entry, which takes the place of the one with the same name.
pub open spec fn with_entry(entries: Seq<EntryView>, entry: EntryView) -> Seq<EntryView> {
    match first_where(entries, entry_named(entry.name)) {
        Some(i) => entries.update(i, entry),
        None => entries.push(entry),
    }
}

/// The entries of a ZIP archive by name. A name occurs once; the order of the entries is that in
/// which their names were put in.
#[derive(Debug)]
pub struct EntryMap {
    entries: Vec<ArchiveEntry>,
}

impl View for EntryMap {
    type V = Seq<EntryView>;

    closed spec fn view(&self) -> Seq<EntryView> {
        entry_views(self.entries@)
    }
}

impl EntryMap {
    #[verifier::type_invariant]
    spec fn names_occur_once(self) -> bool {
        distinct_names(entry_views(self.entries@))
    }

    /// No entries.
    pub fn new() -> (map: EntryMap)
        ensures
            map@ == Seq::<EntryView>::empty(),
    {
        let map = EntryMap { entries: Vec::new() };
        assert(map@ =~= Seq::empty());
        map
    }

    /// Puts in an entry, in the place of the one with the same name where there is one.
    pub fn insert(&mut self, name: String, data_start: u64, data_size: u64)
        ensures
            final(self)@ == with_entry(old(self)@, (EntryView { name: name@, data_start, data_size })),
            distinct_names(final(self)@),
    {
        proof {
            use_type_invariant(&*self);
        }
        let ghost before = self@;
        let entry = ArchiveEntry { name, data_start, data_size };
        let ghost view = entry@;
        let mut entries: Vec<ArchiveEntry> = Vec::new();
        std::mem::swap(&mut entries, &mut self.entries);
        let found: Option<usize> = find_named(&entries, &entry.name);
        proof {
            lemma_first_where(before, entry_named(view.name));
            assert(entry_named(view.name)(view));
        }
        match found {
            Some(i) => {
                entries.set(i, entry);
                assert(entry_views(entries@) =~= before.update(i as int, view));
            },
            None => {
                entries.push(entry);
                assert(entry_views(entries@) =~= before.push(view));
            },
        }
        assert(distinct_names(entry_views(entries@))) by {
            let after = entry_views(entries@);
            assert forall|i: int, j: int|
                #![trigger after[i], after[j]]
                0 <= i < after.len() && 0 <= j < after.len() && after[i].name == after[j].name implies i
                == j by {
                if i < before.len() && j < before.len() {
                    assert(before[i].name == after[i].name);
                    assert(before[j].name == after[j].name);
                } else if i < before.len() {
                    assert(!entry_named(view.name)(before[i]));
                } else if j < before.len() {
                    assert(!entry_named(view.name)(before[j]));
                }
            }
        }
        self.entries = entries;
    }
}

/// The first of `entries` that meets `p`.
pub open spec fn first_entry(
    entries: Seq<EntryView>,
    p: spec_fn(EntryView) -> bool,
) -> Option<EntryView> {
    match first_where(entries, p) {
        Some(i) => Some(entries[i]),
        None => None,
    }
}

/// The entry that holds the bin that a sheet calls `name`: the one of that name in folded ASCII
/// or, where there is none, the first `.bin` entry with the same track number.
pub open spec fn zip_bin(name: Seq<char>, entries: Seq<EntryView>) -> Option<EntryView> {
    match first_entry(entries, entry_named(folded(name))) {
        Some(e) => Some(e),
        None => match track_number(lowercase(name)) {
            Some(n) => first_entry(entries, entry_numbered(n)),
            None => None,
        },
    }
}

/// The name of the CDG entry beside the bin entry called `key`: `.cdg` in the place of `.bin`.
/// Beside an entry that is no `.bin` there is none.
pub open spec fn cdg_key(key: Seq<char>) -> Option<Seq<char>> {
    if ends_with(key, ".bin"@) {
        Some(key.take(key.len() - 4) + ".cdg"@)
    } else {
        None
    }
}

/// The CDG entry beside the bin entry called `key`.
pub open spec fn cdg_entry(key: Seq<char>, entries: Seq<EntryView>) -> Option<EntryView> {
    match cdg_key(key) {
        Some(cdg) => first_entry(entries, entry_named(cdg)),
        None => None,
    }
}

/// What `name` stands for in the archive at `archive`.
pub open spec fn zip_resolution(
    name: Seq<char>,
    archive: PathBuf,
    entries: Seq<EntryView>,
) -> Option<ResolvedBin> {
    match zip_bin(name, entries) {
        Some(bin) => Some(
            ResolvedBin {
                bin_path: None,
                bin_zip: Some(bin.located(archive)),
                size_sectors: bin.data_size / (SECTOR_BYTES as u64),
                cdg_path: None,
                cdg_zip: match cdg_entry(folded(name), entries) {
                    Some(cdg) => Some(cdg.located(archive)),
                    None => None,
                },
            },
        ),
        None => None,
    }
}

/// What each of `names` stands for in the archive at `archive`.
pub open spec fn zip_resolutions(
    names: Seq<Seq<char>>,
    archive: PathBuf,
    entries: Seq<EntryView>,
) -> Seq<Option<ResolvedBin>> {
    names.map_values(|name: Seq<char>| zip_resolution(name, archive, entries))
}

/// What the FILE references of a sheet stand for in the archive at `archive`.
pub open spec fn sheet_in_zip(
    text: Seq<char>,
    archive: PathBuf,
    entries: Seq<EntryView>,
) -> Seq<Option<ResolvedBin>> {
    zip_resolutions(file_names(commands(text)), archive, entries)
}

/// Whether every number that a sheet leads to, with its bins in a ZIP, fits in a `u64`.
pub open spec fn zip_sheet_fits(text: Seq<char>, entries: Seq<EntryView>) -> bool {
    forall|archive: PathBuf|
        sheet_fits(commands(text), #[trigger] sheet_in_zip(text, archive, entries))
}

/// Where the CDG data of the bin at `bin_path` may lie on disk: beside it, with the extension
/// `cdg`.
pub fn cdg_candidate(bin_path: &PathBuf) -> (cdg_path: PathBuf)
    ensures
        extension_set(path_bytes(*bin_path), "cdg"@, path_bytes(cdg_path)),
{
    proof {
        reveal_strlit("cdg");
    }
    with_extension(bin_path, "cdg")
}

/// What a sheet's FILE reference stands for on disk: the bin at `bin_path` and, where a file
/// that is not empty lies beside it at `cdg_path`, that file. A length is None where the file
/// has none to tell.
pub fn resolve_disk_bin(
    bin_path: PathBuf,
    bin_len: Option<u64>,
    cdg_path: PathBuf,
    cdg_len: Option<u64>,
) -> (resolved: ResolvedBin)
    ensures
        resolved == (ResolvedBin {
            bin_path: Some(bin_path),
            bin_zip: None,
            size_sectors: match bin_len {
                Some(n) => n / (SECTOR_BYTES as u64),
                None => 0,
            },
            cdg_path: if cdg_len matches Some(n) && n > 0 {
                Some(cdg_path)
            } else {
                None
            },
            cdg_zip: None,
        }),
{
    let has_cdg = match cdg_len {
        Some(n) => n > 0,
        None => false,
    };
    ResolvedBin {
        bin_path: Some(bin_path),
        bin_zip: None,
        size_sectors: match bin_len {
            Some(n) => n / SECTOR_BYTES as u64,
            None => 0,
        },
        cdg_path: if has_cdg {
            Some(cdg_path)
        } else {
            None
        },
        cdg_zip: None,
    }
}

/// Whether `name` ends in `.bin`.
fn is_bin_name(name: &str) -> (yes: bool)
    ensures
        yes == ends_with(name@, ".bin"@),
{
    let chars = chars_of(name);
    let suffix = chars_of(".bin");
    if chars.len() < suffix.len() {
        return false;
    }
    stands_at(&chars, &suffix, chars.len() - suffix.len())
}

/// The first entry called `key`.
fn find_named(entries: &Vec<ArchiveEntry>, key: &String) -> (found: Option<usize>)
    ensures
        match found {
            Some(i) => i < entries@.len() && first_where(
                entry_views(entries@),
                entry_named(key@),
            ) == Some(i as int),
            None => first_where(entry_views(entries@), entry_named(key@)) is None,
        },
{
    let ghost views = entry_views(entries@);
    let mut i: usize = 0;
    while i < entries.len()
        invariant
            i <= entries@.len(),
            views == entry_views(entries@),
            forall|j: int| 0 <= j < i ==> !entry_named(key@)(#[trigger] views[j]),
        decreases entries@.len() - i,
    {
        assert(views[i as int] == entries@[i as int]@);
        if entries[i].name == *key {
            proof {
                lemma_first_where_is(views, entry_named(key@), i as int);
            }
            return Some(i);
        }
        i = i + 1;
    }
    proof {
        lemma_first_where_is(views, entry_named(key@), i as int);
    }
    None
}

/// The first `.bin` entry with the track number `n` in its name.
fn find_numbered(entries: &Vec<ArchiveEntry>, n: u32) -> (found: Option<usize>)
    ensures
        match found {
            Some(i) => i < entries@.len() && first_where(
                entry_views(entries@),
                entry_numbered(n),
            ) == Some(i as int),
            None => first_where(entry_views(entries@), entry_numbered(n)) is None,
        },
{
    let ghost views = entry_views(entries@);
    let mut i: usize = 0;
    while i < entries.len()
        invariant
            i <= entries@.len(),
            views == entry_views(entries@),
            forall|j: int| 0 <= j < i ==> !entry_numbered(n)(#[trigger] views[j]),
        decreases entries@.len() - i,
    {
        assert(views[i as int] == entries@[i as int]@);
        if is_bin_name(&entries[i].name) {
            if let Some(m) = track_num_from_name(&entries[i].name) {
                if m == n {
                    proof {
                        lemma_first_where_is(views, entry_numbered(n), i as int);
                    }
                    return Some(i);
                }
            }
        }
        i = i + 1;
    }
    proof {
        lemma_first_where_is(views, entry_numbered(n), i as int);
    }
    None
}

/// The name of the CDG entry beside the bin entry called `key`.
fn companion_key(key: &String) -> (cdg: Option<String>)
    ensures
        match cdg {
            Some(name) => cdg_key(key@) == Some(name@),
            None => cdg_key(key@) is None,
        },
{
    if is_bin_name(key) {
        let chars = chars_of(key);
        proof {
            reveal_strlit(".bin");
        }
        let mut cdg = string_of(slice_subrange(&chars, 0, chars.len() - 4));
        assert(cdg@ =~= key@.take(key@.len() - 4));
        cdg.append(".cdg");
        Some(cdg)
    } else {
        None
    }
}

/// The CDG entry beside the bin entry called `key`.
fn find_companion(entries: &Vec<ArchiveEntry>, key: &String) -> (found: Option<usize>)
    ensures
        match found {
            Some(i) => i < entries@.len() && cdg_entry(key@, entry_views(entries@)) == Some(
                entries@[i as int]@,
            ),
            None => cdg_entry(key@, entry_views(entries@)) is None,
        },
{
    match companion_key(key) {
        Some(cdg) => find_named(entries, &cdg),
        None => None,
    }
}

/// What `name` stands for in the archive at `zip_path`.
pub fn resolve_zip_bin(
    name: &str,
    zip_path: &PathBuf,
    entry_map: &EntryMap,
) -> (resolved: Option<ResolvedBin>)
    ensures
        resolved == zip_resolution(name@, *zip_path, entry_map@),
        distinct_names(entry_map@),
{
    proof {
        use_type_invariant(entry_map);
    }
    let key = ascii_fold(name);

    // Pass 1: exact ASCII-fold match.  Pass 2: match by track number.
    let bin: Option<usize> = match find_named(&entry_map.entries, &key) {
        Some(i) => Some(i),
        None => match track_num_from_name(name) {
            Some(n) => find_numbered(&entry_map.entries, n),
            None => None,
        },
    };
    match bin {
        Some(i) => {
            assert(entry_map@[i as int] == entry_map.entries@[i as int]@);
            let bin = &entry_map.entries[i];
            let cdg_zip = match find_companion(&entry_map.entries, &key) {
                Some(c) => Some(
                    ZipEntry {
                        zip_path: zip_path.clone(),
                        data_start: entry_map.entries[c].data_start,
                        data_size: entry_map.entries[c].data_size,
                    },
                ),
                None => None,
            };
            Some(
                ResolvedBin {
                    bin_path: None,
                    bin_zip: Some(
                        ZipEntry {
                            zip_path: zip_path.clone(),
                            data_start: bin.data_start,
                            data_size: bin.data_size,
                        },
                    ),
                    size_sectors: bin.data_size / SECTOR_BYTES as u64,
                    cdg_path: None,
                    cdg_zip,
                },
            )
        },
        None => None,
    }
}

/// What the FILE references of a sheet stand for in the archive at `zip_path`.
fn resolve_sheet(
    cue_text: &str,
    zip_path: &PathBuf,
    entry_map: &EntryMap,
) -> (resolved: Vec<Option<ResolvedBin>>)
    ensures
        resolved@ == sheet_in_zip(cue_text@, *zip_path, entry_map@),
{
    let names = cue_files(cue_text);
    let ghost all = sheet_in_zip(cue_text@, *zip_path, entry_map@);
    let mut resolved: Vec<Option<ResolvedBin>> = Vec::new();
    let mut i: usize = 0;
    while i < names.len()
        invariant
            i <= names@.len(),
            texts(names@) == file_names(commands(cue_text@)),
            all == sheet_in_zip(cue_text@, *zip_path, entry_map@),
            resolved@ == all.take(i as int),
        decreases names@.len() - i,
    {
        resolved.push(resolve_zip_bin(&names[i], zip_path, entry_map));
        proof {
            assert(texts(names@)[i as int] == names@[i as int]@);
            assert(all.take(i as int).push(all[i as int]) =~= all.take(i + 1));
        }
        i = i + 1;
    }
    assert(all.take(i as int) =~= all);
    resolved
}

/// Where an archive lies does not change whether a sheet's numbers fit.
pub(crate) proof fn lemma_fits_anywhere(text: Seq<char>, here: PathBuf, entries: Seq<EntryView>)
    ensures
        zip_sheet_fits(text, entries) == sheet_fits(
            commands(text),
            sheet_in_zip(text, here, entries),
        ),
{
    if sheet_fits(commands(text), sheet_in_zip(text, here, entries)) {
        assert forall|archive: PathBuf|
            sheet_fits(commands(text), #[trigger] sheet_in_zip(text, archive, entries)) by {
            let a = sheet_in_zip(text, here, entries);
            let b = sheet_in_zip(text, archive, entries);
            assert(same_sizes(a, b)) by {
                assert forall|i: int| 0 <= i < a.len() implies same_size(#[trigger] a[i], b[i]) by {
                    let name = file_names(commands(text))[i];
                    assert(a[i] == zip_resolution(name, here, entries));
                    assert(b[i] == zip_resolution(name, archive, entries));
                }
            }
            lemma_same_fit(commands(text), a, b);
        }
    }
}

/// Parse a .cue sheet whose FILE entries reside in a STORE ZIP.
/// `entry_map` maps ASCII-folded filenames to their place in the archive (call-site
/// already scanned it).
pub fn parse_cue_from_zip(
    cue_text: &str,
    zip_path: &Path,
    entry_map: &EntryMap,
) -> (tracks: Vec<Track>)
    requires
        zip_sheet_fits(cue_text@, entry_map@),
    ensures
        exists|archive: PathBuf|
            path_bytes(archive) == borrowed_path_bytes(zip_path) && tracks@ == sheet_tracks(
                commands(cue_text@),
                #[trigger] sheet_in_zip(cue_text@, archive, entry_map@),
            ),
        plainly_read(cue_text@),
        distinct_names(entry_map@),
{
    proof {
        use_type_invariant(entry_map);
    }
    let archive = owned_path(zip_path);
    let resolved = resolve_sheet(cue_text, &archive, entry_map);
    assert(sheet_fits(
        commands(cue_text@),
        sheet_in_zip(cue_text@, archive, entry_map@),
    ));
    parse_cue_impl(cue_text, &resolved)
}

/// The tracks of a .cue sheet whose FILE entries reside in a STORE ZIP, or None where a number
/// that the sheet leads to does not fit in a `u64`.
pub fn try_parse_cue_from_zip(
    cue_text: &str,
    zip_path: &Path,
    entry_map: &EntryMap,
) -> (tracks: Option<Vec<Track>>)
    ensures
        match tracks {
            Some(list) => zip_sheet_fits(cue_text@, entry_map@) && exists|archive: PathBuf|
                path_bytes(archive) == borrowed_path_bytes(zip_path) && list@ == sheet_tracks(
                    commands(cue_text@),
                    #[trigger] sheet_in_zip(cue_text@, archive, entry_map@),
                ),
            None => !zip_sheet_fits(cue_text@, entry_map@),
        },
        plainly_read(cue_text@),
        distinct_names(entry_map@),
{
    proof {
        use_type_invariant(entry_map);
    }
    let archive = owned_path(zip_path);
    let resolved = resolve_sheet(cue_text, &archive, entry_map);
    proof {
        lemma_fits_anywhere(cue_text@, archive, entry_map@);
    }
    if check_sheet(cue_text, &resolved) {
        Some(parse_cue_from_zip(cue_text, zip_path, entry_map))
    } else {
        None
    }
}

} // verus!
