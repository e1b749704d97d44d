//! Finding the discs of a library folder.
//!
//! `LibraryScan` decides; its user walks the file system and looks into archives.
use vstd::prelude::*;
use vstd::slice::slice_subrange;
use crate::names::{extension_is, first_where, lemma_first_where_is, texts};
use crate::order::{key_views, sorted_by, stable_sort};
use crate::text::{
    ascii_lowercase, chars_of, ends_with, extension, file_stem, find_extension, has_extension, lower_chars,
    same_chars, stands_at, string_of,
};
use std::path::PathBuf;

verus! {

/// How to open a disc from the library.
#[derive(Debug)]
pub enum DiscSource {
    /// A bare .cue file (with .bin/.cdg alongside it).
    Cue(PathBuf),
    /// A ZIP archive (including TorrentZip) containing the disc image files.
    Zip(PathBuf),
    /// A 7z archive (including Torrent7z) containing the disc image files.
    SevenZ(PathBuf),
}

/// A disc found in the library.
#[derive(Debug)]
pub struct DiscEntry {
    pub title: String,
    pub source: DiscSource,
}

pub struct DiscView {
    pub title: Seq<char>,
    pub source: DiscSource,
}

impl View for DiscEntry {
    type V = DiscView;

    open spec fn view(&self) -> DiscView {
        DiscView { title: self.title@, source: self.source }
    }
}

pub open spec fn disc_views(discs: Seq<DiscEntry>) -> Seq<DiscView> {
    discs.map_values(|d: DiscEntry| d@)
}

/// A file of the library: its path, the text of its name, and the bytes of its name, by which
/// the files of a folder are ordered.
#[derive(Debug)]
pub struct LibraryFile {
    pub path: PathBuf,
    pub name: String,
    pub order: Vec<u8>,
}

pub struct FileView {
    pub path: PathBuf,
    pub name: Seq<char>,
    pub order: Seq<u8>,
}

impl View for LibraryFile {
    type V = FileView;

    open spec fn view(&self) -> FileView {
        FileView { path: self.path, name: self.name@, order: self.order@ }
    }
}

pub open spec fn file_views(files: Seq<LibraryFile>) -> Seq<FileView> {
    files.map_values(|f: LibraryFile| f@)
}

/// The key by which a title is sorted: its characters.
pub open spec fn title_key(disc: DiscView) -> Seq<u32> {
    disc.title.map_values(|c: char| c as u32)
}

/// The key by which a file is sorted: the bytes of its name.
pub open spec fn file_key(file: FileView) -> Seq<u32> {
    file.order.map_values(|b: u8| b as u32)
}

pub open spec fn title_keys(discs: Seq<DiscView>) -> Seq<Seq<u32>> {
    discs.map_values(|d: DiscView| title_key(d))
}

pub open spec fn file_keys(files: Seq<FileView>) -> Seq<Seq<u32>> {
    files.map_values(|f: FileView| file_key(f))
}

/// A bare .cue file.
pub open spec fn is_cue_file() -> spec_fn(FileView) -> bool {
    |file: FileView| extension(file.name) == Some("cue"@)
}

/// The disc that a file is, provided that it is an archive and holds a .cue.
pub open spec fn candidate(file: FileView) -> Option<DiscView> {
    if has_extension(file.name, "zip"@) {
        Some(DiscView { title: file_stem(file.name), source: DiscSource::Zip(file.path) })
    } else if has_extension(file.name, "7z"@) {
        Some(DiscView { title: file_stem(file.name), source: DiscSource::SevenZ(file.path) })
    } else {
        None
    }
}

/// The candidates among `files`, in order.
pub open spec fn candidates(files: Seq<FileView>) -> Seq<DiscView>
    decreases files.len(),
{
    if files.len() == 0 {
        Seq::empty()
    } else {
        let before = candidates(files.drop_last());
        match candidate(files.last()) {
            Some(disc) => before.push(disc),
            None => before,
        }
    }
}

/// Whether an archive entry of this name is a .cue.
pub open spec fn is_cue_name(name: Seq<char>) -> bool {
    ends_with(ascii_lowercase(name), ".cue"@)
}

/// The archives among `discs` that are ZIP archives.
pub open spec fn only_zips(discs: Seq<DiscView>) -> Seq<DiscView> {
    discs.filter(|d: DiscView| d.source is Zip)
}

/// The state of a scan: the discs found so far, and the archives to look into next. Each ZIP archive
/// that holds a .cue is a disc. A 7z archive that holds one is a disc where no archive before it in
/// the folder is.
pub struct ScanView {
    pub discs: Seq<DiscView>,
    pub pending: Seq<DiscView>,
}

impl ScanView {
    /// After a folder called `title`, with its `files` sorted by name: its first .cue, or else
    /// its archives are to be looked into.
    pub open spec fn folder(self, title: Seq<char>, files: Seq<FileView>) -> ScanView {
        match first_where(files, is_cue_file()) {
            Some(i) => ScanView {
                discs: self.discs.push(DiscView { title, source: DiscSource::Cue(files[i].path) }),
                pending: Seq::empty(),
            },
            None => ScanView { discs: self.discs, pending: candidates(files) },
        }
    }

    /// After a file at the top of the library.
    pub open spec fn file(self, file: FileView) -> ScanView {
        ScanView {
            discs: self.discs,
            pending: match candidate(file) {
                Some(disc) => seq![disc],
                None => Seq::empty(),
            },
        }
    }

    /// After the first pending archive has been looked into.
    pub open spec fn probed(self, contains_cue: bool) -> ScanView {
        if self.pending.len() == 0 {
            self
        } else if contains_cue {
            ScanView {
                discs: self.discs.push(self.pending[0]),
                pending: only_zips(self.pending.drop_first()),
            }
        } else {
            ScanView { discs: self.discs, pending: self.pending.drop_first() }
        }
    }
}

/// A scan of a library folder, under way.
#[derive(Debug)]
pub struct LibraryScan {
    pub discs: Vec<DiscEntry>,
    pub pending: Vec<DiscEntry>,
}

impl View for LibraryScan {
    type V = ScanView;

    open spec fn view(&self) -> ScanView {
        ScanView { discs: disc_views(self.discs@), pending: disc_views(self.pending@) }
    }
}

/// A file name without its extension and the dot before it.
fn stem_of(name: &str) -> (stem: String)
    ensures
        stem@ == file_stem(name@),
{
    let chars = chars_of(name);
    match find_extension(&chars) {
        Some(dot) => {
            let stem = string_of(slice_subrange(&chars, 0, dot));
            assert(stem@ =~= name@.take(dot as int));
            stem
        },
        None => string_of(&chars),
    }
}

/// The disc that a file is, provided that it is an archive and holds a .cue.
fn disc_candidate(file: &LibraryFile) -> (disc: Option<DiscEntry>)
    ensures
        match disc {
            Some(d) => candidate(file@) == Some(d@),
            None => candidate(file@) is None,
        },
{
    if extension_is(&file.name, "zip") {
        Some(DiscEntry { title: stem_of(&file.name), source: DiscSource::Zip(file.path.clone()) })
    } else if extension_is(&file.name, "7z") {
        Some(DiscEntry { title: stem_of(&file.name), source: DiscSource::SevenZ(file.path.clone()) })
    } else {
        None
    }
}

/// Whether a file is a bare .cue file.
fn is_bare_cue(name: &str) -> (yes: bool)
    ensures
        yes == (extension(name@) == Some("cue"@)),
{
    let chars = chars_of(name);
    match find_extension(&chars) {
        Some(dot) => {
            assert(dot < chars.len());
            let found = slice_subrange(&chars, dot + 1, chars.len());
            assert(found@ =~= name@.skip(dot + 1));
            same_chars(found, &chars_of("cue"))
        },
        None => false,
    }
}

/// The files of a folder, sorted by name.
fn sort_files(files: Vec<LibraryFile>) -> (sorted: Vec<LibraryFile>)
    ensures
        sorted_by(file_views(files@), file_keys(file_views(files@)), file_views(sorted@)),
{
    let ghost want = file_keys(file_views(files@));
    let mut keys: Vec<Vec<u32>> = Vec::new();
    let mut i: usize = 0;
    while i < files.len()
        invariant
            i <= files@.len(),
            want == file_keys(file_views(files@)),
            key_views(keys@) == want.take(i as int),
        decreases files@.len() - i,
    {
        let order = &files[i].order;
        let mut key: Vec<u32> = Vec::new();
        let mut k: usize = 0;
        while k < order.len()
            invariant
                k <= order@.len(),
                key@ == order@.map_values(|b: u8| b as u32).take(k as int),
            decreases order@.len() - k,
        {
            key.push(order[k] as u32);
            assert(order@.map_values(|b: u8| b as u32).take(k as int).push(order@[k as int] as u32)
                =~= order@.map_values(|b: u8| b as u32).take(k + 1));
            k = k + 1;
        }
        let ghost before = keys@;
        proof {
            assert(key@ =~= want[i as int]);
        }
        keys.push(key);
        proof {
            assert(key_views(keys@) =~= key_views(before).push(key@));
            assert(want.take(i as int).push(want[i as int]) =~= want.take(i + 1));
        }
        i = i + 1;
    }
    proof {
        assert(want.take(i as int) =~= want);
        assert(keys@.len() == key_views(keys@).len());
    }
    let ghost input = files@;
    let sorted = stable_sort(files, keys);
    proof {
        let p = choose|p: Seq<int>|
            #[trigger] crate::order::stable_order(want, p) && sorted@ == p.map_values(|i: int| input[i]);
        assert(file_views(sorted@) =~= p.map_values(|i: int| file_views(input)[i]));
    }
    sorted
}

/// The discs, sorted by title.
fn sort_discs(discs: Vec<DiscEntry>) -> (sorted: Vec<DiscEntry>)
    ensures
        sorted_by(disc_views(discs@), title_keys(disc_views(discs@)), disc_views(sorted@)),
{
    let ghost want = title_keys(disc_views(discs@));
    let mut keys: Vec<Vec<u32>> = Vec::new();
    let mut i: usize = 0;
    while i < discs.len()
        invariant
            i <= discs@.len(),
            want == title_keys(disc_views(discs@)),
            key_views(keys@) == want.take(i as int),
        decreases discs@.len() - i,
    {
        let title = chars_of(&discs[i].title);
        let mut key: Vec<u32> = Vec::new();
        let mut k: usize = 0;
        while k < title.len()
            invariant
                k <= title@.len(),
                key@ == title@.map_values(|c: char| c as u32).take(k as int),
            decreases title@.len() - k,
        {
            key.push(title[k] as u32);
            assert(title@.map_values(|c: char| c as u32).take(k as int).push(title@[k as int] as u32)
                =~= title@.map_values(|c: char| c as u32).take(k + 1));
            k = k + 1;
        }
        let ghost before = keys@;
        proof {
            assert(key@ =~= want[i as int]);
        }
        keys.push(key);
        proof {
            assert(key_views(keys@) =~= key_views(before).push(key@));
            assert(want.take(i as int).push(want[i as int]) =~= want.take(i + 1));
        }
        i = i + 1;
    }
    proof {
        assert(want.take(i as int) =~= want);
        assert(keys@.len() == key_views(keys@).len());
    }
    let ghost input = discs@;
    let sorted = stable_sort(discs, keys);
    proof {
        let p = choose|p: Seq<int>|
            #[trigger] crate::order::stable_order(want, p) && sorted@ == p.map_values(|i: int| input[i]);
        assert(disc_views(sorted@) =~= p.map_values(|i: int| disc_views(input)[i]));
    }
    sorted
}

/// The first bare .cue file.
fn find_cue(files: &Vec<LibraryFile>) -> (found: Option<usize>)
    ensures
        match found {
            Some(i) => i < files@.len() && first_where(file_views(files@), is_cue_file()) == Some(
                i as int,
            ),
            None => first_where(file_views(files@), is_cue_file()) is None,
        },
{
    let ghost views = file_views(files@);
    let mut i: usize = 0;
    while i < files.len()
        invariant
            i <= files@.len(),
            views == file_views(files@),
            forall|j: int| 0 <= j < i ==> !is_cue_file()(#[trigger] views[j]),
        decreases files@.len() - i,
    {
        assert(views[i as int] == files@[i as int]@);
        if is_bare_cue(&files[i].name) {
            proof {
                lemma_first_where_is(views, is_cue_file(), i as int);
            }
            return Some(i);
        }
        i = i + 1;
    }
    proof {
        lemma_first_where_is(views, is_cue_file(), i as int);
    }
    None
}

/// The candidates among `files`, in order.
fn find_candidates(files: &Vec<LibraryFile>) -> (discs: Vec<DiscEntry>)
    ensures
        disc_views(discs@) == candidates(file_views(files@)),
{
    let ghost views = file_views(files@);
    let mut discs: Vec<DiscEntry> = Vec::new();
    let mut i: usize = 0;
    assert(disc_views(discs@) =~= candidates(views.take(0)));
    while i < files.len()
        invariant
            i <= files@.len(),
            views == file_views(files@),
            disc_views(discs@) == candidates(views.take(i as int)),
        decreases files@.len() - i,
    {
        let ghost before = discs@;
        proof {
            assert(views[i as int] == files@[i as int]@);
            assert(views.take(i + 1).drop_last() =~= views.take(i as int));
            assert(views.take(i + 1).last() == views[i as int]);
        }
        if let Some(disc) = disc_candidate(&files[i]) {
            discs.push(disc);
            assert(disc_views(discs@) =~= disc_views(before).push(disc@));
        }
        i = i + 1;
    }
    assert(views.take(i as int) =~= views);
    discs
}

/// The ZIP archives among `discs`, in order.
fn keep_zips(discs: Vec<DiscEntry>) -> (zips: Vec<DiscEntry>)
    ensures
        disc_views(zips@) == only_zips(disc_views(discs@)),
{
    let ghost views = disc_views(discs@);
    let mut discs = discs;
    let mut zips: Vec<DiscEntry> = Vec::new();
    let ghost mut done: Seq<DiscView> = Seq::empty();
    proof {
        reveal(Seq::filter);
        assert(disc_views(zips@) =~= only_zips(done));
        assert(done + disc_views(discs@) =~= views);
    }
    while discs.len() > 0
        invariant
            done + disc_views(discs@) == views,
            disc_views(zips@) == only_zips(done),
        decreases discs@.len(),
    {
        let ghost before = discs@;
        let ghost kept = zips@;
        let disc = discs.remove(0);
        proof {
            assert(disc_views(discs@) =~= disc_views(before).drop_first());
            assert(disc_views(before)[0] == disc@);
            assert(done + disc_views(before) =~= done.push(disc@) + disc_views(discs@));
            lemma_only_zips_push(done, disc@);
            done = done.push(disc@);
        }
        if let DiscSource::Zip(_) = disc.source {
            zips.push(disc);
            assert(disc_views(zips@) =~= disc_views(kept).push(disc@));
        }
    }
    assert(done =~= views);
    zips
}

pub(crate) proof fn lemma_only_zips_push(discs: Seq<DiscView>, d: DiscView)
    ensures
        only_zips(discs.push(d)) == (if d.source is Zip {
            only_zips(discs).push(d)
        } else {
            only_zips(discs)
        }),
{
    reveal(Seq::filter);
    assert(discs.push(d).drop_last() =~= discs);
}

/// Returns true if, of the entry names of an archive, at least one is a .cue.
pub fn contains_cue(names: &Vec<String>) -> (yes: bool)
    ensures
        yes == exists|i: int| 0 <= i < names@.len() && is_cue_name(#[trigger] texts(names@)[i]),
{
    let suffix = chars_of(".cue");
    let mut i: usize = 0;
    while i < names.len()
        invariant
            i <= names@.len(),
            suffix@ == ".cue"@,
            forall|j: int| 0 <= j < i ==> !is_cue_name(#[trigger] texts(names@)[j]),
        decreases names@.len() - i,
    {
        let lower = lower_chars(&chars_of(&names[i]));
        assert(texts(names@)[i as int] == names@[i as int]@);
        if lower.len() >= suffix.len() && stands_at(&lower, &suffix, lower.len() - suffix.len()) {
            return true;
        }
        i = i + 1;
    }
    false
}

impl LibraryScan {
    /// A scan that has found nothing yet.
    pub fn new() -> (scan: LibraryScan)
        ensures
            scan@ == (ScanView { discs: Seq::empty(), pending: Seq::empty() }),
    {
        let scan = LibraryScan { discs: Vec::new(), pending: Vec::new() };
        assert(scan@.discs =~= Seq::empty());
        assert(scan@.pending =~= Seq::empty());
        scan
    }

    /// Takes in a subdirectory of the library, with the files that it holds in any order.
    pub fn enter_folder(&mut self, title: String, files: Vec<LibraryFile>)
        ensures
            exists|sorted: Seq<FileView>|
                sorted_by(file_views(files@), file_keys(file_views(files@)), sorted) && final(self)@
                    == #[trigger] old(self)@.folder(title@, sorted),
    {
        let files = sort_files(files);
        let ghost sorted = file_views(files@);

        // Plain .cue files first.
        if let Some(i) = find_cue(&files) {
            assert(sorted[i as int] == files@[i as int]@);
            let disc = DiscEntry { title, source: DiscSource::Cue(files[i].path.clone()) };
            let ghost before = self.discs@;
            self.discs.push(disc);
            self.pending = Vec::new();
            proof {
                assert(disc_views(self.discs@) =~= disc_views(before).push(disc@));
                assert(disc_views(self.pending@) =~= Seq::empty());
            }
        } else {
            // No bare .cue: the archives of the folder are candidates.
            self.pending = find_candidates(&files);
        }
        assert(self@ == old(self)@.folder(title@, sorted));
    }

    /// Takes in a file at the top of the library.
    pub fn enter_file(&mut self, file: LibraryFile)
        ensures
            final(self)@ == old(self)@.file(file@),
    {
        let mut pending: Vec<DiscEntry> = Vec::new();
        if let Some(disc) = disc_candidate(&file) {
            pending.push(disc);
            assert(disc_views(pending@) =~= seq![disc@]);
        } else {
            assert(disc_views(pending@) =~= Seq::empty());
        }
        self.pending = pending;
    }

    /// The archive to look into next: whether it contains a .cue is then told to `probed`.
    pub fn next_probe(&self) -> (source: Option<&DiscSource>)
        ensures
            match source {
                Some(s) => self@.pending.len() > 0 && *s == self@.pending[0].source,
                None => self@.pending.len() == 0,
            },
    {
        if self.pending.len() > 0 {
            assert(self@.pending[0] == self.pending@[0]@);
            Some(&self.pending[0].source)
        } else {
            None
        }
    }

    /// Takes in whether the archive that `next_probe` named contains a .cue.
    pub fn probed(&mut self, contains_cue: bool)
        ensures
            final(self)@ == old(self)@.probed(contains_cue),
    {
        if self.pending.len() > 0 {
            let ghost discs = self.discs@;
            let ghost pending = self.pending@;
            let disc = self.pending.remove(0);
            if contains_cue {
                self.discs.push(disc);
                assert(disc_views(self.discs@) =~= disc_views(discs).push(disc_views(pending)[0]));
                assert(disc_views(self.pending@) =~= disc_views(pending).drop_first());
                let mut rest: Vec<DiscEntry> = Vec::new();
                std::mem::swap(&mut rest, &mut self.pending);
                self.pending = keep_zips(rest);
            } else {
                assert(disc_views(self.pending@) =~= disc_views(pending).drop_first());
            }
        }
    }

    /// The discs found, sorted by title.
    pub fn finish(self) -> (discs: Vec<DiscEntry>)
        ensures
            sorted_by(self@.discs, title_keys(self@.discs), disc_views(discs@)),
    {
        sort_discs(self.discs)
    }
}

} // verus!
