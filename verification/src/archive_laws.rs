//! What the names of a sheet stand for in an archive or beside a file, said of the names themselves.
use vstd::prelude::*;
use vstd::utf8::{encode_utf8, is_ascii_chars, is_ascii_chars_encode_utf8};
use crate::archive::{
    cdg_candidate, cdg_key, distinct_names, entry_named, entry_numbered, entry_views, first_entry,
    resolve_disk_bin, sheet_in_zip, with_entry, zip_resolution, zip_sheet_fits, ArchiveEntry,
    EntryView,
};
use crate::cue::ZipEntry;
use crate::disc::{sheet_fits, ResolvedBin};
use crate::laws::law_fold_joins;
use crate::names::{first_where, folded, lemma_first_where, lemma_first_where_is, track_number};
use crate::names_laws::{law_fold_of_ascii, law_fold_of_small};
use crate::paths::{extension_behind, extension_set, is_separator, no_extension, path_bytes};
use crate::sheet::{commands, file_names};
use crate::text::{ends_with, lowercase};
use crate::text_laws::{law_ends_with, same_letter, same_letters};
use std::path::PathBuf;

verus! {

// ---- Entries by name ---------------------------------------------------------------------------
/// Whether `i` is the only entry called `name`.
pub open spec fn only_entry(entries: Seq<EntryView>, i: int, name: Seq<char>) -> bool {
    &&& 0 <= i < entries.len()
    &&& entries[i].name == name
    &&& forall|k: int| 0 <= k < entries.len() && (#[trigger] entries[k]).name == name ==> k == i
}

pub open spec fn no_entry(entries: Seq<EntryView>, name: Seq<char>) -> bool {
    forall|k: int| 0 <= k < entries.len() ==> (#[trigger] entries[k]).name != name
}

/// Where an entry's data lie in the archive.
pub open spec fn data_of(archive: PathBuf, entry: EntryView) -> ZipEntry {
    ZipEntry { zip_path: archive, data_start: entry.data_start, data_size: entry.data_size }
}

pub open spec fn dot_bin() -> Seq<char> {
    seq!['.', 'b', 'i', 'n']
}

pub open spec fn dot_cdg() -> Seq<char> {
    seq!['.', 'c', 'd', 'g']
}

proof fn lemma_suffixes()
    ensures
        ".bin"@ == dot_bin(),
        ".cdg"@ == dot_cdg(),
        folded(dot_bin()) == dot_bin(),
{
    reveal_strlit(".bin");
    reveal_strlit(".cdg");
    assert(".bin"@ =~= dot_bin());
    assert(".cdg"@ =~= dot_cdg());
    law_fold_of_small(dot_bin());
}

/// A name that ends in `.bin`, in any case, folds to the fold of its stem and `.bin`.
pub proof fn law_fold_of_bin_name(stem: Seq<char>, ext: Seq<char>)
    requires
        same_letters(ext, dot_bin()),
    ensures
        folded(stem + ext) == folded(stem) + dot_bin(),
{
    law_fold_joins(stem, ext);
    assert forall|i: int| 0 <= i < ext.len() implies (#[trigger] ext[i]) as u32 <= 0x7f by {
        assert(same_letter(ext[i], dot_bin()[i]));
    }
    law_fold_of_ascii(ext);
    let f = folded(ext);
    assert forall|i: int| 0 <= i < f.len() implies f[i] == dot_bin()[i] by {
        assert(same_letter(f[i], ext[i]));
        assert(same_letter(ext[i], dot_bin()[i]));
        assert(!(0x41 <= f[i] as u32 <= 0x5a));
    }
    assert(f =~= dot_bin());
}

proof fn lemma_only(entries: Seq<EntryView>, i: int, name: Seq<char>)
    requires
        only_entry(entries, i, name),
    ensures
        first_entry(entries, entry_named(name)) == Some(entries[i]),
{
    lemma_first_where(entries, entry_named(name));
    assert(entry_named(name)(entries[i]));
    if let Some(k) = first_where(entries, entry_named(name)) {
        assert(entries[k].name == name);
    }
}

proof fn lemma_none(entries: Seq<EntryView>, name: Seq<char>)
    requires
        no_entry(entries, name),
    ensures
        first_entry(entries, entry_named(name)) is None,
{
    lemma_first_where(entries, entry_named(name));
}

proof fn lemma_cdg_key(stem: Seq<char>)
    ensures
        cdg_key(stem + dot_bin()) == Some(stem + dot_cdg()),
{
    lemma_suffixes();
    let key = stem + dot_bin();
    law_ends_with(stem, ".bin"@, key);
    assert(key.take(key.len() - 4) =~= stem);
}

/// The name of a bin, whatever its stem, stands for the entry with that name in folded ASCII; its
/// CDG data are the entry with the same stem and `.cdg`.
pub proof fn law_bin_with_cdg(
    stem: Seq<char>,
    ext: Seq<char>,
    archive: PathBuf,
    entries: Seq<EntryView>,
    i: int,
    j: int,
)
    requires
        same_letters(ext, dot_bin()),
        only_entry(entries, i, folded(stem) + dot_bin()),
        only_entry(entries, j, folded(stem) + dot_cdg()),
    ensures
        zip_resolution(stem + ext, archive, entries) == Some(
            ResolvedBin {
                bin_path: None,
                bin_zip: Some(data_of(archive, entries[i])),
                size_sectors: entries[i].data_size / 2352,
                cdg_path: None,
                cdg_zip: Some(data_of(archive, entries[j])),
            },
        ),
{
    law_fold_of_bin_name(stem, ext);
    lemma_only(entries, i, folded(stem) + dot_bin());
    lemma_only(entries, j, folded(stem) + dot_cdg());
    lemma_cdg_key(folded(stem));
}

/// Without an entry of that name with `.cdg`, there are no CDG data.
pub proof fn law_bin_without_cdg(
    stem: Seq<char>,
    ext: Seq<char>,
    archive: PathBuf,
    entries: Seq<EntryView>,
    i: int,
)
    requires
        same_letters(ext, dot_bin()),
        only_entry(entries, i, folded(stem) + dot_bin()),
        no_entry(entries, folded(stem) + dot_cdg()),
    ensures
        zip_resolution(stem + ext, archive, entries) == Some(
            ResolvedBin {
                bin_path: None,
                bin_zip: Some(data_of(archive, entries[i])),
                size_sectors: entries[i].data_size / 2352,
                cdg_path: None,
                cdg_zip: None,
            },
        ),
{
    law_fold_of_bin_name(stem, ext);
    lemma_only(entries, i, folded(stem) + dot_bin());
    lemma_none(entries, folded(stem) + dot_cdg());
    lemma_cdg_key(folded(stem));
}

/// Any other name stands for the entry with that name in folded ASCII, without CDG data.
pub proof fn law_other_image(
    name: Seq<char>,
    archive: PathBuf,
    entries: Seq<EntryView>,
    i: int,
)
    requires
        only_entry(entries, i, folded(name)),
        forall|stem: Seq<char>| folded(name) != #[trigger] (stem + dot_bin()),
    ensures
        zip_resolution(name, archive, entries) == Some(
            ResolvedBin {
                bin_path: None,
                bin_zip: Some(data_of(archive, entries[i])),
                size_sectors: entries[i].data_size / 2352,
                cdg_path: None,
                cdg_zip: None,
            },
        ),
{
    lemma_suffixes();
    lemma_only(entries, i, folded(name));
    let key = folded(name);
    law_ends_with(key, ".bin"@, key);
    if ends_with(key, ".bin"@) {
        let stem = key.take(key.len() - 4);
        assert(key == stem + dot_bin());
    }
}

// ---- Entries by number -------------------------------------------------------------------------
/// Where no entry has the name, the first `.bin` entry with the same track number is meant. The
/// CDG data still go by the name.
pub proof fn law_bin_by_number(
    stem: Seq<char>,
    ext: Seq<char>,
    archive: PathBuf,
    entries: Seq<EntryView>,
    i: int,
    found: Seq<char>,
    n: u32,
)
    requires
        same_letters(ext, dot_bin()),
        no_entry(entries, folded(stem) + dot_bin()),
        no_entry(entries, folded(stem) + dot_cdg()),
        track_number(lowercase(stem + ext)) == Some(n),
        0 <= i < entries.len(),
        entries[i].name == found + dot_bin(),
        track_number(lowercase(entries[i].name)) == Some(n),
        forall|k: int|
            0 <= k < i ==> track_number(lowercase((#[trigger] entries[k]).name)) != Some(n),
    ensures
        zip_resolution(stem + ext, archive, entries) == Some(
            ResolvedBin {
                bin_path: None,
                bin_zip: Some(data_of(archive, entries[i])),
                size_sectors: entries[i].data_size / 2352,
                cdg_path: None,
                cdg_zip: None,
            },
        ),
{
    law_fold_of_bin_name(stem, ext);
    lemma_none(entries, folded(stem) + dot_bin());
    lemma_none(entries, folded(stem) + dot_cdg());
    lemma_cdg_key(folded(stem));
    lemma_suffixes();
    law_ends_with(found, ".bin"@, entries[i].name);
    let p = entry_numbered(n);
    assert(p(entries[i]));
    lemma_first_where_is(entries, p, i);
}

/// The same holds of a name of any kind.
pub proof fn law_image_by_number(
    name: Seq<char>,
    archive: PathBuf,
    entries: Seq<EntryView>,
    i: int,
    found: Seq<char>,
    n: u32,
)
    requires
        no_entry(entries, folded(name)),
        track_number(lowercase(name)) == Some(n),
        0 <= i < entries.len(),
        entries[i].name == found + dot_bin(),
        track_number(lowercase(entries[i].name)) == Some(n),
        forall|k: int|
            0 <= k < i ==> track_number(lowercase((#[trigger] entries[k]).name)) != Some(n),
    ensures
        zip_resolution(name, archive, entries) matches Some(file) && file.bin_zip == Some(
            data_of(archive, entries[i]),
        ) && file.size_sectors == entries[i].data_size / 2352 && file.bin_path is None && file.cdg_path
            is None,
{
    lemma_none(entries, folded(name));
    lemma_suffixes();
    law_ends_with(found, ".bin"@, entries[i].name);
    let p = entry_numbered(n);
    assert(p(entries[i]));
    lemma_first_where_is(entries, p, i);
}

/// The CDG data of a bin that is found by its number go by the name of the sheet.
pub proof fn law_cdg_by_name(
    stem: Seq<char>,
    ext: Seq<char>,
    archive: PathBuf,
    entries: Seq<EntryView>,
    j: int,
)
    requires
        same_letters(ext, dot_bin()),
        only_entry(entries, j, folded(stem) + dot_cdg()),
        zip_resolution(stem + ext, archive, entries) is Some,
    ensures
        zip_resolution(stem + ext, archive, entries)->0.cdg_zip == Some(data_of(archive, entries[j])),
{
    law_fold_of_bin_name(stem, ext);
    lemma_only(entries, j, folded(stem) + dot_cdg());
    lemma_cdg_key(folded(stem));
}

/// A name that no entry has, and whose number no `.bin` entry has, stands for nothing.
pub proof fn law_name_stands_for_nothing(
    name: Seq<char>,
    archive: PathBuf,
    entries: Seq<EntryView>,
)
    requires
        no_entry(entries, folded(name)),
        track_number(lowercase(name)) matches Some(n) ==> forall|k: int, stem: Seq<char>|
            0 <= k < entries.len() && (#[trigger] entries[k]).name == #[trigger] (stem + dot_bin())
                ==> track_number(lowercase(entries[k].name)) != Some(n),
    ensures
        zip_resolution(name, archive, entries) is None,
{
    lemma_suffixes();
    lemma_none(entries, folded(name));
    if let Some(n) = track_number(lowercase(name)) {
        let p = entry_numbered(n);
        lemma_first_where(entries, p);
        if let Some(k) = first_where(entries, p) {
            let key = entries[k].name;
            law_ends_with(key, ".bin"@, key);
            let stem = key.take(key.len() - 4);
            assert(entries[k].name == stem + dot_bin());
        }
    }
}

// ---- Sheets in an archive ----------------------------------------------------------------------
/// Every name of a sheet is resolved by itself, in order.
pub proof fn law_sheet_in_zip(
    text: Seq<char>,
    archive: PathBuf,
    entries: Seq<EntryView>,
    i: int,
)
    requires
        0 <= i < file_names(commands(text)).len(),
    ensures
        sheet_in_zip(text, archive, entries).len() == file_names(commands(text)).len(),
        sheet_in_zip(text, archive, entries)[i] == zip_resolution(
            file_names(commands(text))[i],
            archive,
            entries,
        ),
{
}

/// Whether the numbers of a sheet in an archive fit does not depend on where the archive lies.
pub proof fn law_zip_sheet_fits(text: Seq<char>, archive: PathBuf, entries: Seq<EntryView>)
    ensures
        zip_sheet_fits(text, entries) <==> sheet_fits(
            commands(text),
            sheet_in_zip(text, archive, entries),
        ),
{
    crate::archive::lemma_fits_anywhere(text, archive, entries);
}

/// Entries are seen as they are.
pub proof fn law_entry_views(entries: Seq<ArchiveEntry>, i: int)
    requires
        0 <= i < entries.len(),
    ensures
        entry_views(entries).len() == entries.len(),
        entry_views(entries)[i].name == entries[i].name@,
        entry_views(entries)[i].data_start == entries[i].data_start,
        entry_views(entries)[i].data_size == entries[i].data_size,
{
}

/// After an entry has been put in, its name stands for it, and every other entry is still there.
pub proof fn law_entry_put_in(entries: Seq<EntryView>, entry: EntryView, other: EntryView)
    requires
        distinct_names(entries),
    ensures
        with_entry(entries, entry).contains(entry),
        distinct_names(with_entry(entries, entry)),
        other.name != entry.name ==> (with_entry(entries, entry).contains(other) <==> entries.contains(
            other,
        )),
        other.name == entry.name && with_entry(entries, entry).contains(other) ==> other == entry,
        no_entry(entries, entry.name) ==> with_entry(entries, entry) == entries.push(entry),
{
    let after = with_entry(entries, entry);
    let p = entry_named(entry.name);
    lemma_first_where(entries, p);
    match first_where(entries, p) {
        Some(i) => {
            assert(after[i] == entry);
            assert(entries[i].name == entry.name);
        },
        None => {
            assert(after[entries.len() as int] == entry);
        },
    }
    assert forall|i: int, j: int|
        #![trigger after[i], after[j]]
        0 <= i < after.len() && 0 <= j < after.len() && after[i].name == after[j].name implies i == j by {
        if i < entries.len() && j < entries.len() {
            assert(entries[i].name == after[i].name);
            assert(entries[j].name == after[j].name);
        } else if i < entries.len() {
            assert(!p(entries[i]));
        } else if j < entries.len() {
            assert(!p(entries[j]));
        }
    }
    if other.name != entry.name {
        if entries.contains(other) {
            let k = choose|k: int| 0 <= k < entries.len() && entries[k] == other;
            assert(after[k] == other);
        }
        if after.contains(other) {
            let k = choose|k: int| 0 <= k < after.len() && after[k] == other;
            assert(entries[k] == other);
        }
    } else if after.contains(other) {
        let k = choose|k: int| 0 <= k < after.len() && after[k] == other;
        let m = choose|m: int| 0 <= m < after.len() && after[m] == entry;
        assert(after[k].name == after[m].name);
    }
}

// ---- Beside a file on disk ---------------------------------------------------------------------
/// Whether a path starts with two bytes each of which is a slash, a backslash or a colon.
pub open spec fn starts_with_two_separators(bytes: Seq<u8>) -> bool {
    &&& bytes.len() > 1
    &&& bytes[0] == 0x2f || bytes[0] == 0x5c || bytes[0] == 0x3a
    &&& bytes[1] == 0x2f || bytes[1] == 0x5c || bytes[1] == 0x3a
}

/// The CDG data of a bin on disk are looked for under the same path with `cdg` for an extension: in
/// the place of the one that is there.
pub proof fn law_cdg_path(stem: Seq<u8>, ext: Seq<u8>, changed: Seq<u8>)
    requires
        stem.len() > 0,
        stem.last() != 0x2e && stem.last() != 0x2f && stem.last() != 0x5c && stem.last() != 0x3a,
        !starts_with_two_separators(stem),
        forall|i: int|
            0 <= i < ext.len() ==> #[trigger] ext[i] != 0x2e && ext[i] != 0x2f && ext[i] != 0x5c && ext[i]
                != 0x3a,
        extension_set(stem + seq![0x2eu8] + ext, "cdg"@, changed),
    ensures
        changed == stem + seq![0x2eu8, 0x63u8, 0x64u8, 0x67u8],
{
    let bytes = stem + seq![0x2eu8] + ext;
    let dot = stem.len() as int;
    assert(bytes[dot - 1] == stem.last());
    assert forall|i: int| dot < i < bytes.len() implies #[trigger] bytes[i] != 0x2e && !is_separator(
        bytes[i],
    ) by {
        assert(bytes[i] == ext[i - dot - 1]);
    }
    assert(bytes[0] == stem[0]);
    if stem.len() > 1 {
        assert(bytes[1] == stem[1]);
    }
    assert(extension_behind(bytes, dot));
    lemma_cdg_bytes();
    assert(changed =~= stem + seq![0x2eu8, 0x63u8, 0x64u8, 0x67u8]);
}

proof fn lemma_cdg_bytes()
    ensures
        encode_utf8("cdg"@) == seq![0x63u8, 0x64u8, 0x67u8],
{
    reveal_strlit("cdg");
    assert(is_ascii_chars("cdg"@));
    is_ascii_chars_encode_utf8("cdg"@);
    let c = "cdg"@;
    let e = encode_utf8(c);
    assert(c[0] == 'c' && c[1] == 'd' && c[2] == 'g');
    assert(c[0] as u8 == e[0] && c[1] as u8 == e[1] && c[2] as u8 == e[2]);
    assert(e =~= seq![0x63u8, 0x64u8, 0x67u8]);
}

/// A bin on disk without an extension gets one.
pub proof fn law_cdg_path_added(folder: Seq<u8>, name: Seq<u8>, changed: Seq<u8>)
    requires
        folder.len() > 0 ==> folder.last() == 0x2f,
        !starts_with_two_separators(folder + name),
        name.len() > 0,
        name[0] == 0x2e ==> name.len() > 1,
        forall|i: int| 0 < i < name.len() ==> #[trigger] name[i] != 0x2e && name[i] != 0x2f,
        name.last() != 0x2f && name.last() != 0x5c && name.last() != 0x3a,
        extension_set(folder + name, "cdg"@, changed),
    ensures
        changed == folder + name + seq![0x2eu8, 0x63u8, 0x64u8, 0x67u8],
{
    let bytes = folder + name;
    let from = folder.len() as int;
    assert(bytes[from] == name[0]);
    if from > 0 {
        assert(bytes[from - 1] == folder.last());
    }
    assert forall|i: int| from < i < bytes.len() implies #[trigger] bytes[i] != 0x2e && bytes[i] != 0x2f by {
        assert(bytes[i] == name[i - from]);
    }
    assert(bytes.last() == name.last());
    assert(no_extension(bytes, from));
    lemma_cdg_bytes();
    assert(changed =~= folder + name + seq![0x2eu8, 0x63u8, 0x64u8, 0x67u8]);
}

/// The CDG data of the bin at a path are looked for at the path with the extension `cdg`.
pub proof fn law_cdg_candidate(bin_path: PathBuf, stem: Seq<u8>, ext: Seq<u8>, cdg_path: PathBuf)
    requires
        call_ensures(cdg_candidate, (&bin_path,), cdg_path),
        path_bytes(bin_path) == stem + seq![0x2eu8] + ext,
        stem.len() > 0,
        stem.last() != 0x2e && stem.last() != 0x2f && stem.last() != 0x5c && stem.last() != 0x3a,
        !starts_with_two_separators(stem),
        forall|i: int|
            0 <= i < ext.len() ==> #[trigger] ext[i] != 0x2e && ext[i] != 0x2f && ext[i] != 0x5c && ext[i]
                != 0x3a,
    ensures
        path_bytes(cdg_path) == stem + seq![0x2eu8, 0x63u8, 0x64u8, 0x67u8],
{
    law_cdg_path(stem, ext, path_bytes(cdg_path));
}

/// A bin on disk is as many sectors long as there are whole stretches of 2352 bytes in it; one whose
/// length is not known is empty. The file beside it holds CDG data where it is not empty.
pub proof fn law_bin_on_disk(
    bin_path: PathBuf,
    bin_len: Option<u64>,
    cdg_path: PathBuf,
    cdg_len: Option<u64>,
    resolved: ResolvedBin,
)
    requires
        call_ensures(resolve_disk_bin, (bin_path, bin_len, cdg_path, cdg_len), resolved),
    ensures
        resolved.bin_path == Some(bin_path),
        resolved.bin_zip is None && resolved.cdg_zip is None,
        bin_len matches Some(n) ==> resolved.size_sectors * 2352 <= n < (resolved.size_sectors + 1)
            * 2352,
        bin_len is None ==> resolved.size_sectors == 0,
        cdg_len matches Some(n) ==> n > 0 ==> resolved.cdg_path == Some(cdg_path),
        cdg_len is None || cdg_len == Some(0u64) ==> resolved.cdg_path is None,
{
}

} // verus!
