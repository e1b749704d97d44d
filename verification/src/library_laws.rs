//! How a library is scanned and listed, and its settings kept, said of names, titles and bytes.
use vstd::prelude::*;
use vstd::utf8::{decode_utf8, decode_utf8_encode_utf8, encode_utf8, valid_utf8};
use crate::config::{saves, Config, SaveAction};
use crate::library::{
    candidate, candidates, disc_views, file_key, file_keys, file_views, is_cue_file, is_cue_name,
    lemma_only_zips_push, only_zips, title_key, title_keys, DiscEntry, DiscSource, DiscView,
    FileView, LibraryFile, LibraryScan, ScanView,
};
use crate::names::{first_where, lemma_first_where};
use crate::order::{comes_before, key_le, key_views, sorted_by, stable_order};
use crate::paths::path_bytes;
use crate::text::{ascii_lowercase, extension, file_stem};
use crate::text_laws::{
    all_blank, blank, lacks, law_extension, law_has_extension, law_no_extension, law_same_letters,
    law_trim, same_letters,
};
use std::path::PathBuf;

verus! {

// ---- Order -------------------------------------------------------------------------------------
/// Whether `a` stands at or before `b` in the order of a dictionary: where they first differ, at
/// `k`, either `a` ends or it has the smaller number there.
pub open spec fn in_order_at(a: Seq<u32>, b: Seq<u32>, k: int) -> bool {
    &&& 0 <= k <= a.len()
    &&& k <= b.len()
    &&& forall|i: int| 0 <= i < k ==> a[i] == #[trigger] b[i]
    &&& k == a.len() || (k < b.len() && a[k] < b[k])
}

proof fn lemma_in_order(a: Seq<u32>, b: Seq<u32>) -> (k: int)
    requires
        key_le(a, b),
    ensures
        in_order_at(a, b, k),
    decreases a.len(),
{
    if a.len() > 0 && a[0] == b[0] {
        let n = lemma_in_order(a.drop_first(), b.drop_first());
        let k = n + 1;
        assert forall|i: int| 0 <= i < k implies a[i] == #[trigger] b[i] by {
            if i > 0 {
                assert(a.drop_first()[i - 1] == b.drop_first()[i - 1]);
            }
        }
        if k < a.len() {
            assert(a.drop_first()[n] < b.drop_first()[n]);
        }
        k
    } else {
        0
    }
}

/// A sorted list holds every item once, in the order of the keys as in a dictionary, where the
/// whole keys count. Items with the same key keep their order.
pub proof fn law_sorted_list<A>(input: Seq<A>, keys: Seq<Seq<u32>>, output: Seq<A>) -> (p: Seq<int>)
    requires
        input.len() == keys.len(),
        sorted_by(input, keys, output),
    ensures
        p.len() == input.len(),
        output.len() == input.len(),
        p.no_duplicates(),
        forall|i: int| 0 <= i < p.len() ==> 0 <= #[trigger] p[i] < input.len() && output[i] == input[p[i]],
        forall|i: int, j: int|
            #![trigger p[i], p[j]]
            0 <= i < j < p.len() ==> (exists|k: int| in_order_at(keys[p[i]], keys[p[j]], k)) && (
            keys[p[i]] == keys[p[j]] ==> p[i] < p[j]),
{
    let p = choose|p: Seq<int>|
        #[trigger] stable_order(keys, p) && output == p.map_values(|i: int| input[i]);
    assert forall|i: int, j: int|
        #![trigger p[i], p[j]]
        0 <= i < j < p.len() implies (exists|k: int| in_order_at(keys[p[i]], keys[p[j]], k)) && (
    keys[p[i]] == keys[p[j]] ==> p[i] < p[j]) by {
        assert(comes_before(keys[p[i]], p[i], keys[p[j]], p[j]));
        let k = lemma_in_order(keys[p[i]], keys[p[j]]);
        assert(in_order_at(keys[p[i]], keys[p[j]], k));
    }
    p
}

/// The keys that a list of keys holds.
pub proof fn law_key_views(keys: Seq<Vec<u32>>, i: int)
    requires
        0 <= i < keys.len(),
    ensures
        key_views(keys).len() == keys.len(),
        key_views(keys)[i] == keys[i]@,
{
}

/// Whether `a` stands at or before `b` in the order of a dictionary, by the code points of their
/// characters: where they first differ, at `k`, either `a` ends or it has the smaller character.
pub open spec fn text_in_order_at(a: Seq<char>, b: Seq<char>, k: int) -> bool {
    &&& 0 <= k <= a.len()
    &&& k <= b.len()
    &&& forall|i: int| 0 <= i < k ==> a[i] == #[trigger] b[i]
    &&& k == a.len() || (k < b.len() && a[k] < b[k])
}

pub open spec fn bytes_in_order_at(a: Seq<u8>, b: Seq<u8>, k: int) -> bool {
    &&& 0 <= k <= a.len()
    &&& k <= b.len()
    &&& forall|i: int| 0 <= i < k ==> a[i] == #[trigger] b[i]
    &&& k == a.len() || (k < b.len() && a[k] < b[k])
}

/// Whether a disc with title `a`, found at position `i`, may stand before one with title `b`, found
/// at position `j`.
pub open spec fn titles_in_order(a: Seq<char>, i: int, b: Seq<char>, j: int) -> bool {
    (exists|k: int| text_in_order_at(a, b, k)) && (a == b ==> i < j)
}

/// Whether a file with the name `a`, met at position `i`, may stand before one with the name `b`,
/// met at position `j`.
pub open spec fn names_in_order(a: Seq<u8>, i: int, b: Seq<u8>, j: int) -> bool {
    (exists|k: int| bytes_in_order_at(a, b, k)) && (a == b ==> i < j)
}

proof fn lemma_code_points(c: char, d: char)
    ensures
        c as u32 == d as u32 <==> c == d,
        (c as u32) < (d as u32) <==> c < d,
{
}

proof fn lemma_title_order(a: DiscView, b: DiscView, k: int)
    requires
        in_order_at(title_key(a), title_key(b), k),
    ensures
        text_in_order_at(a.title, b.title, k),
{
    let x = title_key(a);
    let y = title_key(b);
    assert(x.len() == a.title.len() && y.len() == b.title.len());
    assert forall|i: int| 0 <= i < k implies a.title[i] == #[trigger] b.title[i] by {
        assert(x[i] == y[i]);
        assert(x[i] == a.title[i] as u32 && y[i] == b.title[i] as u32);
        lemma_code_points(a.title[i], b.title[i]);
    }
    if k < a.title.len() {
        assert(x[k] == a.title[k] as u32 && y[k] == b.title[k] as u32);
        lemma_code_points(a.title[k], b.title[k]);
    }
}

/// The finished list holds every disc that was found, once, in the order of the titles: of two
/// discs, where the titles first differ, the earlier one ends or has the smaller character there.
/// The whole titles count. Discs with the same title keep the order in which they were found.
pub proof fn law_discs_in_order(found: Seq<DiscView>, sorted: Seq<DiscView>) -> (p: Seq<int>)
    requires
        sorted_by(found, title_keys(found), sorted),
    ensures
        p.len() == found.len(),
        sorted.len() == found.len(),
        p.no_duplicates(),
        forall|i: int| 0 <= i < p.len() ==> 0 <= #[trigger] p[i] < found.len() && sorted[i] == found[p[i]],
        forall|i: int, j: int|
            #![trigger p[i], p[j]]
            0 <= i < j < p.len() ==> titles_in_order(sorted[i].title, p[i], sorted[j].title, p[j]),
{
    let keys = title_keys(found);
    let p = law_sorted_list(found, keys, sorted);
    assert forall|i: int, j: int|
        #![trigger p[i], p[j]]
        0 <= i < j < p.len() implies titles_in_order(sorted[i].title, p[i], sorted[j].title, p[j]) by {
        assert(keys[p[i]] == title_key(sorted[i]));
        assert(keys[p[j]] == title_key(sorted[j]));
        let k = choose|k: int| in_order_at(keys[p[i]], keys[p[j]], k);
        lemma_title_order(sorted[i], sorted[j], k);
        assert(text_in_order_at(sorted[i].title, sorted[j].title, k));
    }
    p
}

proof fn lemma_file_order(a: FileView, b: FileView, k: int)
    requires
        in_order_at(file_key(a), file_key(b), k),
    ensures
        bytes_in_order_at(a.order, b.order, k),
{
    let x = file_key(a);
    let y = file_key(b);
    assert(x.len() == a.order.len() && y.len() == b.order.len());
    assert forall|i: int| 0 <= i < k implies a.order[i] == #[trigger] b.order[i] by {
        assert(x[i] == y[i]);
    }
    if k < a.order.len() {
        assert(x[k] == a.order[k] as u32 && y[k] == b.order[k] as u32);
    }
}

/// The files of a folder are taken in the order of the bytes of their whole names.
pub proof fn law_files_in_order(files: Seq<FileView>, sorted: Seq<FileView>) -> (p: Seq<int>)
    requires
        sorted_by(files, file_keys(files), sorted),
    ensures
        p.len() == files.len(),
        sorted.len() == files.len(),
        p.no_duplicates(),
        forall|i: int| 0 <= i < p.len() ==> 0 <= #[trigger] p[i] < files.len() && sorted[i] == files[p[i]],
        forall|i: int, j: int|
            #![trigger p[i], p[j]]
            0 <= i < j < p.len() ==> names_in_order(sorted[i].order, p[i], sorted[j].order, p[j]),
{
    let keys = file_keys(files);
    let p = law_sorted_list(files, keys, sorted);
    assert forall|i: int, j: int|
        #![trigger p[i], p[j]]
        0 <= i < j < p.len() implies names_in_order(sorted[i].order, p[i], sorted[j].order, p[j]) by {
        assert(keys[p[i]] == file_key(sorted[i]));
        assert(keys[p[j]] == file_key(sorted[j]));
        let k = choose|k: int| in_order_at(keys[p[i]], keys[p[j]], k);
        lemma_file_order(sorted[i], sorted[j], k);
        assert(bytes_in_order_at(sorted[i].order, sorted[j].order, k));
    }
    p
}

// ---- Files of a library ------------------------------------------------------------------------
/// A bare .cue file is one whose name ends in `.cue`, behind at least one character.
pub proof fn law_cue_file(file: FileView)
    ensures
        is_cue_file()(file) <==> file.name.len() > 4 && file.name.skip(file.name.len() - 4) == seq![
            '.',
            'c',
            'u',
            'e',
        ],
{
    reveal_strlit("cue");
    let cue = seq!['c', 'u', 'e'];
    assert("cue"@ =~= cue);
    let name = file.name;
    let n = name.len() as int;
    if n > 4 && name.skip(n - 4) == seq!['.', 'c', 'u', 'e'] {
        let stem = name.take(n - 4);
        let tail = name.skip(n - 4);
        assert(name =~= stem + seq!['.'] + cue) by {
            assert(tail[0] == name[n - 4] && tail[1] == name[n - 3] && tail[2] == name[n - 2]
                && tail[3] == name[n - 1]);
        }
        law_extension(stem, cue);
    }
    if is_cue_file()(file) {
        lemma_extension_parts(name);
        let dot = n - 4;
        assert(name =~= name.take(dot) + seq!['.'] + cue);
        assert(name.skip(dot) =~= seq!['.', 'c', 'u', 'e']);
    }
}

/// A name with an extension is its stem, a dot and the extension.
proof fn lemma_extension_parts(name: Seq<char>)
    requires
        extension(name) is Some,
    ensures
        file_stem(name).len() > 0,
        name == file_stem(name) + seq!['.'] + extension(name)->0,
{
    lemma_last_dot_at(name);
    let dot = crate::text::extension_dot(name)->0;
    assert(name =~= name.take(dot) + seq!['.'] + name.skip(dot + 1));
}

proof fn lemma_last_dot_at(name: Seq<char>)
    ensures
        crate::text::last_dot(name) matches Some(dot) ==> 0 <= dot < name.len() && name[dot] == '.',
    decreases name.len(),
{
    if name.len() > 0 && name.last() != '.' {
        lemma_last_dot_at(name.drop_last());
    }
}

/// A file is a candidate where its extension is zip or 7z, in any case; its title is its name
/// without the extension.
pub proof fn law_candidate(file: FileView, stem: Seq<char>, ext: Seq<char>)
    requires
        file.name == stem + seq!['.'] + ext,
        stem.len() > 0,
        ext.len() > 0,
        lacks(ext, '.'),
    ensures
        same_letters(ext, seq!['z', 'i', 'p']) ==> candidate(file) == Some(
            DiscView { title: stem, source: DiscSource::Zip(file.path) },
        ),
        same_letters(ext, seq!['7', 'z']) ==> candidate(file) == Some(
            DiscView { title: stem, source: DiscSource::SevenZ(file.path) },
        ),
        !same_letters(ext, seq!['z', 'i', 'p']) && !same_letters(ext, seq!['7', 'z']) ==> candidate(
            file,
        ) is None,
{
    reveal_strlit("zip");
    reveal_strlit("7z");
    assert("zip"@ =~= seq!['z', 'i', 'p']);
    assert("7z"@ =~= seq!['7', 'z']);
    law_extension(stem, ext);
    law_has_extension(stem, ext, "zip"@);
    law_has_extension(stem, ext, "7z"@);
}

/// A file without an extension is no candidate.
pub proof fn law_no_candidate(file: FileView)
    requires
        forall|i: int| 0 < i < file.name.len() ==> #[trigger] file.name[i] != '.',
    ensures
        candidate(file) is None,
        !is_cue_file()(file),
{
    law_no_extension(file.name);
}

/// The candidates of a folder are those of its files, in order.
pub proof fn law_candidates(files: Seq<FileView>, file: FileView)
    ensures
        candidates(Seq::<FileView>::empty()).len() == 0,
        candidates(files.push(file)) == (match candidate(file) {
            Some(disc) => candidates(files).push(disc),
            None => candidates(files),
        }),
{
    assert(files.push(file).drop_last() =~= files);
}

/// A folder with .cue files is one disc: that of the .cue file whose name comes first by its bytes.
/// Its title is that of the folder, and the archives of the folder are left alone.
pub proof fn law_folder_with_cue(
    scan: ScanView,
    title: Seq<char>,
    files: Seq<FileView>,
    sorted: Seq<FileView>,
    any: int,
) -> (first: int)
    requires
        sorted_by(files, file_keys(files), sorted),
        0 <= any < files.len(),
        is_cue_file()(files[any]),
    ensures
        0 <= first < files.len(),
        is_cue_file()(files[first]),
        forall|f: int|
            0 <= f < files.len() && f != first && is_cue_file()(#[trigger] files[f]) ==> exists|k: int|
                bytes_in_order_at(files[first].order, files[f].order, k),
        scan.folder(title, sorted) == (ScanView {
            discs: scan.discs.push(DiscView { title, source: DiscSource::Cue(files[first].path) }),
            pending: Seq::empty(),
        }),
{
    let p = law_files_in_order(files, sorted);
    crate::laws::lemma_all_positions(p, files.len() as int);
    lemma_first_where(sorted, is_cue_file());
    assert(p.contains(any));
    let at = choose|at: int| 0 <= at < p.len() && p[at] == any;
    assert(is_cue_file()(sorted[at]));
    let i = first_where(sorted, is_cue_file())->0;
    let first = p[i];
    assert(sorted[i] == files[first]);
    assert forall|f: int|
        0 <= f < files.len() && f != first && is_cue_file()(#[trigger] files[f]) implies exists|k: int|
        bytes_in_order_at(files[first].order, files[f].order, k) by {
        assert(p.contains(f));
        let j = choose|j: int| 0 <= j < p.len() && p[j] == f;
        assert(sorted[j] == files[f]);
        assert(is_cue_file()(sorted[j]));
        assert(i < j) by {
            if j < i {
                assert(!is_cue_file()(sorted[j]));
            }
        }
        assert(names_in_order(sorted[i].order, p[i], sorted[j].order, p[j]));
    }
    first
}

/// In a folder without .cue files, the archives are to be looked into, in the order of their names.
pub proof fn law_folder_without_cue(
    scan: ScanView,
    title: Seq<char>,
    files: Seq<FileView>,
    sorted: Seq<FileView>,
)
    requires
        sorted_by(files, file_keys(files), sorted),
        forall|f: int| 0 <= f < files.len() ==> !is_cue_file()(#[trigger] files[f]),
    ensures
        scan.folder(title, sorted) == (ScanView { discs: scan.discs, pending: candidates(sorted) }),
{
    let p = law_files_in_order(files, sorted);
    lemma_first_where(sorted, is_cue_file());
    if let Some(i) = first_where(sorted, is_cue_file()) {
        assert(0 <= p[i] < files.len());
        assert(sorted[i] == files[p[i]]);
        assert(!is_cue_file()(files[p[i]]));
    }
}

/// A file at the top of the library is to be looked into where it is an archive.
pub proof fn law_file_at_the_top(scan: ScanView, file: FileView)
    ensures
        scan.file(file).discs == scan.discs,
        candidate(file) matches Some(disc) ==> scan.file(file).pending == seq![disc],
        candidate(file) is None ==> scan.file(file).pending == Seq::<DiscView>::empty(),
{
}

/// What is answered of the first pending archive decides about that archive: it is a disc or not.
/// Every other ZIP archive stays pending; a 7z archive does unless there was a match.
pub proof fn law_answer(scan: ScanView, contains_cue: bool, d: DiscView)
    requires
        scan.pending.len() > 0,
    ensures
        scan.probed(contains_cue).discs == (if contains_cue {
            scan.discs.push(scan.pending[0])
        } else {
            scan.discs
        }),
        !contains_cue ==> scan.probed(contains_cue).pending == scan.pending.drop_first(),
        contains_cue ==> (scan.probed(contains_cue).pending.contains(d) <==> d.source is Zip
            && scan.pending.drop_first().contains(d)),
{
    if contains_cue {
        lemma_zips(scan.pending.drop_first(), d);
    }
}

proof fn lemma_zips(discs: Seq<DiscView>, d: DiscView)
    ensures
        only_zips(discs).contains(d) <==> d.source is Zip && discs.contains(d),
    decreases discs.len(),
{
    if discs.len() == 0 {
        reveal(Seq::filter);
    } else {
        let before = discs.drop_last();
        let last = discs.last();
        lemma_zips(before, d);
        assert(discs =~= before.push(last));
        lemma_only_zips_push(before, last);
        assert(discs.contains(d) <==> before.contains(d) || last == d) by {
            if before.contains(d) {
                let i = choose|i: int| 0 <= i < before.len() && before[i] == d;
                assert(discs[i] == d);
            }
            if last == d {
                assert(discs[discs.len() - 1] == d);
            }
            if discs.contains(d) && last != d {
                let i = choose|i: int| 0 <= i < discs.len() && discs[i] == d;
                assert(before[i] == d);
            }
        }
        let kept = only_zips(before);
        let all = kept.push(last);
        assert(all.contains(d) <==> kept.contains(d) || last == d) by {
            if kept.contains(d) {
                let i = choose|i: int| 0 <= i < kept.len() && kept[i] == d;
                assert(all[i] == d);
            }
            if last == d {
                assert(all[all.len() - 1] == d);
            }
            if all.contains(d) && last != d {
                let i = choose|i: int| 0 <= i < all.len() && all[i] == d;
                assert(kept[i] == d);
            }
        }
    }
}

/// Whether a name ends in `.cue`, in any case.
pub open spec fn ends_in_cue(name: Seq<char>) -> bool {
    name.len() >= 4 && same_letters(name.skip(name.len() - 4), seq!['.', 'c', 'u', 'e'])
}

/// An entry of an archive is a .cue where its name ends in `.cue`, in any case.
pub proof fn law_cue_entry(name: Seq<char>)
    ensures
        is_cue_name(name) <==> ends_in_cue(name),
{
    reveal_strlit(".cue");
    let cue = seq!['.', 'c', 'u', 'e'];
    assert(".cue"@ =~= cue);
    let lower = ascii_lowercase(name);
    let n = name.len() as int;
    if n >= 4 {
        let tail = name.skip(n - 4);
        law_same_letters(tail, cue);
        assert(ascii_lowercase(cue) =~= cue);
        assert(lower.subrange(n - 4, n) =~= ascii_lowercase(tail));
    }
}

/// Lists of discs and of files are seen as they are.
pub proof fn law_views(discs: Seq<DiscEntry>, files: Seq<LibraryFile>, i: int, j: int)
    requires
        0 <= i < discs.len(),
        0 <= j < files.len(),
    ensures
        disc_views(discs).len() == discs.len(),
        disc_views(discs)[i].title == discs[i].title@,
        disc_views(discs)[i].source == discs[i].source,
        file_views(files).len() == files.len(),
        file_views(files)[j].path == files[j].path,
        file_views(files)[j].name == files[j].name@,
        file_views(files)[j].order == files[j].order@,
{
}

/// A scan is seen as it is.
pub proof fn law_view_of_scan(scan: LibraryScan)
    ensures
        scan@.discs == disc_views(scan.discs@),
        scan@.pending == disc_views(scan.pending@),
{
}

/// The archive to look into next is the first of those that are pending, where there is one.
pub proof fn law_next_probe(scan: LibraryScan, source: Option<&DiscSource>)
    requires
        call_ensures(LibraryScan::next_probe, (&scan,), source),
    ensures
        scan.pending@.len() == 0 <==> source is None,
        source matches Some(s) ==> *s == scan.pending@[0].source,
{
}

// ---- Settings ----------------------------------------------------------------------------------
/// The settings file names a folder by its text, whatever white space stands around it.
pub proof fn law_saved_path(text: &str, a: Seq<char>, name: Seq<char>, b: Seq<char>, path: PathBuf)
    requires
        call_ensures(Config::saved_path, (text,), path),
        text@ == a + name + b,
        all_blank(a) && all_blank(b),
        name.len() > 0 ==> !blank(name[0]) && !blank(name.last()),
    ensures
        path_bytes(path) == encode_utf8(name),
{
    law_trim(a, name, b);
}

/// A folder that exists is the library; one that does not, or none, leaves it open.
pub proof fn law_loaded(saved: Option<PathBuf>, exists: bool, config: Config)
    requires
        call_ensures(Config::load, (saved, exists), config),
    ensures
        exists ==> config.library_path == saved,
        !exists ==> config.library_path is None,
{
}

/// Saving writes the text of the library path, which encodes to the bytes of the path where these
/// are valid UTF-8; without a path the file is removed.
pub proof fn law_saved_text(action: SaveAction, path: PathBuf)
    ensures
        saves(action, Some(path)) ==> action is Write,
        saves(action, Some(path)) && valid_utf8(path_bytes(path)) ==> encode_utf8(action->Write_0@)
            == path_bytes(path),
        saves(action, None) ==> action is Remove,
{
    if valid_utf8(path_bytes(path)) {
        decode_utf8_encode_utf8(path_bytes(path));
    }
}

/// Of any path, the valid text that it starts with is written first.
pub proof fn law_saved_start(action: SaveAction, path: PathBuf, n: int)
    requires
        saves(action, Some(path)),
        0 <= n <= path_bytes(path).len(),
        valid_utf8(path_bytes(path).take(n)),
    ensures
        decode_utf8(path_bytes(path).take(n)).len() <= action->Write_0@.len(),
        action->Write_0@.take(decode_utf8(path_bytes(path).take(n)).len() as int) == decode_utf8(
            path_bytes(path).take(n),
        ),
{
    let start = decode_utf8(path_bytes(path).take(n));
    assert(start.is_prefix_of(action->Write_0@));
    assert(action->Write_0@.take(start.len() as int) =~= start);
}

} // verus!
