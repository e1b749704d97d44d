//! Which bytes are read for a track and what they sound like, in numbers.
use vstd::prelude::*;
use crate::cue::{cut, padded, sample, samples, Fetch, FetchView, FileRange, Track, ZipEntry};
use crate::laws::holds;
use std::path::PathBuf;

verus! {

// ---- Stretches of bytes ------------------------------------------------------------------------
/// A cut is the stretch that is asked for, as far as the data reach.
pub proof fn law_cut(data: Seq<u8>, start: int, len: int)
    requires
        0 <= start,
        0 <= len,
    ensures
        start + len <= data.len() ==> cut(data, start, len) == data.subrange(start, start + len),
        start <= data.len() < start + len ==> cut(data, start, len) == data.subrange(
            start,
            data.len() as int,
        ),
        data.len() < start ==> cut(data, start, len) == Seq::<u8>::empty(),
{
    if start + len <= data.len() {
        assert(cut(data, start, len) =~= data.subrange(start, start + len));
    } else if start <= data.len() {
        assert(cut(data, start, len) =~= data.subrange(start, data.len() as int));
    }
}

/// Bytes that are missing at the end of a stretch are zeros, and none is added or lost otherwise.
pub proof fn law_padded(bytes: Seq<u8>, zeros: nat, len: nat)
    requires
        len <= bytes.len(),
    ensures
        padded(bytes, bytes.len() + zeros) == bytes + Seq::new(zeros, |i: int| 0u8),
        padded(bytes, len) == bytes.take(len as int),
{
    assert(padded(bytes, bytes.len() + zeros) =~= bytes + Seq::new(zeros, |i: int| 0u8));
    assert(padded(bytes, len) =~= bytes.take(len as int));
}

/// What a stretch of a file gives: the bytes of the file there, with zeros behind its end.
pub proof fn law_content(range: FileRange, file: Seq<u8>, i: int)
    requires
        0 <= i < range.len,
    ensures
        range.content(file).len() == range.len,
        range.content(file)[i] == (if range.start + i < file.len() {
            file[range.start + i]
        } else {
            0
        }),
{
    law_cut(file, range.start as int, range.len as int);
}

/// A read of an entry asks for the bytes that are wanted, from where they lie in the ZIP file, and
/// for none behind the entry's data.
pub proof fn law_entry_range(entry: ZipEntry, offset: u64, len: usize)
    requires
        entry.data_start + offset <= 0xffff_ffff_ffff_ffff,
        entry.data_size <= usize::MAX,
    ensures
        entry.range(offset, len).path == entry.zip_path,
        entry.range(offset, len).start == entry.data_start + offset,
        offset + len <= entry.data_size ==> entry.range(offset, len).len == len,
        offset <= entry.data_size < offset + len ==> entry.range(offset, len).len == entry.data_size
            - offset,
        entry.data_size < offset ==> entry.range(offset, len).len == 0,
{
}

/// Reading all of an entry asks for all of its data.
pub proof fn law_entry_range_all(entry: ZipEntry)
    requires
        entry.data_size <= usize::MAX,
    ensures
        entry.range(0, entry.data_size as usize).path == entry.zip_path,
        entry.range(0, entry.data_size as usize).start == entry.data_start,
        entry.range(0, entry.data_size as usize).len == entry.data_size,
{
}

/// What is to be fetched is seen as it is.
pub proof fn law_view_of_fetch(range: FileRange, path: PathBuf, bytes: Vec<u8>)
    ensures
        Fetch::Range(range)@ == FetchView::Range(range),
        Fetch::File(path)@ == FetchView::File(path),
        Fetch::Bytes(bytes)@ == FetchView::Bytes(bytes@),
{
}

// ---- CDG ---------------------------------------------------------------------------------------
/// From a monolithic .cdg at hand a track gets its own bytes: 96 for each of its sectors, from 96
/// times its disc sector on.
pub proof fn law_cdg_at_hand(track: Track, raw: Seq<u8>)
    requires
        track.cdg_zip is None,
        track.cdg_path is None,
        raw.len() <= usize::MAX,
        (track.abs_sector + track.sectors) * 96 <= raw.len(),
    ensures
        track.cdg_fits(true, None),
        track.cdg_fetch(Some(raw), None) == FetchView::Bytes(
            raw.subrange(track.abs_sector * 96, (track.abs_sector + track.sectors) * 96),
        ),
        raw.subrange(track.abs_sector * 96, (track.abs_sector + track.sectors) * 96).len() == 96
            * track.sectors,
{
    law_cut(raw, track.abs_sector * 96, track.sectors * 96);
}

/// Where a monolithic .cdg ends early, a track gets what there is.
pub proof fn law_cdg_at_hand_cut_short(track: Track, raw: Seq<u8>)
    requires
        track.cdg_zip is None,
        track.cdg_path is None,
        (track.abs_sector + track.sectors) * 96 <= usize::MAX,
        raw.len() < (track.abs_sector + track.sectors) * 96,
    ensures
        track.cdg_fits(true, None),
        track.abs_sector * 96 <= raw.len() ==> track.cdg_fetch(Some(raw), None) == FetchView::Bytes(
            raw.skip(track.abs_sector * 96),
        ),
        track.abs_sector * 96 > raw.len() ==> track.cdg_fetch(Some(raw), None) == FetchView::Bytes(
            Seq::<u8>::empty(),
        ),
{
    law_cut(raw, track.abs_sector * 96, track.sectors * 96);
    if track.abs_sector * 96 <= raw.len() {
        assert(raw.skip(track.abs_sector * 96) =~= raw.subrange(
            track.abs_sector * 96,
            raw.len() as int,
        ));
    }
}

/// The CDG bytes of two tracks, of which one begins where the other ends, join without a gap.
pub proof fn law_cdg_joins(one: Track, two: Track, raw: Seq<u8>)
    requires
        one.cdg_zip is None && one.cdg_path is None,
        two.cdg_zip is None && two.cdg_path is None,
        two.abs_sector == one.abs_sector + one.sectors,
        raw.len() <= usize::MAX,
        (two.abs_sector + two.sectors) * 96 <= raw.len(),
    ensures
        one.cdg_fetch(Some(raw), None) is Bytes,
        two.cdg_fetch(Some(raw), None) is Bytes,
        one.cdg_fetch(Some(raw), None)->Bytes_0 + two.cdg_fetch(Some(raw), None)->Bytes_0
            == raw.subrange(one.abs_sector * 96, (two.abs_sector + two.sectors) * 96),
{
    law_cdg_at_hand(one, raw);
    law_cdg_at_hand(two, raw);
    let a = one.abs_sector * 96;
    let b = two.abs_sector * 96;
    let c = (two.abs_sector + two.sectors) * 96;
    assert(raw.subrange(a, b) + raw.subrange(b, c) =~= raw.subrange(a, c));
}

/// From a monolithic .cdg in a ZIP, the same bytes are asked for: 96 for each sector, from 96 times
/// the disc sector on, counted from the start of the entry's data.
pub proof fn law_cdg_in_zip(track: Track, zip: ZipEntry, raw: Option<Seq<u8>>)
    requires
        track.cdg_zip is None,
        track.cdg_path is None,
        zip.data_size <= usize::MAX,
        zip.data_start + zip.data_size <= 0xffff_ffff_ffff_ffff,
        (track.abs_sector + track.sectors) * 96 <= zip.data_size,
    ensures
        track.cdg_fits(raw is Some, Some(zip)),
        track.cdg_fetch(raw, Some(zip)) == FetchView::Range(
            FileRange {
                path: zip.zip_path,
                start: (zip.data_start + track.abs_sector * 96) as u64,
                len: (track.sectors * 96) as usize,
            },
        ),
{
    law_entry_range(zip, (track.abs_sector * 96) as u64, (track.sectors * 96) as usize);
}

/// A monolithic .cdg in a ZIP that ends early is asked for what there is.
pub proof fn law_cdg_in_zip_cut_short(track: Track, zip: ZipEntry, raw: Option<Seq<u8>>)
    requires
        track.cdg_zip is None,
        track.cdg_path is None,
        zip.data_size <= usize::MAX,
        zip.data_start + track.abs_sector * 96 <= 0xffff_ffff_ffff_ffff,
        track.sectors * 96 <= usize::MAX,
        zip.data_size < (track.abs_sector + track.sectors) * 96,
    ensures
        track.cdg_fits(raw is Some, Some(zip)),
        track.cdg_fetch(raw, Some(zip)) == FetchView::Range(
            FileRange {
                path: zip.zip_path,
                start: (zip.data_start + track.abs_sector * 96) as u64,
                len: if track.abs_sector * 96 <= zip.data_size {
                    (zip.data_size - track.abs_sector * 96) as usize
                } else {
                    0
                },
            },
        ),
{
    law_entry_range(zip, (track.abs_sector * 96) as u64, (track.sectors * 96) as usize);
}

/// A monolithic .cdg in a ZIP that holds the bytes gives the track its own.
pub proof fn law_cdg_from_zip(track: Track, zip: ZipEntry, file: Seq<u8>, data: Seq<u8>)
    requires
        track.cdg_zip is None,
        track.cdg_path is None,
        data.len() <= usize::MAX,
        holds(file, zip, data),
        (track.abs_sector + track.sectors) * 96 <= data.len(),
    ensures
        track.cdg_fetch(None, Some(zip)) is Range,
        track.cdg_fetch(None, Some(zip))->Range_0.content(file) == data.subrange(
            track.abs_sector * 96,
            (track.abs_sector + track.sectors) * 96,
        ),
{
    law_cdg_in_zip(track, zip, None);
    let range = track.cdg_fetch(None, Some(zip))->Range_0;
    let wanted = data.subrange(track.abs_sector * 96, (track.abs_sector + track.sectors) * 96);
    assert(range.len == wanted.len());
    assert(range.content(file).len() == range.len) by {
        if range.len > 0 {
            law_content(range, file, 0);
        } else {
            assert(range.content(file) =~= Seq::empty());
        }
    }
    assert forall|i: int| 0 <= i < wanted.len() implies range.content(file)[i] == wanted[i] by {
        law_content(range, file, i);
        let at = track.abs_sector * 96 + i;
        assert(file.subrange(zip.data_start as int, zip.data_start + zip.data_size)[at] == data[at]);
    }
    assert(range.content(file) =~= wanted);
}

/// A track with CDG data of its own gets all of them, whatever else there is: first from a ZIP, then
/// from a file. Without any source it gets none.
pub proof fn law_cdg_of_its_own(track: Track, raw: Option<Seq<u8>>, zip: Option<ZipEntry>)
    ensures
        track.cdg_zip matches Some(own) ==> own.data_size <= usize::MAX ==> track.cdg_fetch(raw, zip)
            == FetchView::Range(
            FileRange {
                path: own.zip_path,
                start: own.data_start,
                len: own.data_size as usize,
            },
        ),
        track.cdg_zip is None ==> (track.cdg_path matches Some(path) ==> track.cdg_fetch(raw, zip)
            == FetchView::File(path)),
        track.cdg_zip is None && track.cdg_path is None ==> track.cdg_fetch(None, None)
            == FetchView::Bytes(Seq::<u8>::empty()),
        track.cdg_zip is Some || track.cdg_path is Some ==> track.cdg_fits(raw is Some, zip),
        track.cdg_fits(false, None),
{
    if let Some(own) = track.cdg_zip {
        if own.data_size <= usize::MAX {
            law_entry_range_all(own);
        }
    }
}

/// Where a track is told to have no CDG data, none are read for it. With CDG data beside it, or of the
/// whole disc, it is told to have some.
pub proof fn law_has_cdg(track: Track, has_global: bool, told: bool)
    requires
        call_ensures(Track::has_cdg, (&track, has_global), told),
    ensures
        has_global ==> told,
        track.cdg_zip is Some ==> told,
        track.cdg_path is Some ==> told,
        !told ==> track.cdg_fetch(None, None) == FetchView::Bytes(Seq::empty()),
        !has_global && told ==> track.cdg_fetch(None, None) !is Bytes,
{
}

/// Where a track starts in a monolithic .cdg: 96 bytes for each sector before it.
pub proof fn law_cdg_start(track: Track)
    ensures
        track.cdg_start() == 96 * track.abs_sector,
{
}

// ---- Sound -------------------------------------------------------------------------------------
/// The number that two bytes write, low byte first, in two's complement.
pub proof fn law_sample(low: u8, high: u8)
    ensures
        high < 128 ==> sample(low, high) == low + 256 * high,
        high >= 128 ==> sample(low, high) == low + 256 * high - 65536,
{
}

/// Every two bytes are a sample; a last odd byte is left out.
pub proof fn law_samples(bytes: Seq<u8>, i: int)
    requires
        0 <= i < bytes.len() / 2,
    ensures
        samples(bytes).len() == bytes.len() / 2,
        samples(bytes)[i] == sample(bytes[2 * i], bytes[2 * i + 1]),
{
}

/// There are as many samples as pairs of bytes.
pub proof fn law_count_of_samples(bytes: Seq<u8>)
    ensures
        2 * samples(bytes).len() <= bytes.len() <= 2 * samples(bytes).len() + 1,
{
}

/// From a bin on disk a track gets its own bytes: 2352 for each of its sectors, from where its sound
/// begins; as samples, 1176 for each sector.
pub proof fn law_sound_on_disk(track: Track, data: Seq<u8>)
    requires
        track.bin_zip is None,
        track.bin_path is Some,
        data.len() <= usize::MAX,
        track.bin_audio_offset + track.sectors * 2352 <= data.len(),
    ensures
        track.audio_fetch_fits(),
        track.audio_cut_fits(),
        track.audio_fetch() == FetchView::File(track.bin_path->0),
        track.audio_bytes(data) == data.subrange(
            track.bin_audio_offset as int,
            track.bin_audio_offset + track.sectors * 2352,
        ),
        samples(track.audio_bytes(data)).len() == 1176 * track.sectors,
{
    law_cut(data, track.bin_audio_offset as int, track.sectors * 2352);
}

/// Where a bin on disk ends early, a track gets what there is.
pub proof fn law_sound_on_disk_cut_short(track: Track, data: Seq<u8>)
    requires
        track.bin_zip is None,
        track.bin_path is Some,
        track.bin_audio_offset + track.sectors * 2352 <= usize::MAX,
        data.len() < track.bin_audio_offset + track.sectors * 2352,
    ensures
        track.audio_cut_fits(),
        track.bin_audio_offset <= data.len() ==> track.audio_bytes(data) == data.skip(
            track.bin_audio_offset as int,
        ),
        track.bin_audio_offset > data.len() ==> track.audio_bytes(data) == Seq::<u8>::empty(),
{
    law_cut(data, track.bin_audio_offset as int, track.sectors * 2352);
    if track.bin_audio_offset <= data.len() {
        assert(data.skip(track.bin_audio_offset as int) =~= data.subrange(
            track.bin_audio_offset as int,
            data.len() as int,
        ));
    }
}

/// From a bin in a ZIP the same bytes are asked for, and all that comes is sound.
pub proof fn law_sound_in_zip(track: Track, zip: ZipEntry, fetched: Seq<u8>)
    requires
        track.bin_zip == Some(zip),
        zip.data_size <= usize::MAX,
        zip.data_start + zip.data_size <= 0xffff_ffff_ffff_ffff,
        track.bin_audio_offset + track.sectors * 2352 <= zip.data_size,
    ensures
        track.audio_fetch_fits(),
        track.audio_cut_fits(),
        track.audio_fetch() == FetchView::Range(
            FileRange {
                path: zip.zip_path,
                start: (zip.data_start + track.bin_audio_offset) as u64,
                len: (track.sectors * 2352) as usize,
            },
        ),
        track.audio_bytes(fetched) == fetched,
{
    law_entry_range(zip, track.bin_audio_offset, (track.sectors * 2352) as usize);
}

/// A bin in a ZIP that ends early is asked for what there is.
pub proof fn law_sound_in_zip_cut_short(track: Track, zip: ZipEntry)
    requires
        track.bin_zip == Some(zip),
        zip.data_size <= usize::MAX,
        zip.data_start + track.bin_audio_offset <= 0xffff_ffff_ffff_ffff,
        track.sectors * 2352 <= usize::MAX,
        zip.data_size < track.bin_audio_offset + track.sectors * 2352,
    ensures
        track.audio_fetch_fits(),
        track.audio_fetch() == FetchView::Range(
            FileRange {
                path: zip.zip_path,
                start: (zip.data_start + track.bin_audio_offset) as u64,
                len: if track.bin_audio_offset <= zip.data_size {
                    (zip.data_size - track.bin_audio_offset) as usize
                } else {
                    0
                },
            },
        ),
{
    law_entry_range(zip, track.bin_audio_offset, (track.sectors * 2352) as usize);
}

/// The sound of two tracks of one bin, of which one begins where the other ends, joins without a
/// gap.
pub proof fn law_sound_joins(one: Track, two: Track, data: Seq<u8>)
    requires
        one.bin_zip is None && one.bin_path is Some,
        two.bin_zip is None && two.bin_path is Some,
        two.bin_audio_offset == one.bin_audio_offset + one.sectors * 2352,
        data.len() <= usize::MAX,
        two.bin_audio_offset + two.sectors * 2352 <= data.len(),
    ensures
        one.audio_bytes(data) + two.audio_bytes(data) == data.subrange(
            one.bin_audio_offset as int,
            two.bin_audio_offset + two.sectors * 2352,
        ),
{
    law_sound_on_disk(one, data);
    law_sound_on_disk(two, data);
    let a = one.bin_audio_offset as int;
    let b = two.bin_audio_offset as int;
    let c = two.bin_audio_offset + two.sectors * 2352;
    assert(data.subrange(a, b) + data.subrange(b, c) =~= data.subrange(a, c));
}

/// A track without a bin is silent.
pub proof fn law_no_sound(track: Track, fetched: Seq<u8>)
    requires
        track.bin_zip is None,
        track.bin_path is None,
    ensures
        track.audio_fetch_fits(),
        track.audio_cut_fits(),
        track.audio_fetch() == FetchView::Bytes(Seq::<u8>::empty()),
        samples(track.audio_bytes(fetched)).len() == 0,
{
}

// ---- Numbers that do not fit -------------------------------------------------------------------
/// A track whose CDG bytes would end behind the last position there is cannot be read.
pub proof fn law_cdg_too_large(track: Track, zip: ZipEntry, has_raw: bool)
    requires
        track.cdg_zip is None,
        track.cdg_path is None,
        track.sectors <= usize::MAX,
    ensures
        track.abs_sector * 96 <= usize::MAX && (track.abs_sector + track.sectors) * 96 > usize::MAX
            ==> !track.cdg_fits(true, None),
        track.abs_sector * 96 > 0xffff_ffff_ffff_ffff ==> !track.cdg_fits(true, None),
        zip.data_start + track.abs_sector * 96 > 0xffff_ffff_ffff_ffff ==> !track.cdg_fits(
            has_raw,
            Some(zip),
        ),
        track.sectors * 96 > usize::MAX ==> !track.cdg_fits(has_raw, Some(zip)),
{
}

/// A track whose sound would end behind the last position there is cannot be read.
pub proof fn law_sound_too_large(track: Track)
    requires
        track.sectors <= usize::MAX,
    ensures
        track.bin_zip is None && track.bin_path is Some && track.bin_audio_offset <= usize::MAX
            && track.bin_audio_offset + track.sectors * 2352 > usize::MAX ==> !track.audio_cut_fits(),
        track.bin_zip is Some && track.sectors * 2352 > usize::MAX ==> !track.audio_fetch_fits(),
        track.bin_zip matches Some(zip) ==> zip.data_start + track.bin_audio_offset
            > 0xffff_ffff_ffff_ffff ==> !track.audio_fetch_fits(),
{
}

} // verus!
